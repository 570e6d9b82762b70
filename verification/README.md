# arctic

Verified building blocks of a lock-free adaptive radix tree, written in
Verus. Every function in `src/` carries a contract over a mathematical
model, and Verus proves it.

## Layout

- `src/len.rs` — key lengths in bytes and in bits, bounded by a constant.
- `src/key.rs`, `src/key/` — key types (non-null, null-terminated,
  non-prefix, strings, arrays, integers) and their readers and writers,
  which hand out key bytes an edge at a time.
- `src/edge.rs`, `src/edge/` — compressed edge metadata (little-endian,
  big-endian and slice forms), packed edges, and the expand/compress
  operations with their laws.
- `src/node.rs`, `src/node/` — headers of the four node kinds (3, 15, 47
  and 256 entries), their laws, and the iterator over a node's entries.
- `src/raw.rs` — byte-level helpers (uniqueness, zero search).
- `src/cursor.rs` — the traversal state and the decision each traversal
  takes at an edge; the path built for a new key.
- `src/iter.rs`, `src/postorder.rs` — decisions of range scans and of the
  post-order walk.
- `src/write.rs` — decisions of the map's update, upsert and removal.
- `src/tree.rs` — a simplified single-threaded model of the tree: owned
  nodes held as plain lists of key bytes and edges (no node kinds, growth
  or replacement) over the same compressed edge metadata; lookup,
  insertion, removal and ordered scans, proved to behave as a map of
  non-null keys.
- `src/walk.rs` — the decisions of the range walk over its stack of nodes.
- `src/hazard.rs`, `src/reclaim.rs`, `src/smr.rs` — hazard prefixes, one
  thread's retire/flush state, and the reclamation back ends.
- `app/lib.rs` — the loops that perform the shared-memory work the
  write, walk, post-order and freeze decisions ask for, behind traits.
- `tests/` — tests of the library on concrete values.
