//! Tree traversal state: the reader of the rest of the key, the address of
//! the edge the traversal stands on, the number of key bytes consumed, and
//! (if it is kept) the path taken; and the decision that each kind of
//! traversal takes at the edge it has loaded.
//!
//! A traversal alternates loading an edge, deciding, and loading a child
//! from a node; the loads belong to the caller, which hands each loaded
//! edge to a `*_step` function and follows its decision with [`Cursor::push`]
//! (or [`Cursor::skip`] when no path is kept).

use vstd::prelude::*;

use crate::edge::expand_view;
use crate::edge::Child;
use crate::edge::Edge;
use crate::edge::Le;
use crate::edge::MetaView;
use crate::edge::le::le_view;
use crate::key::bytes::lemma_word_match_at_least;
use crate::key::bytes::lemma_word_match_at_most;
use crate::key::bytes::word_match_len;
use crate::key::bytes::Reader;
use crate::key::padded_byte;
use crate::key::Terminate;
use crate::len::masked;
use crate::len::Bit;
use crate::len::Byte;
use crate::len::UNBOUNDED;

verus! {

/// What a reader stands for: its slice, and whether a terminator follows.
pub ghost struct ReaderView {
    pub slice: Seq<u8>,
    pub terminated: bool,
}

impl ReaderView {
    /// The key bytes, the terminator included.
    pub open spec fn key(self) -> Seq<u8> {
        if self.terminated {
            self.slice.push(0)
        } else {
            self.slice
        }
    }

    /// The reader without its first `start` bytes.
    pub open spec fn suffix(self, start: nat) -> ReaderView {
        ReaderView {
            slice: if start <= self.slice.len() {
                self.slice.skip(start as int)
            } else {
                Seq::empty()
            },
            terminated: self.terminated && start <= self.slice.len(),
        }
    }

    /// The first `end` bytes of the reader.
    pub open spec fn prefix(self, end: nat) -> ReaderView {
        ReaderView {
            slice: if end <= self.slice.len() {
                self.slice.take(end as int)
            } else {
                self.slice
            },
            terminated: self.terminated && end > self.slice.len(),
        }
    }
}

/// The view of a byte-string reader.
pub open spec fn reader_view(r: Reader<'_, bool>) -> ReaderView {
    ReaderView { slice: r.spec_slice(), terminated: r.spec_terminated() }
}

/// One step of a path: the reader before the edge, the address of the
/// edge, the number of bits matched along it, and the node under it.
#[derive(Clone, Copy, Debug)]
pub struct Segment<'k> {
    pub reader: Reader<'k, bool>,
    pub edge: usize,
    pub len: Bit<56>,
    pub node: u64,
}

/// What a path segment means.
pub ghost struct SegmentView {
    pub reader: ReaderView,
    pub edge: usize,
    pub len: nat,
    pub node: u64,
}

impl<'k> View for Segment<'k> {
    type V = SegmentView;

    open spec fn view(&self) -> SegmentView {
        SegmentView { reader: reader_view(self.reader), edge: self.edge, len: self.len@, node: self.node }
    }
}

/// Key bytes consumed by the segments of a path: one byte for each node,
/// and the key bytes matched along each edge.
pub open spec fn consumed(path: Seq<SegmentView>) -> nat
    decreases path.len(),
{
    if path.len() == 0 {
        0
    } else {
        consumed(path.drop_last()) + 1 + path.last().len / 8
    }
}

/// What a cursor means.
pub ghost struct CursorView {
    /// Key bytes consumed to reach the current edge.
    pub len: nat,
    /// The rest of the key.
    pub reader: ReaderView,
    /// Address of the current edge.
    pub edge: usize,
    /// The path taken, if it is kept.
    pub path: Seq<SegmentView>,
    /// Whether the path is kept.
    pub retain: bool,
}

/// Tree traversal state.
pub struct Cursor<'k> {
    len: Byte<UNBOUNDED>,
    reader: Reader<'k, bool>,
    edge: usize,
    path: Vec<Segment<'k>>,
    retain: bool,
}

/// Whether the key bytes `bytes` of an edge match the reader's slice
/// `slice` (padded with zero bytes).
pub open spec fn matches(slice: Seq<u8>, bytes: Seq<u8>) -> bool {
    forall|i: int| 0 <= i < bytes.len() ==> bytes[i] == padded_byte(slice, i)
}

/// Decision of a lookup at an edge.
#[derive(Clone, Copy, Debug)]
pub enum Step {
    /// The key is not in the tree.
    Missing,
    /// The key's value.
    Found(u64),
    /// Continue at the child of `node` for `byte`, having matched `len`
    /// bits of the edge.
    Descend(u8, Bit<56>, u64),
}

/// Decision of a prefix search at an edge.
#[derive(Clone, Copy, Debug)]
pub enum PrefixStep {
    /// No key has the prefix.
    Missing,
    /// The loaded edge roots the subtree of keys with the prefix.
    Found,
    /// Continue at the child of `node` for `byte`, having matched `len`
    /// bits of the edge.
    Descend(u8, Bit<56>, u64),
}

/// Decision of a search for the node of a prefix at an edge.
#[derive(Clone, Copy, Debug)]
pub enum NodeStep {
    /// There is no such node; the number of key bytes left.
    Missing(Byte<UNBOUNDED>),
    /// The edge leads to the node; the number of bits matched along it.
    Found(Bit<56>),
    /// Continue at the child of `node` for `byte`, having matched `len`
    /// bits of the edge.
    Descend(u8, Bit<56>, u64),
}

/// Decision of an insertion at an edge.
#[derive(Clone, Copy, Debug)]
pub enum InsertStep {
    /// The insertion happens at this edge; the value already there, if
    /// the edge holds the key's value.
    Value(Option<u64>),
    /// Continue at the child of `node` for `byte` (inserting it if absent),
    /// having matched `len` bits of the edge.
    Descend(u8, Bit<56>, u64),
}

/// Decision of how a new path for the reader's key attaches at an edge.
#[derive(Clone, Copy, Debug)]
pub enum CreateStep {
    /// The edge matches the key as far as it goes: the new path takes the
    /// edge's place, from the reader's key.
    Path,
    /// The key leaves the edge after `len` bytes: a node below the edge's
    /// first `len` bytes (`parent`) leads by the edge's next byte
    /// (`old_byte`) to the edge's rest (`child`) and by the key's next byte
    /// (`new_byte`) to a path for the rest of the key.
    Expand(Le, u8, Le, u8, usize),
}

/// Decision of how a new path attaches at an edge of metadata `meta`,
/// given that the edge and the reader's key agree on their first `m`
/// bytes: by expanding the edge where they part, if they part inside the
/// edge and within the key; else by a path in the edge's place.
pub open spec fn create_step_spec(r: CreateStep, reader: ReaderView, meta: MetaView, m: nat) -> bool {
    if m < meta.bytes.len() && m < reader.key().len() {
        r matches CreateStep::Expand(parent, old_byte, child, new_byte, len) && (
        parent@,
        old_byte,
        child@,
        ) == expand_view(meta, m) && new_byte == reader.key()[m as int] && len == m
    } else {
        r is Path
    }
}

/// Next action of a freeze, which replaces the closest node along the
/// path whose edge is not frozen.
#[derive(Clone, Copy, Debug, PartialEq, Eq, Structural)]
pub enum FreezeAction {
    /// Load the edge the cursor stands on (after moving up the path).
    Load,
    /// Freeze the node, build its replacement from the loaded edge's
    /// metadata, and exchange the loaded edge for the replacement's.
    Replace(u64),
    /// The exchange was lost: free the replacement's node if it allocated
    /// one, then report the edge that won as loaded.
    Discard(bool),
    /// Return: the edge got shorter meanwhile; traverse again.
    Traverse,
    /// Return: done; the node replaced here, to retire, if any.
    Success(Option<u64>),
    /// Return: the path is not kept, so the walk up cannot happen.
    Failed,
    /// The root edge is frozen, which the tree never lets happen.
    RootFrozen,
}

/// What the last action of a freeze reported.
#[derive(Clone, Copy, Debug)]
pub enum FreezeEvent {
    /// The edge the cursor stands on, as loaded.
    Loaded(Edge<Le>),
    /// Whether the exchange won, and whether the replacement allocated a
    /// node.
    Exchanged(bool, bool),
}

/// Decision of a freeze at the edge above the node to replace.
#[derive(Clone, Copy, Debug, PartialEq, Eq, Structural)]
pub enum FreezeStep {
    /// The edge is frozen: move up the path and retry.
    Pop,
    /// The node is unchanged: freeze and replace it.
    Replace,
    /// The edge was expanded meanwhile: traverse again.
    Traverse,
    /// The node was replaced or removed meanwhile: nothing to do.
    Done,
}

/// Whether `r` is the decision of a lookup at an edge with key bytes
/// `bytes`, value flag `value` and child word `child`: missing unless the
/// edge matches; the value if the edge holds one; else, below a node,
/// descend for the next key byte.
pub open spec fn get_step_spec(r: Step, reader: ReaderView, bytes: Seq<u8>, value: bool, child: u64) -> bool {
    let n = bytes.len();
    if !matches(reader.slice, bytes) {
        r == Step::Missing
    } else if value {
        r == Step::Found(child)
    } else if child == 0 {
        r == Step::Missing
    } else if n < reader.key().len() {
        r matches Step::Descend(b, len, node) && b == reader.key()[n as int] && len@ == 8 * n && node
            == child
    } else {
        r == Step::Missing
    }
}

impl<'k> View for Cursor<'k> {
    type V = CursorView;

    closed spec fn view(&self) -> CursorView {
        CursorView {
            len: self.len@,
            reader: reader_view(self.reader),
            edge: self.edge,
            path: self.path@.map_values(|s: Segment<'k>| s@),
            retain: self.retain,
        }
    }
}

/// The cursor `v` after moving along an edge matched over `len` bits and
/// through `node` to the edge at address `edge`.
pub open spec fn push_view(v: CursorView, len: nat, node: u64, edge: usize) -> CursorView {
    CursorView {
        len: v.len + 1 + len / 8,
        reader: v.reader.suffix(1 + len / 8),
        edge,
        path: if v.retain {
            v.path.push(SegmentView { reader: v.reader, edge: v.edge, len, node })
        } else {
            Seq::empty()
        },
        retain: v.retain,
    }
}

/// The cursor `v` moved back up its last path segment, and that segment's
/// length and node; `v` itself if its path is empty.
pub open spec fn pop_view(v: CursorView) -> (Option<(nat, u64)>, CursorView) {
    if v.path.len() == 0 {
        (None, v)
    } else {
        let seg = v.path.last();
        (
            Some((seg.len, seg.node)),
            CursorView {
                len: (v.len - (1 + seg.len / 8)) as nat,
                reader: seg.reader,
                edge: seg.edge,
                path: v.path.drop_last(),
                retain: v.retain,
            },
        )
    }
}

/// Moving back up a kept path undoes moving down it: popping after a push
/// gives back the pushed length and node, and the cursor as it was.
pub proof fn law_pop_undoes_push(v: CursorView, len: nat, node: u64, edge: usize)
    requires
        v.retain,
        v.len == consumed(v.path),
    ensures
        pop_view(push_view(v, len, node, edge)) == (Some((len, node)), v),
{
    let p = push_view(v, len, node, edge);
    assert(p.path.drop_last() =~= v.path);
    assert(p.path.last() == SegmentView { reader: v.reader, edge: v.edge, len, node });
}

/// The segment `s` with the last `len` bytes cut off its key.
pub open spec fn trim_segment(s: SegmentView, len: nat) -> SegmentView {
    SegmentView { reader: s.reader.prefix((s.reader.key().len() - len) as nat), ..s }
}

/// Paths whose segments have the same lengths consume the same bytes.
proof fn lemma_consumed_lens(p: Seq<SegmentView>, q: Seq<SegmentView>)
    requires
        p.len() == q.len(),
        forall|i: int| 0 <= i < p.len() ==> (#[trigger] p[i]).len == q[i].len,
    ensures
        consumed(p) == consumed(q),
    decreases p.len(),
{
    if p.len() > 0 {
        lemma_consumed_lens(p.drop_last(), q.drop_last());
    }
}

/// Decision of a prefix search, given the number `lp` of leading bytes on
/// which the edge's packed word and the reader's slice agree: missing if
/// the edge has no child; descend below a node whose edge bytes all match
/// while the key goes on; else the edge roots the prefix's subtree if the
/// whole key matched, and nothing does otherwise.
pub open spec fn prefix_step_spec(
    r: PrefixStep,
    reader: ReaderView,
    bytes: Seq<u8>,
    value: bool,
    child: u64,
    lp: nat,
) -> bool {
    let n = bytes.len();
    if !value && child == 0 {
        r is Missing
    } else if lp >= n && !value && n < reader.key().len() {
        r matches PrefixStep::Descend(b, len, node) && b == reader.key()[n as int] && len@ == 8 * n
            && node == child
    } else if lp < reader.key().len() {
        r is Missing
    } else {
        r is Found
    }
}

/// A prefix search finds the edge whose leading key bytes are the whole
/// prefix, if the edge has a child: the subtree below it holds exactly the
/// keys that start with the prefix, whether or not the edge's bytes go on
/// past the prefix. `raw` is the edge's packed metadata word.
pub proof fn law_prefix_found(r: PrefixStep, reader: ReaderView, raw: u64, child: u64)
    requires
        prefix_step_spec(
            r,
            reader,
            le_view(raw).bytes,
            le_view(raw).value,
            child,
            word_match_len(raw, reader.slice),
        ),
        le_view(raw).value || child != 0,
        reader.key().len() <= le_view(raw).bytes.len(),
        forall|i: int| 0 <= i < reader.key().len() ==> le_view(raw).bytes[i] == reader.key()[i],
    ensures
        r is Found,
{
    let k = reader.key().len();
    assert(raw >> 58u64 <= 63) by (bit_vector);
    assert forall|j: int| 0 <= j < k implies crate::raw::le_byte(raw, j as nat) == padded_byte(
        reader.slice,
        j,
    ) by {
        lemma_key_padded(reader, j);
    }
    lemma_word_match_at_least(raw, reader.slice, 0, k);
}

/// A prefix search descends below a node whose edge's key bytes all match
/// the prefix while the prefix goes on: to the child for the prefix's next
/// byte, past all the edge's bits.
pub proof fn law_prefix_descends(r: PrefixStep, reader: ReaderView, raw: u64, child: u64)
    requires
        prefix_step_spec(
            r,
            reader,
            le_view(raw).bytes,
            le_view(raw).value,
            child,
            word_match_len(raw, reader.slice),
        ),
        !le_view(raw).value,
        child != 0,
        le_view(raw).bytes.len() < reader.key().len(),
        forall|i: int| 0 <= i < le_view(raw).bytes.len() ==> le_view(raw).bytes[i] == reader.key()[i],
    ensures
        r matches PrefixStep::Descend(b, len, node) && b == reader.key()[le_view(raw).bytes.len() as int]
            && len@ == 8 * le_view(raw).bytes.len() && node == child,
{
    let n = le_view(raw).bytes.len();
    assert(raw >> 58u64 <= 63) by (bit_vector);
    assert forall|j: int| 0 <= j < n implies crate::raw::le_byte(raw, j as nat) == padded_byte(
        reader.slice,
        j,
    ) by {
        lemma_key_padded(reader, j);
    }
    lemma_word_match_at_least(raw, reader.slice, 0, n);
}

/// No key has the prefix when the edge's key bytes differ from the prefix
/// at a byte that both have.
pub proof fn law_prefix_missing(r: PrefixStep, reader: ReaderView, raw: u64, child: u64, i: int)
    requires
        prefix_step_spec(
            r,
            reader,
            le_view(raw).bytes,
            le_view(raw).value,
            child,
            word_match_len(raw, reader.slice),
        ),
        0 <= i < le_view(raw).bytes.len(),
        i < reader.key().len(),
        le_view(raw).bytes[i] != reader.key()[i],
    ensures
        r is Missing,
{
    assert(raw >> 58u64 <= 63) by (bit_vector);
    lemma_key_padded(reader, i);
    lemma_word_match_at_most(raw, reader.slice, 0, i as nat);
}

/// Decision of a search for a node: missing (with the key bytes left)
/// unless the edge matches and has a node below it; then the node itself
/// if the key ends there, else descend for the next key byte.
pub open spec fn node_step_spec(r: NodeStep, reader: ReaderView, bytes: Seq<u8>, child: u64) -> bool {
    let n = bytes.len();
    if !matches(reader.slice, bytes) || child == 0 {
        r matches NodeStep::Missing(left) && left@ == reader.key().len()
    } else if n < reader.key().len() {
        r matches NodeStep::Descend(b, len, node) && b == reader.key()[n as int] && len@ == 8 * n
            && node == child
    } else {
        r matches NodeStep::Found(len) && len@ == 8 * n
    }
}

/// Decision of an insertion: at this edge if it has no child or does not
/// match (with the value if it holds the key's value); else descend below
/// its node for the next key byte.
pub open spec fn insert_step_spec(
    r: InsertStep,
    reader: ReaderView,
    bytes: Seq<u8>,
    value: bool,
    child: u64,
) -> bool {
    let n = bytes.len();
    if (!value && child == 0) || !matches(reader.slice, bytes) {
        r == InsertStep::Value(None)
    } else if value {
        r == InsertStep::Value(Some(child))
    } else if n < reader.key().len() {
        r matches InsertStep::Descend(b, len, node) && b == reader.key()[n as int] && len@ == 8 * n
            && node == child
    } else {
        r == InsertStep::Value(None)
    }
}

/// An insertion and a lookup of the same key at the same edge agree: the
/// insertion stops at the edge with the old value exactly where the lookup
/// finds it, stops with no old value exactly where the lookup misses, and
/// descends exactly where and as the lookup does.
pub proof fn law_insert_agrees_with_get(
    get: Step,
    insert: InsertStep,
    reader: ReaderView,
    bytes: Seq<u8>,
    value: bool,
    child: u64,
)
    requires
        get_step_spec(get, reader, bytes, value, child),
        insert_step_spec(insert, reader, bytes, value, child),
    ensures
        forall|v: u64| get == Step::Found(v) <==> insert == InsertStep::Value(Some(v)),
        get is Missing <==> insert == InsertStep::Value(None),
        get matches Step::Descend(b, len, node) ==> (insert matches InsertStep::Descend(b2, len2, node2)
            && b2 == b && len2@ == len@ && node2 == node),
        insert matches InsertStep::Descend(b, len, node) ==> (get matches Step::Descend(b2, len2, node2)
            && b2 == b && len2@ == len@ && node2 == node),
{
}

/// What a lookup reads back at an edge where it found a value, after that
/// edge is exchanged: the new value after an update (the key bytes of the
/// edge are kept), and nothing after a removal (the edge is nulled).
pub proof fn law_exchange_read_back(
    found: Step,
    after: Step,
    reader: ReaderView,
    bytes: Seq<u8>,
    old: u64,
    new: u64,
    removed: bool,
)
    requires
        get_step_spec(found, reader, bytes, true, old),
        found == Step::Found(old),
        removed ==> get_step_spec(after, reader, Seq::empty(), false, 0),
        !removed ==> get_step_spec(after, reader, bytes, true, new),
    ensures
        removed ==> after is Missing,
        !removed ==> after == Step::Found(new),
{
}

/// Decision of a freeze at an edge expected to lead over `old_len` bits to
/// `old_node`: move up if the edge is frozen; replace the node if it is
/// still there; traverse again if the edge got shorter (it was expanded);
/// else the node is gone.
pub open spec fn freeze_step_spec(edge: crate::edge::fat::EdgeView, old_len: nat, old_node: u64) -> FreezeStep {
    if edge.meta.frozen {
        FreezeStep::Pop
    } else if !edge.meta.value && edge.child != 0 {
        if edge.child == old_node {
            FreezeStep::Replace
        } else if 8 * edge.meta.bytes.len() < old_len {
            FreezeStep::Traverse
        } else {
            FreezeStep::Done
        }
    } else {
        FreezeStep::Done
    }
}

/// Decision of a freeze at the loaded edge `edge`, which the traversal
/// expects to lead over `old_len` bits to `old_node`.
pub fn freeze_step(edge: Edge<Le>, old_len: Bit<56>, old_node: u64) -> (r: FreezeStep)
    ensures
        r == freeze_step_spec(edge@, old_len@, old_node),
{
    let meta = edge.meta();
    if meta.is_frozen() {
        return FreezeStep::Pop;
    }
    match edge.child() {
        Some(Child::Node(node)) => {
            if node == old_node {
                FreezeStep::Replace
            } else if meta.len().into_u8() < old_len.into_u8() {
                FreezeStep::Traverse
            } else {
                FreezeStep::Done
            }
        },
        _ => FreezeStep::Done,
    }
}

/// The key bytes that a chain of full edges spells: each edge's bytes,
/// then the byte that leads below the node it ends at.
pub open spec fn spelled(segments: Seq<(Le, u8)>) -> Seq<u8>
    decreases segments.len(),
{
    if segments.len() == 0 {
        Seq::empty()
    } else {
        spelled(segments.drop_last()) + segments.last().0@.bytes.push(segments.last().1)
    }
}

/// The chain of edges that a new path for the key of `reader` is made of:
/// full edges of seven bytes, each followed by the byte under which the
/// chain continues below a new node, and the last edge, which holds the
/// rest of the key (at most seven bytes) and will hold the value.
pub fn path_segments<T: Terminate>(reader: Reader<'_, T>) -> (r: (Vec<(Le, u8)>, Le))
    requires
        reader.spec_slice().len() < UNBOUNDED,
    ensures
        spelled(r.0@) + r.1@.bytes == reader.key(),
        forall|i: int| 0 <= i < r.0@.len() ==> (#[trigger] r.0@[i]).0@.bytes.len() == 7,
        r.1@.bytes.len() <= 7,
{
    let mut segments: Vec<(Le, u8)> = Vec::new();
    let mut rest = reader;
    let full = Bit::<56>::new_unchecked(56);
    while rest.len().bytes() > 7
        invariant
            rest.spec_slice().len() < UNBOUNDED,
            spelled(segments@) + rest.key() == reader.key(),
            forall|i: int| 0 <= i < segments@.len() ==> (#[trigger] segments@[i]).0@.bytes.len() == 7,
            full@ == 56,
        decreases rest.key().len(),
    {
        let edge = rest.get_edge(full);
        let byte = match rest.get_byte(7) {
            Some(byte) => byte,
            None => 0,
        };
        let ghost before = segments@;
        let ghost key = rest.key();
        segments.push((edge, byte));
        rest = rest.suffix(Byte::new(8));
        proof {
            assert(segments@.drop_last() =~= before);
            assert(edge@.bytes.push(byte) =~= key.take(8));
            assert(key =~= key.take(8) + key.skip(8));
            assert(spelled(segments@) == spelled(before) + key.take(8));
            assert(spelled(segments@) + rest.key() =~= spelled(before) + key);
        }
    }
    let last = rest.get_edge(full);
    assert(last@.bytes =~= rest.key());
    (segments, last)
}

/// `seg` with the last `len` bytes cut off its reader's key.
fn trim_one<'k>(seg: Segment<'k>, len: Byte<UNBOUNDED>) -> (r: Segment<'k>)
    requires
        seg.reader.spec_slice().len() < UNBOUNDED,
        len@ <= seg@.reader.key().len(),
    ensures
        r@ == trim_segment(seg@, len@),
{
    let reader = seg.reader.prefix(seg.reader.len().sub(len));
    Segment { reader, ..seg }
}

/// Where a chain of full edges spells a key, each edge spells the key's
/// bytes at its place, and the byte after it follows.
proof fn lemma_spelled_at(segments: Seq<(Le, u8)>, j: int, k: int)
    requires
        forall|i: int| 0 <= i < segments.len() ==> (#[trigger] segments[i]).0@.bytes.len() == 7,
        0 <= j < segments.len(),
        0 <= k < 8,
    ensures
        spelled(segments).len() == 8 * segments.len(),
        spelled(segments)[8 * j + k] == if k < 7 {
            segments[j].0@.bytes[k]
        } else {
            segments[j].1
        },
    decreases segments.len(),
{
    let init = segments.drop_last();
    let n = segments.len() - 1;
    lemma_spelled_len(init);
    if j < n {
        lemma_spelled_at(init, j, k);
    }
}

/// A chain of full edges spells eight bytes per edge.
proof fn lemma_spelled_len(segments: Seq<(Le, u8)>)
    requires
        forall|i: int| 0 <= i < segments.len() ==> (#[trigger] segments[i]).0@.bytes.len() == 7,
    ensures
        spelled(segments).len() == 8 * segments.len(),
    decreases segments.len(),
{
    if segments.len() > 0 {
        lemma_spelled_len(segments.drop_last());
    }
}

/// Each byte of a reader's key is the byte of its slice padded with zero
/// bytes (the terminator is a zero byte).
proof fn lemma_key_padded(reader: ReaderView, i: int)
    requires
        0 <= i < reader.key().len(),
    ensures
        reader.key()[i] == padded_byte(reader.slice, i),
{
}

/// A lookup of a key along the path built for it reaches the value: at the
/// edge of each full segment, below which a node stands, it descends by
/// the segment's byte past the edge's seven bytes; at the last edge, which
/// holds the value, it finds the value.
pub proof fn law_lookup_follows_new_path(reader: ReaderView, segments: Seq<(Le, u8)>, last: Le)
    requires
        spelled(segments) + last@.bytes == reader.key(),
        forall|i: int| 0 <= i < segments.len() ==> (#[trigger] segments[i]).0@.bytes.len() == 7,
    ensures
        forall|j: int, node: u64, r: Step|
            0 <= j < segments.len() && node != 0 && #[trigger] get_step_spec(
                r,
                reader.suffix((8 * j) as nat),
                segments[j].0@.bytes,
                false,
                node,
            ) ==> (r matches Step::Descend(b, len, n) && b == segments[j].1 && len@ == 56 && n
                == node),
        forall|value: u64, r: Step|
            #[trigger] get_step_spec(
                r,
                reader.suffix((8 * segments.len()) as nat),
                last@.bytes,
                true,
                value,
            ) ==> r == Step::Found(value),
{
    lemma_spelled_len(segments);
    let key = reader.key();
    let m: int = (8 * segments.len()) as int;
    assert forall|j: int, node: u64, r: Step|
        0 <= j < segments.len() && node != 0 && #[trigger] get_step_spec(
            r,
            reader.suffix((8 * j) as nat),
            segments[j].0@.bytes,
            false,
            node,
        ) implies (r matches Step::Descend(b, len, n) && b == segments[j].1 && len@ == 56 && n
        == node) by {
        let rest = reader.suffix((8 * j) as nat);
        assert(rest.key() =~= key.skip(8 * j));
        let bytes = segments[j].0@.bytes;
        assert forall|i: int| 0 <= i < bytes.len() implies bytes[i] == padded_byte(rest.slice, i) by {
            lemma_spelled_at(segments, j, i);
            lemma_key_padded(rest, i);
        }
        lemma_spelled_at(segments, j, 7);
    }
    assert forall|value: u64, r: Step|
        #[trigger] get_step_spec(
            r,
            reader.suffix(m as nat),
            last@.bytes,
            true,
            value,
        ) implies r == Step::Found(value) by {
        let rest = reader.suffix(m as nat);
        assert(rest.key() =~= key.skip(m));
        assert forall|i: int| 0 <= i < last@.bytes.len() implies last@.bytes[i] == padded_byte(
            rest.slice,
            i,
        ) by {
            assert(key[m + i] == last@.bytes[i]);
            lemma_key_padded(rest, i);
        }
    }
}

impl<'k> Cursor<'k> {
    /// Well-formedness: the lengths fit, and a kept path accounts for every
    /// key byte consumed.
    pub closed spec fn wf(self) -> bool {
        &&& self.reader.spec_slice().len() < UNBOUNDED
        &&& self.len@ + self.reader.key().len() <= UNBOUNDED
        &&& !self.retain ==> self.path@.len() == 0
        &&& self.retain ==> self.len@ == consumed(self@.path)
        &&& forall|i: int|
            0 <= i < self.path@.len() ==> {
                &&& (#[trigger] self.path@[i]).reader.spec_slice().len() < UNBOUNDED
                &&& consumed(self@.path.take(i)) + self.path@[i].reader.key().len() <= UNBOUNDED
            }
    }

    /// What well-formedness promises of the view: a kept path accounts for
    /// every key byte consumed, and what is consumed and what is left of
    /// the key fit together in an unbounded length.
    pub proof fn law_consumed(&self)
        requires
            self.wf(),
        ensures
            self@.retain ==> self@.len == consumed(self@.path),
            !self@.retain ==> self@.path.len() == 0,
            self@.len + self@.reader.key().len() <= UNBOUNDED,
    {
    }

    /// A cursor at the edge at address `root`, with nothing consumed of
    /// the key `reader`, keeping its path if `retain`.
    pub fn new(root: usize, reader: Reader<'k, bool>, retain: bool) -> (r: Self)
        requires
            reader.spec_slice().len() < UNBOUNDED,
        ensures
            r.wf(),
            r@ == (CursorView {
                len: 0,
                reader: reader_view(reader),
                edge: root,
                path: Seq::empty(),
                retain,
            }),
    {
        let r = Cursor { len: Byte::zero(), reader, edge: root, path: Vec::new(), retain };
        assert(r@.path =~= Seq::<SegmentView>::empty());
        r
    }

    /// Key bytes consumed to reach the current edge.
    pub fn len(&self) -> (r: Byte<UNBOUNDED>)
        ensures
            r@ == self@.len,
    {
        self.len
    }

    /// Address of the current edge.
    pub fn edge(&self) -> (r: usize)
        ensures
            r == self@.edge,
    {
        self.edge
    }

    /// Number of key bytes left to read.
    pub fn remaining(&self) -> (r: Byte<UNBOUNDED>)
        requires
            self.wf(),
        ensures
            r@ == self@.reader.key().len(),
    {
        self.reader.len()
    }

    /// Move along the edge matched over `len` bits and through `node` to
    /// the edge at address `edge`, recording the step if the path is kept.
    pub fn push(&mut self, len: Bit<56>, node: u64, edge: usize)
        requires
            old(self).wf(),
            1 + len@ / 8 <= old(self)@.reader.key().len(),
        ensures
            final(self).wf(),
            final(self)@ == push_view(old(self)@, len@, node, edge),
    {
        let ghost before = self@;
        let delta = Byte::<UNBOUNDED>::byte().add(Byte::new(len.bytes()));
        if self.retain {
            self.path.push(Segment { reader: self.reader, edge: self.edge, len, node });
        }
        self.len = self.len.add(delta);
        self.reader = self.reader.suffix(delta);
        self.edge = edge;
        proof {
            let after = self@;
            if before.retain {
                assert(after.path =~= before.path.push(
                    SegmentView { reader: before.reader, edge: before.edge, len: len@, node },
                ));
                assert(after.path.drop_last() =~= before.path);
                assert forall|i: int| 0 <= i < self.path@.len() implies {
                    &&& (#[trigger] self.path@[i]).reader.spec_slice().len() < UNBOUNDED
                    &&& consumed(self@.path.take(i)) + self.path@[i].reader.key().len() <= UNBOUNDED
                } by {
                    if i < before.path.len() {
                        assert(after.path.take(i) =~= before.path.take(i));
                    } else {
                        assert(after.path.take(i) =~= before.path);
                    }
                }
            } else {
                assert(after.path =~= Seq::<SegmentView>::empty());
            }
        }
    }

    /// Move along the edge matched over `len` bits to the edge at address
    /// `edge` without recording the step or counting the bytes: for
    /// lookups, which never move back up.
    pub fn skip(&mut self, len: Bit<56>, edge: usize)
        requires
            old(self).wf(),
            !old(self)@.retain,
            1 + len@ / 8 <= old(self)@.reader.key().len(),
        ensures
            final(self).wf(),
            final(self)@ == (CursorView {
                reader: old(self)@.reader.suffix(1 + len@ / 8),
                edge,
                ..old(self)@
            }),
    {
        let delta = Byte::<UNBOUNDED>::byte().add(Byte::new(len.bytes()));
        self.reader = self.reader.suffix(delta);
        self.edge = edge;
    }

    /// Cut the last `len` bytes off the rest of the key and off the key of
    /// every kept path segment.
    pub fn trim(&mut self, len: Byte<UNBOUNDED>)
        requires
            old(self).wf(),
            len@ <= old(self)@.reader.key().len(),
            forall|i: int|
                0 <= i < old(self)@.path.len() ==> len@ <= #[trigger] old(
                    self,
                )@.path[i].reader.key().len(),
        ensures
            final(self).wf(),
            final(self)@ == (CursorView {
                reader: old(self)@.reader.prefix((old(self)@.reader.key().len() - len@) as nat),
                path: old(self)@.path.map_values(|s: SegmentView| trim_segment(s, len@)),
                ..old(self)@
            }),
    {
        let ghost before = self@;
        let n = self.path.len();
        let mut i: usize = 0;
        proof {
            assert forall|j: int| 0 <= j < n implies (#[trigger] old(self).path@[j]).reader.spec_slice().len()
                < UNBOUNDED by {
                assert(old(self).path@[j] == self.path@[j]);
            }
        }
        while i < n
            invariant
                i <= n,
                n == self.path@.len(),
                n == before.path.len(),
                n == old(self).path@.len(),
                self.len == old(self).len,
                self.reader == old(self).reader,
                self.edge == old(self).edge,
                self.retain == old(self).retain,
                before == old(self)@,
                forall|j: int|
                    0 <= j < n ==> (#[trigger] old(self).path@[j]).reader.spec_slice().len() < UNBOUNDED,
                forall|j: int|
                    0 <= j < before.path.len() ==> len@ <= #[trigger] before.path[j].reader.key().len(),
                forall|j: int| 0 <= j < i ==> #[trigger] self.path@[j]@ == trim_segment(before.path[j], len@),
                forall|j: int| i <= j < n ==> #[trigger] self.path@[j] == old(self).path@[j],
            decreases n - i,
        {
            let seg = self.path[i];
            proof {
                assert(seg == old(self).path@[i as int]);
                assert(before.path[i as int] == old(self).path@[i as int]@);
                assert(len@ <= before.path[i as int].reader.key().len());
            }
            let trimmed = trim_one(seg, len);
            self.path.set(i, trimmed);
            i = i + 1;
        }
        let reader = self.reader.prefix(self.reader.len().sub(len));
        self.reader = reader;
        proof {
            let after = self@;
            let want = before.path.map_values(|s: SegmentView| trim_segment(s, len@));
            assert(after.path =~= want);
            lemma_consumed_lens(after.path, before.path);
            assert forall|j: int| 0 <= j < self.path@.len() implies {
                &&& (#[trigger] self.path@[j]).reader.spec_slice().len() < UNBOUNDED
                &&& consumed(self@.path.take(j)) + self.path@[j].reader.key().len() <= UNBOUNDED
            } by {
                lemma_consumed_lens(after.path.take(j), before.path.take(j));
                assert(self.path@[j]@ == trim_segment(before.path[j], len@));
            }
        }
    }

    /// Decision of a lookup (of a value or of its edge) at the loaded edge
    /// `edge`. Where the key ends at a node, which the prefix property of
    /// keys rules out, the key is reported missing.
    pub fn get_step(&self, edge: Edge<Le>) -> (r: Step)
        ensures
            get_step_spec(r, self@.reader, edge@.meta.bytes, edge@.meta.value, edge@.child),
    {
        let len = match self.reader.match_exact(edge.meta()) {
            Some(len) => len,
            None => return Step::Missing,
        };
        match edge.child() {
            None => Step::Missing,
            Some(Child::Value(value)) => Step::Found(value),
            Some(Child::Node(node)) => match self.reader.get_byte(len.bytes()) {
                Some(byte) => Step::Descend(byte, len, node),
                None => Step::Missing,
            },
        }
    }

    /// Decision of a search for the subtree of keys that start with the
    /// reader's key, at the loaded edge `edge`.
    pub fn prefix_step(&self, edge: Edge<Le>) -> (r: PrefixStep)
        requires
            self.wf(),
        ensures
            prefix_step_spec(
                r,
                self@.reader,
                edge@.meta.bytes,
                edge@.meta.value,
                edge@.child,
                word_match_len((edge.word() >> 64u128) as u64, self@.reader.slice),
            ),
            (edge@.meta.value || edge@.child != 0) && self@.reader.key().len()
                <= edge@.meta.bytes.len() && (forall|i: int|
                0 <= i < self@.reader.key().len() ==> edge@.meta.bytes[i] == self@.reader.key()[i])
                ==> r is Found,
    {
        let child = match edge.child() {
            Some(child) => child,
            None => return PrefixStep::Missing,
        };
        let word = edge.meta_word();
        let meta = Le::from_raw_unchecked(word);
        let len_edge = meta.len();
        let len_prefix = self.reader.match_prefix(meta);
        if len_prefix.bytes() >= len_edge.bytes() {
            if let Child::Node(node) = child {
                if let Some(byte) = self.reader.get_byte(len_edge.bytes()) {
                    return PrefixStep::Descend(byte, len_edge, node);
                }
            }
        }
        let r = if len_prefix.bytes() < self.reader.len().bytes() {
            PrefixStep::Missing
        } else {
            PrefixStep::Found
        };
        proof {
            if self@.reader.key().len() <= edge@.meta.bytes.len() && (forall|i: int|
                0 <= i < self@.reader.key().len() ==> edge@.meta.bytes[i] == self@.reader.key()[i]) {
                assert(prefix_step_spec(
                    r,
                    self@.reader,
                    le_view(word).bytes,
                    le_view(word).value,
                    edge@.child,
                    word_match_len(word, self@.reader.slice),
                ));
                law_prefix_found(r, self@.reader, word, edge@.child);
            }
        }
        r
    }

    /// Decision of a search for the node at the end of the reader's key,
    /// at the loaded edge `edge`. The prefix property of keys rules out a
    /// matching edge that holds a value.
    pub fn node_step(&self, edge: Edge<Le>) -> (r: NodeStep)
        requires
            self.wf(),
            !(matches(self@.reader.slice, edge@.meta.bytes) && edge@.meta.value),
        ensures
            node_step_spec(r, self@.reader, edge@.meta.bytes, edge@.child),
    {
        let len = match self.reader.match_exact(edge.meta()) {
            Some(len) => len,
            None => return NodeStep::Missing(self.reader.len()),
        };
        match edge.child() {
            Some(Child::Node(node)) => match self.reader.get_byte(len.bytes()) {
                None => NodeStep::Found(len),
                Some(byte) => NodeStep::Descend(byte, len, node),
            },
            _ => NodeStep::Missing(self.reader.len()),
        }
    }

    /// Decision of an insertion of the reader's key at the loaded edge
    /// `edge`. Where the key ends at a node, which the prefix property of
    /// keys rules out, the insertion happens at the edge.
    pub fn insert_step(&self, edge: Edge<Le>) -> (r: InsertStep)
        ensures
            insert_step_spec(r, self@.reader, edge@.meta.bytes, edge@.meta.value, edge@.child),
    {
        let child = match edge.child() {
            Some(child) => child,
            None => return InsertStep::Value(None),
        };
        let len = match self.reader.match_exact(edge.meta()) {
            Some(len) => len,
            None => return InsertStep::Value(None),
        };
        match child {
            Child::Node(node) => match self.reader.get_byte(len.bytes()) {
                Some(byte) => InsertStep::Descend(byte, len, node),
                None => InsertStep::Value(None),
            },
            Child::Value(value) => InsertStep::Value(Some(value)),
        }
    }

    /// Decision of how the path that inserts the reader's key attaches at
    /// an edge of metadata `meta`. Where the key ends inside the edge, which
    /// the prefix property of keys rules out, the path takes the edge's
    /// place.
    pub fn create_step(&self, meta: Le) -> (r: CreateStep)
        ensures
            create_step_spec(
                r,
                self@.reader,
                meta@,
                word_match_len(meta.into_raw_spec(), self@.reader.slice),
            ),
    {
        let len = self.reader.match_prefix(meta);
        let bits = Bit::<56>::from_byte(len);
        let edge_len = meta.len().into_u8();
        proof {
            let m = len@;
            assert(m <= 8);
            assert(meta@.bytes.len() <= 7);
            assert(masked(bits@ as u8) == 8 * (if m <= 7 { m } else { 7 })) by {
                if m == 0 {} else if m == 1 {} else if m == 2 {} else if m == 3 {}
                else if m == 4 {} else if m == 5 {} else if m == 6 {} else {}
            }
        }
        match meta.try_expand(bits) {
            None => CreateStep::Path,
            Some((parent, old_byte, child)) => match self.reader.get_byte(len.bytes()) {
                Some(new_byte) => CreateStep::Expand(parent, old_byte, child, new_byte, len.bytes()),
                None => CreateStep::Path,
            },
        }
    }

    /// Next action of a freeze that expects the edge the cursor stands on
    /// to lead over `*old_len` bits to `*old_node`, after the last action
    /// reported `event`. At a frozen edge the cursor moves up its path and
    /// the expectation becomes the popped segment; an edge that still
    /// leads to the node has it replaced; a shorter edge means traverse
    /// again; anything else means someone else replaced or removed it.
    pub fn freeze_next(&mut self, old_len: &mut Bit<56>, old_node: &mut u64, event: FreezeEvent) -> (r: FreezeAction)
        requires
            old(self).wf(),
        ensures
            final(self).wf(),
            match event {
                FreezeEvent::Exchanged(won, allocated) => {
                    &&& final(self)@ == old(self)@
                    &&& *final(old_len) == *old(old_len)
                    &&& *final(old_node) == *old(old_node)
                    &&& r == if won {
                        FreezeAction::Success(Some(*old(old_node)))
                    } else {
                        FreezeAction::Discard(allocated)
                    }
                },
                FreezeEvent::Loaded(edge) => match freeze_step_spec(edge@, old(old_len)@, *old(old_node)) {
                    FreezeStep::Pop => {
                        &&& !old(self)@.retain ==> r == FreezeAction::Failed && final(self)@ == old(self)@
                        &&& old(self)@.retain ==> final(self)@ == pop_view(old(self)@).1 && match pop_view(
                            old(self)@,
                        ).0 {
                            None => r == FreezeAction::RootFrozen,
                            Some((len, node)) => r == FreezeAction::Load && final(old_len)@ == len
                                && *final(old_node) == node,
                        }
                    },
                    step => {
                        &&& final(self)@ == old(self)@
                        &&& *final(old_len) == *old(old_len)
                        &&& *final(old_node) == *old(old_node)
                        &&& r == match step {
                            FreezeStep::Replace => FreezeAction::Replace(*old(old_node)),
                            FreezeStep::Traverse => FreezeAction::Traverse,
                            _ => FreezeAction::Success(None),
                        }
                    },
                },
            },
    {
        match event {
            FreezeEvent::Exchanged(won, allocated) => {
                if won {
                    FreezeAction::Success(Some(*old_node))
                } else {
                    FreezeAction::Discard(allocated)
                }
            },
            FreezeEvent::Loaded(edge) => match freeze_step(edge, *old_len, *old_node) {
                FreezeStep::Pop => match self.pop() {
                    Err(()) => FreezeAction::Failed,
                    Ok(None) => FreezeAction::RootFrozen,
                    Ok(Some((len, node))) => {
                        *old_len = len;
                        *old_node = node;
                        FreezeAction::Load
                    },
                },
                FreezeStep::Replace => FreezeAction::Replace(*old_node),
                FreezeStep::Traverse => FreezeAction::Traverse,
                FreezeStep::Done => FreezeAction::Success(None),
            },
        }
    }


    /// Move back up the last segment of the path: its length and node, or
    /// `None` at the root; an error if the path is not kept.
    pub fn pop(&mut self) -> (r: Result<Option<(Bit<56>, u64)>, ()>)
        requires
            old(self).wf(),
        ensures
            final(self).wf(),
            !old(self)@.retain ==> r is Err && final(self)@ == old(self)@,
            old(self)@.retain ==> r is Ok && final(self)@ == pop_view(old(self)@).1 && match (
                r,
                pop_view(old(self)@).0,
            ) {
                (Ok(Some((len, node))), Some((l, n))) => len@ == l && node == n,
                (Ok(None), None) => true,
                _ => false,
            },
    {
        if !self.retain {
            return Err(());
        }
        let ghost before = self@;
        match self.path.pop() {
            None => {
                assert(self@ == before);
                Ok(None)
            },
            Some(seg) => {
                proof {
                    assert(before.path.last() == seg@);
                    assert(before.path.drop_last() =~= self@.path);
                    let n = before.path.len() - 1;
                    assert(before.path.take(n) =~= before.path.drop_last());
                }
                let delta = Byte::<UNBOUNDED>::byte().add(Byte::new(seg.len.bytes()));
                self.len = self.len.sub(delta);
                self.reader = seg.reader;
                self.edge = seg.edge;
                proof {
                    assert forall|i: int| 0 <= i < self.path@.len() implies {
                        &&& (#[trigger] self.path@[i]).reader.spec_slice().len() < UNBOUNDED
                        &&& consumed(self@.path.take(i)) + self.path@[i].reader.key().len()
                            <= UNBOUNDED
                    } by {
                        assert(self@.path.take(i) =~= before.path.take(i));
                        assert(self.path@[i]@ == before.path[i]);
                    }
                }
                Ok(Some((seg.len, seg.node)))
            },
        }
    }
}

} // verus!
