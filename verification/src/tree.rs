//! A simplified single-threaded model of the tree: every node is owned by
//! the edge above it and holds its key bytes and edges as plain lists (one
//! node kind, no growth or replacement), over the same compressed edge
//! metadata as the shared tree. Lookups, insertions, removals and ordered
//! scans of non-null keys, each key stored with its terminating null byte,
//! and the map laws they obey.

use vstd::prelude::*;
use vstd::slice::slice_subrange;
use vstd::slice::slice_to_vec;

use crate::edge::Le;
use crate::key::find_position;
use crate::key::lemma_position;
use crate::key::non_null::NonNullSlice;
use crate::key::position;
use crate::key::read_u64;
use crate::len::Bit;

verus! {

/// What an edge leads to.
pub enum Below {
    /// Nothing: the null edge.
    Empty,
    /// A value.
    Value(u64),
    /// A node.
    Node(Box<Inner>),
}

/// An edge: its key bytes, and what it leads to.
pub struct Branch {
    pub meta: Le,
    pub below: Below,
}

/// A node: its key bytes, and the edge under each of them, slot by slot.
pub struct Inner {
    pub keys: Vec<u8>,
    pub branches: Vec<Branch>,
}

/// Whether `a` is a proper prefix of `b`.
pub open spec fn proper_prefix(a: Seq<u8>, b: Seq<u8>) -> bool {
    a.len() < b.len() && b.take(a.len() as int) == a
}

/// The value that `b` holds for `key`, the key bytes from `b`'s edge on.
pub open spec fn lookup(b: Branch, key: Seq<u8>) -> Option<u64>
    decreases key.len(), 1int,
{
    let bytes = b.meta@.bytes;
    if bytes.len() <= key.len() && key.take(bytes.len() as int) == bytes {
        lookup_below(b.below, key.skip(bytes.len() as int))
    } else {
        None
    }
}

/// The value that `below` holds for `rest`, the key bytes past the edge.
pub open spec fn lookup_below(below: Below, rest: Seq<u8>) -> Option<u64>
    decreases rest.len(), 0int,
{
    match below {
        Below::Empty => None,
        Below::Value(v) => if rest.len() == 0 {
            Some(v)
        } else {
            None
        },
        Below::Node(n) => if rest.len() > 0 {
            match position(n.keys@, rest[0]) {
                Some(i) => if i < n.branches@.len() {
                    lookup(n.branches@[i as int], rest.drop_first())
                } else {
                    None
                },
                None => None,
            }
        } else {
            None
        },
    }
}

/// Well-formedness of an edge that is not null: a node below it has as
/// many slots as key bytes, at least one, its key bytes are distinct, and
/// every edge under it is well formed.
pub open spec fn wf(b: Branch) -> bool
    decreases b,
{
    match b.below {
        Below::Empty => false,
        Below::Value(_) => true,
        Below::Node(n) => {
            &&& n.keys@.len() == n.branches@.len()
            &&& n.keys@.len() >= 1
            &&& n.keys@.no_duplicates()
            &&& wf_all(n.branches@)
        },
    }
}

/// Every edge of `bs` is well formed.
pub open spec fn wf_all(bs: Seq<Branch>) -> bool
    decreases bs,
{
    if bs.len() == 0 {
        true
    } else {
        wf(bs.last()) && wf_all(bs.drop_last())
    }
}

/// `wf_all` holds exactly when every edge is well formed.
pub proof fn lemma_wf_all(bs: Seq<Branch>)
    ensures
        wf_all(bs) <==> forall|i: int| 0 <= i < bs.len() ==> #[trigger] wf(bs[i]),
    decreases bs.len(),
{
    if bs.len() > 0 {
        lemma_wf_all(bs.drop_last());
        if forall|i: int| 0 <= i < bs.len() ==> #[trigger] wf(bs[i]) {
            assert forall|i: int| 0 <= i < bs.drop_last().len() implies #[trigger] wf(
                bs.drop_last()[i],
            ) by {
                assert(bs.drop_last()[i] == bs[i]);
            }
            assert(wf(bs[bs.len() - 1]));
            assert(wf_all(bs));
        }
        if wf_all(bs) {
            assert forall|i: int| 0 <= i < bs.len() implies #[trigger] wf(bs[i]) by {
                if i < bs.len() - 1 {
                    assert(bs.drop_last()[i] == bs[i]);
                }
            }
        }
    }
}

/// A well-formed edge holds some key, which its bytes start; beyond them
/// if a node lies below.
pub proof fn lemma_witness(b: Branch) -> (k: Seq<u8>)
    requires
        wf(b),
    ensures
        lookup(b, k) is Some,
        b.meta@.bytes.len() <= k.len(),
        k.take(b.meta@.bytes.len() as int) == b.meta@.bytes,
        b.below is Node ==> b.meta@.bytes.len() < k.len(),
    decreases b,
{
    let bytes = b.meta@.bytes;
    match b.below {
        Below::Value(_) => {
            assert(bytes.take(bytes.len() as int) =~= bytes);
            assert(bytes.skip(bytes.len() as int) =~= Seq::<u8>::empty());
            bytes
        },
        Below::Node(n) => {
            let c = n.keys@[0];
            lemma_wf_all(n.branches@);
            assert(wf(n.branches@[0]));
            let w = lemma_witness(n.branches@[0]);
            let rest = seq![c] + w;
            let k = bytes + rest;
            assert(k.take(bytes.len() as int) =~= bytes);
            assert(k.skip(bytes.len() as int) =~= rest);
            assert(rest.drop_first() =~= w);
            assert(position(n.keys@, c) == Some(0nat));
            k
        },
        Below::Empty => {
            Seq::empty()
        },
    }
}

/// The edge metadata holding the first `n` bytes of `s`.
fn meta_of(s: &[u8], n: usize) -> (r: Le)
    requires
        n <= 7,
        n <= s@.len(),
    ensures
        r@.bytes == s@.take(n as int),
{
    let word = read_u64(s);
    let r = Le::new(word, Bit::new_unchecked((n * 8) as u8));
    proof {
        assert forall|i: int| 0 <= i < n implies r@.bytes[i] == s@[i] by {
            assert(crate::raw::le_byte(word, i as nat) == crate::key::padded_byte(s@, i));
        }
        assert(r@.bytes =~= s@.take(n as int));
    }
    r
}

/// A new path for the key bytes `s` and the value `value`: an edge of the
/// first seven bytes over a node that leads, by the next byte, to the path
/// for the rest, or (for at most seven bytes) an edge over the value.
pub fn new_path(s: &[u8], value: u64) -> (r: Branch)
    ensures
        wf(r),
        forall|k: Seq<u8>| #[trigger] lookup(r, k) == if k == s@ {
            Some(value)
        } else {
            None
        },
    decreases s@.len(),
{
    if s.len() <= 7 {
        let meta = meta_of(s, s.len());
        let r = Branch { meta, below: Below::Value(value) };
        proof {
            assert(s@.take(s@.len() as int) =~= s@);
            assert forall|k: Seq<u8>| #[trigger] lookup(r, k) == if k == s@ {
                Some(value)
            } else {
                None
            } by {
                if k.len() >= s@.len() && k.take(s@.len() as int) == s@ {
                    if k.len() == s@.len() {
                        assert(k =~= s@);
                    } else {
                        assert(k != s@);
                    }
                }
            }
        }
        r
    } else {
        let meta = meta_of(s, 7);
        let c = s[7];
        let rest = slice_subrange(s, 8, s.len());
        let child = new_path(rest, value);
        let mut keys: Vec<u8> = Vec::new();
        keys.push(c);
        let mut branches: Vec<Branch> = Vec::new();
        branches.push(child);
        let ghost child_v = child;
        let ghost keys_v = keys@;
        let ghost branches_v = branches@;
        let r = Branch { meta, below: Below::Node(Box::new(Inner { keys, branches })) };
        proof {
            lemma_wf_all(seq![child_v]);
            assert(keys_v =~= seq![c]);
            assert(branches_v =~= seq![child_v]);
            assert(wf_all(branches_v));
            lemma_position(keys_v, c);
            assert forall|k: Seq<u8>| #[trigger] lookup(r, k) == if k == s@ {
                Some(value)
            } else {
                None
            } by {
                let head = s@.take(7);
                assert(r.meta@.bytes == head);
                if k.len() >= 7 && k.take(7) == head {
                    let tail = k.skip(7);
                    assert(lookup(r, k) == lookup_below(r.below, tail));
                    if tail.len() > 0 {
                        lemma_position(keys_v, tail[0]);
                        if tail[0] == c {
                            assert(position(keys_v, tail[0]) == Some(0nat));
                            assert(tail.drop_first() =~= k.skip(8));
                            assert(lookup(r, k) == lookup(child_v, k.skip(8)));
                            if k.skip(8) == rest@ {
                                assert forall|i: int| 0 <= i < k.len() implies k[i] == s@[i] by {
                                    if i < 7 {
                                        assert(k.take(7)[i] == k[i]);
                                    } else if i == 7 {
                                        assert(tail[0] == k[7]);
                                    } else {
                                        assert(k.skip(8)[i - 8] == k[i]);
                                    }
                                }
                                assert(k =~= s@);
                            } else {
                                assert(k != s@) by {
                                    if k == s@ {
                                        assert(k.skip(8) =~= rest@);
                                    }
                                }
                            }
                        } else {
                            assert(position(keys_v, tail[0]) is None);
                            assert(k != s@) by {
                                if k == s@ {
                                    assert(tail[0] == s@[7]);
                                }
                            }
                        }
                    } else {
                        assert(k != s@);
                    }
                } else {
                    assert(k != s@) by {
                        if k == s@ {
                            assert(k.take(7) =~= head);
                        }
                    }
                }
            }
        }
        r
    }
}

/// Whether `bytes` are the first bytes of `s`.
fn starts_with(s: &[u8], bytes: &Vec<u8>) -> (r: bool)
    requires
        bytes@.len() <= s@.len(),
    ensures
        r == (s@.take(bytes@.len() as int) == bytes@),
{
    let mut i: usize = 0;
    while i < bytes.len()
        invariant
            i <= bytes@.len() <= s@.len(),
            forall|j: int| 0 <= j < i ==> s@[j] == bytes@[j],
        decreases bytes@.len() - i,
    {
        if s[i] != bytes[i] {
            assert(s@.take(bytes@.len() as int)[i as int] != bytes@[i as int]);
            return false;
        }
        i = i + 1;
    }
    assert(s@.take(bytes@.len() as int) =~= bytes@);
    true
}

/// The value that `root` holds for the key bytes `key`.
fn get_in(root: &Branch, key: &[u8]) -> (r: Option<u64>)
    ensures
        r == lookup(*root, key@),
{
    let mut b: &Branch = root;
    let mut s: &[u8] = key;
    loop
        invariant
            lookup(*b, s@) == lookup(*root, key@),
        decreases s@.len(),
    {
        let bytes = b.meta.into_iter();
        let n = bytes.len();
        if n > s.len() {
            return None;
        }
        if !starts_with(s, &bytes) {
            return None;
        }
        let ghost rest = s@.skip(n as int);
        assert(lookup(*b, s@) == lookup_below(b.below, rest));
        match &b.below {
            Below::Empty => {
                return None;
            },
            Below::Value(v) => {
                if s.len() == n {
                    return Some(*v);
                } else {
                    return None;
                }
            },
            Below::Node(inner) => {
                if s.len() == n {
                    return None;
                }
                let c = s[n];
                assert(rest[0] == c);
                match find_position(inner.keys.as_slice(), c) {
                    None => {
                        return None;
                    },
                    Some(i) => {
                        if i >= inner.branches.len() {
                            return None;
                        }
                        let next = slice_subrange(s, n + 1, s.len());
                        assert(next@ =~= rest.drop_first());
                        b = &inner.branches[i];
                        s = next;
                    },
                }
            },
        }
    }
}

/// Whether no key that `b` holds is a proper prefix of `s`, nor `s` of it.
pub open spec fn prefix_free_with(b: Branch, s: Seq<u8>) -> bool {
    forall|k: Seq<u8>|
        #[trigger] lookup(b, k) is Some ==> !proper_prefix(k, s) && !proper_prefix(s, k)
}

/// What `b` holds once `s` maps to `v`: `v` for `s`, and what `old` holds
/// for every other key.
pub open spec fn inserted(b: Branch, old: Branch, s: Seq<u8>, v: u64) -> bool {
    forall|k: Seq<u8>| #[trigger] lookup(b, k) == if k == s {
        Some(v)
    } else {
        lookup(old, k)
    }
}

proof fn lemma_masked_bytes(m: nat)
    requires
        m < 8,
    ensures
        crate::len::masked((8 * m) as u8) == 8 * m,
{
    if m == 0 {
    } else if m == 1 {
    } else if m == 2 {
    } else if m == 3 {
    } else if m == 4 {
    } else if m == 5 {
    } else if m == 6 {
    } else {
    }
}

/// What an expanded edge holds: the old edge's keys through the edge's
/// next byte, and `s` through the key's next byte.
proof fn lemma_expand_lookup(
    old_b: Branch,
    new_b: Branch,
    m: int,
    s: Seq<u8>,
    rest: Seq<u8>,
    v: u64,
    old_branch: Branch,
    fresh: Branch,
    k: Seq<u8>,
)
    requires
        0 <= m,
        m < old_b.meta@.bytes.len(),
        m < s.len(),
        s.take(m as int) == old_b.meta@.bytes.take(m as int),
        s[m as int] != old_b.meta@.bytes[m as int],
        rest == s.skip(m + 1),
        new_b.meta@.bytes == old_b.meta@.bytes.take(m as int),
        old_branch.meta@.bytes == old_b.meta@.bytes.skip(m + 1),
        old_branch.below == old_b.below,
        new_b.below matches Below::Node(n) && n.keys@ == seq![
            old_b.meta@.bytes[m as int],
            s[m as int],
        ] && n.branches@ == seq![old_branch, fresh],
        forall|j: Seq<u8>| #[trigger] lookup(fresh, j) == if j == rest {
            Some(v)
        } else {
            None
        },
    ensures
        lookup(new_b, k) == if k == s {
            Some(v)
        } else {
            lookup(old_b, k)
        },
{
    let bytes = old_b.meta@.bytes;
    let n = bytes.len();
    let ob = bytes[m as int];
    let nb = s[m as int];
    let keys = seq![ob, nb];
    assert(position(keys, ob) == Some(0nat));
    assert(position(keys, nb) == Some(1nat)) by {
        assert(keys.drop_first() =~= seq![nb]);
        assert(position(seq![nb], nb) == Some(0nat));
    }
    lemma_position(keys, ob);
    lemma_position(keys, nb);
    if m <= k.len() && k.take(m as int) == bytes.take(m as int) && k.len() > m {
        let tail = k.skip(m as int);
        let c = tail[0];
        lemma_position(keys, c);
        assert(c == k[m as int]);
        assert(tail.drop_first() =~= k.skip(m + 1));
        if c == ob {
            assert(lookup(new_b, k) == lookup(old_branch, k.skip(m + 1)));
            let q = k.skip(m + 1);
            let cb = bytes.skip(m + 1);
            // the old edge's bytes start `k` exactly when its rest starts `q`
            if n <= k.len() && k.take(n as int) == bytes {
                assert(q.take(cb.len() as int) =~= cb) by {
                    assert forall|i: int| 0 <= i < cb.len() implies q[i] == cb[i] by {
                        assert(k.take(n as int)[m + 1 + i] == k[m + 1 + i]);
                    }
                }
                assert(q.skip(cb.len() as int) =~= k.skip(n as int));
            } else {
                if cb.len() <= q.len() && q.take(cb.len() as int) == cb {
                    assert(k.take(n as int) =~= bytes) by {
                        assert forall|i: int| 0 <= i < n implies k[i] == bytes[i] by {
                            if i < m {
                                assert(k.take(m as int)[i] == bytes.take(m as int)[i]);
                            } else if i > m {
                                assert(q.take(cb.len() as int)[i - m - 1] == cb[i - m - 1]);
                            }
                        }
                    }
                }
            }
            assert(k != s);
        } else if c == nb {
            assert(lookup(new_b, k) == lookup(fresh, k.skip(m + 1)));
            if k.skip(m + 1) == rest {
                assert(k =~= s) by {
                    assert forall|i: int| 0 <= i < k.len() implies k[i] == s[i] by {
                        if i < m {
                            assert(k.take(m as int)[i] == s.take(m as int)[i]);
                        } else if i > m {
                            assert(k.skip(m + 1)[i - m - 1] == k[i]);
                        }
                    }
                }
            } else {
                assert(k != s);
            }
            assert(lookup(old_b, k) is None) by {
                if n <= k.len() && k.take(n as int) == bytes {
                    assert(k.take(n as int)[m as int] == k[m as int]);
                }
            }
        } else {
            assert(lookup(old_b, k) is None) by {
                if n <= k.len() && k.take(n as int) == bytes {
                    assert(k.take(n as int)[m as int] == k[m as int]);
                }
            }
            assert(k != s);
        }
    } else {
        assert(k != s) by {
            if k == s {
                assert(k.take(m as int) =~= s.take(m as int));
            }
        }
        assert(lookup(old_b, k) is None) by {
            if n <= k.len() && k.take(n as int) == bytes {
                assert(k.take(m as int) =~= bytes.take(m as int));
                if k.len() == m {
                    assert(false);
                }
            }
        }
    }
}

/// Split the edge `b`, whose key bytes `s` leaves after `m` bytes, into a
/// node under the first `m` bytes that leads by the edge's next byte to the
/// edge's rest and by the key's next byte to a new path for the rest of
/// `s`.
fn expand_at(b: &mut Branch, m: usize, s: &[u8], v: u64)
    requires
        wf(*old(b)),
        m < old(b).meta@.bytes.len(),
        m < s@.len(),
        s@.take(m as int) == old(b).meta@.bytes.take(m as int),
        s@[m as int] != old(b).meta@.bytes[m as int],
    ensures
        wf(*final(b)),
        inserted(*final(b), *old(b), s@, v),
        lookup(*old(b), s@) is None,
{
    let ghost old_b = *b;
    let ghost bytes = b.meta@.bytes;
    let edge_bits = b.meta.len().into_u8();
    proof {
        assert(bytes.len() <= 7);
        lemma_masked_bytes(m as nat);
    }
    let (parent, old_byte, child_meta) = match b.meta.try_expand(Bit::new_unchecked((8 * m) as u8)) {
        Some(t) => t,
        None => {
            assert(false);
            return;
        },
    };
    let new_byte = s[m];
    let rest = slice_subrange(s, m + 1, s.len());
    let fresh = new_path(rest, v);
    let mut old_below = Below::Empty;
    std::mem::swap(&mut old_below, &mut b.below);
    let old_branch = Branch { meta: child_meta, below: old_below };
    let mut keys: Vec<u8> = Vec::new();
    keys.push(old_byte);
    keys.push(new_byte);
    let mut branches: Vec<Branch> = Vec::new();
    let ghost old_branch_v = old_branch;
    let ghost fresh_v = fresh;
    branches.push(old_branch);
    branches.push(fresh);
    let ghost keys_v = keys@;
    let ghost branches_v = branches@;
    b.meta = parent;
    b.below = Below::Node(Box::new(Inner { keys, branches }));
    proof {
        let n = bytes.len();
        assert(parent@.bytes == bytes.take(m as int));
        assert(old_byte == bytes[m as int]);
        assert(child_meta@.bytes == bytes.skip(m + 1));
        assert(keys_v =~= seq![old_byte, new_byte]);
        assert(branches_v =~= seq![old_branch_v, fresh_v]);
        assert(wf(old_branch_v));
        lemma_wf_all(branches_v);
        assert(keys_v.no_duplicates());
        assert(position(keys_v, old_byte) == Some(0nat));
        assert(position(keys_v, new_byte) == Some(1nat)) by {
            assert(keys_v.drop_first() =~= seq![new_byte]);
            assert(position(seq![new_byte], new_byte) == Some(0nat));
        }
        assert forall|k: Seq<u8>| #[trigger] lookup(*b, k) == if k == s@ {
            Some(v)
        } else {
            lookup(old_b, k)
        } by {
            lemma_expand_lookup(old_b, *b, m as int, s@, rest@, v, old_branch_v, fresh_v, k);
        }
        assert(lookup(old_b, s@) is None) by {
            if bytes.len() <= s@.len() && s@.take(n as int) == bytes {
                assert(s@.take(n as int)[m as int] == s@[m as int]);
            }
        }
    }
}

/// Appending a byte leaves the positions of the others as they were, and
/// gives a byte not yet present the last position.
proof fn lemma_position_push(keys: Seq<u8>, x: u8, y: u8)
    ensures
        position(keys.push(x), y) == if position(keys, y) is Some {
            position(keys, y)
        } else if x == y {
            Some(keys.len())
        } else {
            None
        },
    decreases keys.len(),
{
    if keys.len() == 0 {
        assert(keys.push(x) =~= seq![x]);
        assert(position(seq![x], y) == if x == y {
            Some(0nat)
        } else {
            None
        }) by {
            assert(seq![x].drop_first() =~= Seq::<u8>::empty());
        }
    } else {
        assert(keys.push(x).drop_first() =~= keys.drop_first().push(x));
        lemma_position_push(keys.drop_first(), x, y);
    }
}

/// A common prefix changes nothing about which is a proper prefix.
proof fn lemma_prefix_concat(p: Seq<u8>, a: Seq<u8>, b: Seq<u8>)
    ensures
        proper_prefix(p + a, p + b) == proper_prefix(a, b),
{
    if proper_prefix(a, b) {
        assert((p + b).take((p + a).len() as int) =~= p + a) by {
            assert forall|i: int| p.len() <= i < (p + a).len() implies (p + b)[i] == (p + a)[i] by {
                assert(b.take(a.len() as int)[i - p.len()] == b[i - p.len()]);
            }
        }
    }
    if proper_prefix(p + a, p + b) {
        assert(b.take(a.len() as int) =~= a) by {
            assert forall|i: int| 0 <= i < a.len() implies b[i] == a[i] by {
                assert((p + b).take((p + a).len() as int)[i + p.len()] == (p + b)[i + p.len()]);
            }
        }
    }
}

/// A key through a node's slot is the edge's bytes, the slot's key byte,
/// and a key of the edge in the slot.
proof fn lemma_split_key(bytes: Seq<u8>, c: u8, k: Seq<u8>)
    requires
        bytes.len() < k.len(),
        k.take(bytes.len() as int) == bytes,
        k[bytes.len() as int] == c,
    ensures
        k == bytes + seq![c] + k.skip(bytes.len() as int + 1),
{
    assert forall|i: int| 0 <= i < k.len() implies k[i] == (bytes + seq![c] + k.skip(
        bytes.len() as int + 1,
    ))[i] by {
        if i < bytes.len() {
            assert(k.take(bytes.len() as int)[i] == k[i]);
        }
    }
    assert(k =~= bytes + seq![c] + k.skip(bytes.len() as int + 1));
}

/// Map `s` to `v` under `b` (a null edge, or a well-formed one), where no
/// key held under `b` is a proper prefix of `s` or has `s` as one; returns
/// the value that `s` mapped to before, if any.
fn insert_in(b: &mut Branch, s: &[u8], v: u64) -> (r: Option<u64>)
    requires
        old(b).below is Empty || wf(*old(b)),
        prefix_free_with(*old(b), s@),
    ensures
        wf(*final(b)),
        inserted(*final(b), *old(b), s@, v),
        r == lookup(*old(b), s@),
    decreases s@.len(),
{
    let ghost old_b = *b;
    if let Below::Empty = b.below {
        *b = new_path(s, v);
        return None;
    }
    let bytes = b.meta.into_iter();
    let n = bytes.len();
    let mut m: usize = 0;
    while m < n && m < s.len() && bytes[m] == s[m]
        invariant
            m <= n,
            m <= s@.len(),
            n == bytes@.len(),
            s@.take(m as int) =~= bytes@.take(m as int),
        decreases n - m,
    {
        assert(s@.take(m + 1) =~= s@.take(m as int).push(s@[m as int]));
        assert(bytes@.take(m + 1) =~= bytes@.take(m as int).push(bytes@[m as int]));
        m = m + 1;
    }
    if m < n {
        if m == s.len() {
            proof {
                let k = lemma_witness(old_b);
                assert(k.take(s@.len() as int) =~= s@) by {
                    assert forall|i: int| 0 <= i < s@.len() implies k[i] == s@[i] by {
                        assert(k.take(n as int)[i] == k[i]);
                        assert(s@.take(m as int)[i] == s@[i]);
                        assert(bytes@.take(m as int)[i] == bytes@[i]);
                    }
                }
                assert(proper_prefix(s@, k));
                assert(false);
            }
            return None;
        }
        expand_at(b, m, s, v);
        return None;
    }
    assert(s@.take(n as int) =~= bytes@);
    let mut below = Below::Empty;
    std::mem::swap(&mut below, &mut b.below);
    match below {
        Below::Value(w) => {
            if s.len() == n {
                b.below = Below::Value(v);
                proof {
                    assert(s@ =~= bytes@);
                    assert(bytes@.take(n as int) =~= bytes@);
                    assert forall|k: Seq<u8>| #[trigger] lookup(*b, k) == if k == s@ {
                        Some(v)
                    } else {
                        lookup(old_b, k)
                    } by {
                        if n <= k.len() && k.take(n as int) == bytes@ && k.len() == n {
                            assert(k =~= s@);
                        }
                    }
                }
                return Some(w);
            }
            b.below = Below::Value(w);
            proof {
                assert(bytes@.take(n as int) =~= bytes@);
                assert(bytes@.skip(n as int) =~= Seq::<u8>::empty());
                assert(lookup(old_b, bytes@) is Some);
                assert(proper_prefix(bytes@, s@));
                assert(false);
            }
            None
        },
        Below::Node(inner) => {
            if s.len() == n {
                b.below = Below::Node(inner);
                proof {
                    let k = lemma_witness(old_b);
                    assert(s@ =~= bytes@);
                    assert(proper_prefix(s@, k));
                    assert(false);
                }
                return None;
            }
            let c = s[n];
            let rest = slice_subrange(s, n + 1, s.len());
            let mut node = *inner;
            let ghost keys0 = node.keys@;
            let ghost branches0 = node.branches@;
            proof {
                lemma_split_key(bytes@, c, s@);
                assert(rest@ =~= s@.skip(n + 1));
                lemma_wf_all(branches0);
                lemma_position(keys0, c);
            }
            match find_position(node.keys.as_slice(), c) {
                Some(i) => {
                    let ghost child0 = branches0[i as int];
                    proof {
                        assert forall|k: Seq<u8>| #[trigger] lookup(child0, k) is Some implies !proper_prefix(
                            k,
                            rest@,
                        ) && !proper_prefix(rest@, k) by {
                            let full = bytes@ + seq![c] + k;
                            assert(full.take(n as int) =~= bytes@);
                            assert(full.skip(n as int) =~= seq![c] + k);
                            assert((seq![c] + k)[0] == c);
                            assert((seq![c] + k).drop_first() =~= k);
                            assert(lookup(old_b, full) == lookup(child0, k));
                            lemma_prefix_concat(bytes@ + seq![c], k, rest@);
                            lemma_prefix_concat(bytes@ + seq![c], rest@, k);
                        }
                        assert(wf(child0));
                    }
                    let r = insert_in(&mut node.branches[i], rest, v);
                    let ghost child1 = node.branches@[i as int];
                    let ghost branches1 = node.branches@;
                    b.below = Below::Node(Box::new(node));
                    proof {
                        assert(branches1 == branches0.update(i as int, child1));
                        lemma_wf_all(branches1);
                        assert forall|j: int| 0 <= j < branches1.len() implies #[trigger] wf(
                            branches1[j],
                        ) by {
                            if j != i {
                                assert(branches1[j] == branches0[j]);
                            }
                        }
                        assert(wf(*b));
                        let full = bytes@ + seq![c] + rest@;
                        assert(full.skip(n as int).drop_first() =~= rest@);
                        assert(r == lookup(old_b, s@));
                        assert forall|k: Seq<u8>| #[trigger] lookup(*b, k) == if k == s@ {
                            Some(v)
                        } else {
                            lookup(old_b, k)
                        } by {
                            if n <= k.len() && k.take(n as int) == bytes@ && k.len() > n {
                                let tail = k.skip(n as int);
                                assert(tail[0] == k[n as int]);
                                assert(tail.drop_first() =~= k.skip(n + 1));
                                lemma_position(keys0, tail[0]);
                                assert(lookup(*b, k) == lookup_below(b.below, tail));
                                assert(lookup(old_b, k) == lookup_below(old_b.below, tail));
                                if tail[0] == c {
                                    assert(position(keys0, c) == Some(i as nat));
                                    assert(lookup(*b, k) == lookup(child1, k.skip(n + 1)));
                                    assert(lookup(old_b, k) == lookup(child0, k.skip(n + 1)));
                                    lemma_split_key(bytes@, c, k);
                                    if k.skip(n + 1) == rest@ {
                                        assert(k == s@);
                                    } else {
                                        assert(k != s@);
                                    }
                                } else {
                                    assert(k != s@);
                                    match position(keys0, tail[0]) {
                                        Some(j) => {
                                            assert(keys0[j as int] != c);
                                            assert(j != i);
                                            assert(branches1[j as int] == branches0[j as int]);
                                        },
                                        None => {},
                                    }
                                }
                            } else {
                                assert(k != s@) by {
                                    if k == s@ {
                                        assert(k.take(n as int) == bytes@);
                                    }
                                }
                            }
                        }
                    }
                    r
                },
                None => {
                    let fresh = new_path(rest, v);
                    let ghost fresh_v = fresh;
                    node.keys.push(c);
                    node.branches.push(fresh);
                    let ghost keys1 = node.keys@;
                    let ghost branches1 = node.branches@;
                    b.below = Below::Node(Box::new(node));
                    proof {
                        assert(keys1 == keys0.push(c));
                        assert(branches1 == branches0.push(fresh_v));
                        assert(keys1.no_duplicates()) by {
                            assert forall|x: int, y: int| 0 <= x < keys1.len() && 0 <= y < keys1.len()
                                && x != y implies keys1[x] != keys1[y] by {
                                if x < keys0.len() && y < keys0.len() {
                                    assert(keys1[x] == keys0[x] && keys1[y] == keys0[y]);
                                } else if x < keys0.len() {
                                    assert(keys1[x] == keys0[x]);
                                } else if y < keys0.len() {
                                    assert(keys1[y] == keys0[y]);
                                }
                            }
                        }
                        lemma_wf_all(branches1);
                        assert forall|j: int| 0 <= j < branches1.len() implies #[trigger] wf(
                            branches1[j],
                        ) by {
                            if j < branches0.len() {
                                assert(branches1[j] == branches0[j]);
                            }
                        }
                        assert(wf(*b));
                        assert forall|k: Seq<u8>| #[trigger] lookup(*b, k) == if k == s@ {
                            Some(v)
                        } else {
                            lookup(old_b, k)
                        } by {
                            if n <= k.len() && k.take(n as int) == bytes@ && k.len() > n {
                                let tail = k.skip(n as int);
                                assert(tail[0] == k[n as int]);
                                assert(tail.drop_first() =~= k.skip(n + 1));
                                lemma_position(keys0, tail[0]);
                                lemma_position_push(keys0, c, tail[0]);
                                assert(lookup(*b, k) == lookup_below(b.below, tail));
                                assert(lookup(old_b, k) == lookup_below(old_b.below, tail));
                                match position(keys0, tail[0]) {
                                    Some(j) => {
                                        assert(branches1[j as int] == branches0[j as int]);
                                    },
                                    None => {},
                                }
                                if tail[0] == c {
                                    assert(position(keys1, c) == Some(keys0.len()));
                                    assert(branches1[keys0.len() as int] == fresh_v);
                                    assert(lookup(*b, k) == lookup(fresh_v, k.skip(n + 1)));
                                    lemma_split_key(bytes@, c, k);
                                    if k.skip(n + 1) == rest@ {
                                        assert(k == s@);
                                    } else {
                                        assert(k != s@);
                                    }
                                } else {
                                    assert(k != s@);
                                }
                            } else {
                                assert(k != s@) by {
                                    if k == s@ {
                                        assert(k.take(n as int) == bytes@);
                                    }
                                }
                            }
                        }
                    }
                    None
                },
            }
        },
        Below::Empty => {
            b.below = Below::Empty;
            None
        },
    }
}

/// Removing a slot from distinct key bytes leaves every other key byte
/// findable, one slot lower past the removed one, and the removed one
/// gone.
proof fn lemma_position_remove(keys: Seq<u8>, i: int, y: u8)
    requires
        keys.no_duplicates(),
        0 <= i < keys.len(),
    ensures
        position(keys.remove(i), y) == match position(keys, y) {
            Some(j) => if j == i {
                None
            } else if j < i {
                Some(j)
            } else {
                Some((j - 1) as nat)
            },
            None => None,
        },
{
    let r = keys.remove(i);
    lemma_position(keys, y);
    lemma_position(r, y);
    assert(r.len() == keys.len() - 1);
    assert forall|x: int| 0 <= x < r.len() implies r[x] == if x < i {
        keys[x]
    } else {
        keys[x + 1]
    } by {}
    match position(keys, y) {
        Some(j) => {
            if j == i {
                if r.contains(y) {
                    let x = choose|x: int| 0 <= x < r.len() && r[x] == y;
                    if x < i {
                        assert(keys[x] == y);
                    } else {
                        assert(keys[x + 1] == y);
                    }
                }
            } else {
                let want: int = if j < i {
                    j as int
                } else {
                    j - 1
                };
                assert(r[want] == y);
                match position(r, y) {
                    Some(p) => {
                        if p < want {
                            if p < i {
                                assert(keys[p as int] == y);
                            } else {
                                assert(keys[p as int + 1] == y);
                            }
                        }
                    },
                    None => {
                        assert(r.contains(y));
                    },
                }
            }
        },
        None => {
            if r.contains(y) {
                let x = choose|x: int| 0 <= x < r.len() && r[x] == y;
                if x < i {
                    assert(keys.contains(keys[x]));
                } else {
                    assert(keys.contains(keys[x + 1]));
                }
            }
        },
    }
}

/// What `b` holds once `s` maps to nothing: what `old` holds for every
/// other key.
pub open spec fn removed_from(b: Branch, old: Branch, s: Seq<u8>) -> bool {
    forall|k: Seq<u8>| #[trigger] lookup(b, k) == if k == s {
        None
    } else {
        lookup(old, k)
    }
}

/// Unmap `s` under the well-formed edge `b`: the edge becomes null when it
/// holds nothing more, and a node whose last slot empties is dropped;
/// returns the value that `s` mapped to, if any.
fn remove_in(b: &mut Branch, s: &[u8]) -> (r: Option<u64>)
    requires
        wf(*old(b)),
    ensures
        final(b).below is Empty || wf(*final(b)),
        removed_from(*final(b), *old(b), s@),
        r == lookup(*old(b), s@),
    decreases s@.len(),
{
    let ghost old_b = *b;
    let bytes = b.meta.into_iter();
    let n = bytes.len();
    if n > s.len() || !starts_with(s, &bytes) {
        return None;
    }
    assert(s@.take(n as int) =~= bytes@);
    let mut below = Below::Empty;
    std::mem::swap(&mut below, &mut b.below);
    match below {
        Below::Value(w) => {
            if s.len() == n {
                proof {
                    assert(s@ =~= bytes@);
                    assert forall|k: Seq<u8>| #[trigger] lookup(*b, k) == if k == s@ {
                        None
                    } else {
                        lookup(old_b, k)
                    } by {
                        if n <= k.len() && k.take(n as int) == bytes@ && k.len() == n {
                            assert(k =~= s@);
                        }
                    }
                }
                Some(w)
            } else {
                b.below = Below::Value(w);
                None
            }
        },
        Below::Node(inner) => {
            if s.len() == n {
                b.below = Below::Node(inner);
                return None;
            }
            let c = s[n];
            let rest = slice_subrange(s, n + 1, s.len());
            let mut node = *inner;
            let ghost keys0 = node.keys@;
            let ghost branches0 = node.branches@;
            proof {
                lemma_split_key(bytes@, c, s@);
                assert(rest@ =~= s@.skip(n + 1));
                lemma_wf_all(branches0);
                lemma_position(keys0, c);
            }
            match find_position(node.keys.as_slice(), c) {
                None => {
                    b.below = Below::Node(Box::new(node));
                    proof {
                        let tail = s@.skip(n as int);
                        assert(tail[0] == c);
                    }
                    None
                },
                Some(i) => {
                    let ghost child0 = branches0[i as int];
                    assert(wf(child0));
                    proof {
                        let tail = s@.skip(n as int);
                        assert(tail[0] == c);
                        assert(tail.drop_first() =~= rest@);
                        assert(lookup(old_b, s@) == lookup(child0, rest@));
                    }
                    let r = remove_in(&mut node.branches[i], rest);
                    let ghost child1 = node.branches@[i as int];
                    let ghost branches1 = node.branches@;
                    assert(branches1 == branches0.update(i as int, child1));
                    let emptied = match node.branches[i].below {
                        Below::Empty => true,
                        _ => false,
                    };
                    if emptied {
                        node.keys.remove(i);
                        node.branches.remove(i);
                    }
                    let ghost keys2 = node.keys@;
                    let ghost branches2 = node.branches@;
                    if node.keys.len() == 0 {
                        b.below = Below::Empty;
                    } else {
                        b.below = Below::Node(Box::new(node));
                    }
                    proof {
                        if emptied {
                            assert(keys2 =~= keys0.remove(i as int));
                            assert(branches2 =~= branches0.remove(i as int));
                        }
                        lemma_remove_node(
                            old_b,
                            *b,
                            bytes@,
                            c,
                            rest@,
                            s@,
                            i as int,
                            keys0,
                            branches0,
                            child1,
                            emptied,
                            keys2,
                            branches2,
                        );
                    }
                    r
                },
            }
        },
        Below::Empty => {
            b.below = Below::Empty;
            None
        },
    }
}

/// After removing `rest` under slot `i` of the node below `old_b`: the
/// edge is well formed or null, holds nothing for `s`, and holds what it
/// held for every other key.
proof fn lemma_remove_node(
    old_b: Branch,
    new_b: Branch,
    bytes: Seq<u8>,
    c: u8,
    rest: Seq<u8>,
    s: Seq<u8>,
    i: int,
    keys0: Seq<u8>,
    branches0: Seq<Branch>,
    child1: Branch,
    emptied: bool,
    keys2: Seq<u8>,
    branches2: Seq<Branch>,
)
    requires
        wf(old_b),
        old_b.meta@.bytes == bytes,
        new_b.meta == old_b.meta,
        old_b.below matches Below::Node(n) && n.keys@ == keys0 && n.branches@ == branches0,
        s == bytes + seq![c] + rest,
        0 <= i < keys0.len(),
        keys0[i] == c,
        position(keys0, c) == Some(i as nat),
        child1.below is Empty || wf(child1),
        removed_from(child1, branches0[i], rest),
        emptied == child1.below is Empty,
        emptied ==> keys2 == keys0.remove(i) && branches2 == branches0.remove(i),
        !emptied ==> keys2 == keys0 && branches2 == branches0.update(i, child1),
        keys2.len() == 0 ==> new_b.below is Empty,
        keys2.len() > 0 ==> (new_b.below matches Below::Node(n) && n.keys@ == keys2
            && n.branches@ == branches2),
    ensures
        new_b.below is Empty || wf(new_b),
        removed_from(new_b, old_b, s),
{
    let n: int = bytes.len() as int;
    lemma_wf_all(branches0);
    assert(keys0.len() == branches0.len());
    if emptied {
        assert(keys2.no_duplicates()) by {
            assert forall|x: int, y: int| 0 <= x < keys2.len() && 0 <= y < keys2.len() && x != y
                implies keys2[x] != keys2[y] by {
                let xo = if x < i { x } else { x + 1 };
                let yo = if y < i { y } else { y + 1 };
                assert(keys2[x] == keys0[xo] && keys2[y] == keys0[yo]);
            }
        }
        lemma_wf_all(branches2);
        assert forall|j: int| 0 <= j < branches2.len() implies #[trigger] wf(branches2[j]) by {
            let jo = if j < i { j } else { j + 1 };
            assert(branches2[j] == branches0[jo]);
        }
    } else {
        lemma_wf_all(branches2);
        assert forall|j: int| 0 <= j < branches2.len() implies #[trigger] wf(branches2[j]) by {
            if j != i {
                assert(branches2[j] == branches0[j]);
            }
        }
    }
    assert forall|k: Seq<u8>| #[trigger] lookup(new_b, k) == if k == s {
        None
    } else {
        lookup(old_b, k)
    } by {
        if n <= k.len() && k.take(n) == bytes && k.len() > n {
            let tail = k.skip(n);
            let d = tail[0];
            assert(d == k[n]);
            assert(tail.drop_first() =~= k.skip(n + 1));
            lemma_position(keys0, d);
            assert(lookup(old_b, k) == lookup_below(old_b.below, tail));
            if d == c {
                lemma_split_key(bytes, c, k);
                assert(s.skip(n + 1) =~= rest);
                assert(lookup(old_b, k) == lookup(branches0[i], k.skip(n + 1)));
                if k.skip(n + 1) == rest {
                    assert(k == s);
                } else {
                    assert(k != s);
                }
                if emptied {
                    if keys2.len() > 0 {
                        lemma_position_remove(keys0, i, d);
                        assert(lookup(new_b, k) == lookup_below(new_b.below, tail));
                    }
                    assert(lookup(child1, k.skip(n + 1)) is None);
                } else {
                    assert(lookup(new_b, k) == lookup(child1, k.skip(n + 1)));
                }
            } else {
                assert(k != s) by {
                    if k == s {
                        assert(s[n] == c);
                    }
                }
                match position(keys0, d) {
                    Some(j) => {
                        assert(keys0[j as int] == d);
                        assert(j != i);
                        assert(lookup(old_b, k) == lookup(branches0[j as int], k.skip(n + 1)));
                        if emptied {
                            if keys2.len() > 0 {
                                lemma_position_remove(keys0, i, d);
                                let jj: int = if j < i { j as int } else { j - 1 };
                                assert(branches2[jj] == branches0[j as int]);
                                assert(lookup(new_b, k) == lookup(branches2[jj], k.skip(n + 1)));
                            } else {
                                assert(keys0.len() == 1);
                                assert(false);
                            }
                        } else {
                            assert(branches2[j as int] == branches0[j as int]);
                        }
                    },
                    None => {
                        if emptied && keys2.len() > 0 {
                            lemma_position_remove(keys0, i, d);
                        }
                    },
                }
            }
        } else {
            assert(k != s) by {
                if k == s {
                    assert(k.take(n) =~= bytes);
                }
            }
        }
    }
}

/// Lexicographic order of byte strings: `a` comes strictly before `b` (a
/// proper prefix comes first).
pub open spec fn lex_lt(a: Seq<u8>, b: Seq<u8>) -> bool
    decreases a.len(),
{
    if a.len() == 0 {
        b.len() > 0
    } else if b.len() == 0 {
        false
    } else if a[0] != b[0] {
        a[0] < b[0]
    } else {
        lex_lt(a.drop_first(), b.drop_first())
    }
}

/// Two strings that agree on their first `m` bytes and then differ are
/// ordered by the byte at `m`.
proof fn lemma_lex_at(a: Seq<u8>, b: Seq<u8>, m: int)
    requires
        0 <= m < a.len(),
        m < b.len(),
        a.take(m) == b.take(m),
        a[m] < b[m],
    ensures
        lex_lt(a, b),
    decreases m,
{
    if m > 0 {
        assert(a[0] == a.take(m)[0]);
        assert(b[0] == b.take(m)[0]);
        assert(a.drop_first().take(m - 1) =~= b.drop_first().take(m - 1)) by {
            assert forall|i: int| 0 <= i < m - 1 implies a.drop_first()[i] == b.drop_first()[i] by {
                assert(a.drop_first()[i] == a[i + 1]);
                assert(b.drop_first()[i] == b[i + 1]);
                assert(a.take(m)[i + 1] == a[i + 1]);
                assert(b.take(m)[i + 1] == b[i + 1]);
            }
        }
        lemma_lex_at(a.drop_first(), b.drop_first(), m - 1);
    }
}

/// Removing the null terminators of two terminated keys keeps their order.
proof fn lemma_lex_terminated(a: Seq<u8>, b: Seq<u8>)
    requires
        !a.contains(0),
        !b.contains(0),
        lex_lt(a.push(0), b.push(0)),
    ensures
        lex_lt(a, b),
    decreases a.len(),
{
    let ap = a.push(0);
    let bp = b.push(0);
    if a.len() == 0 {
        if b.len() == 0 {
            assert(ap =~= seq![0u8]);
            assert(bp =~= seq![0u8]);
            assert(ap.drop_first() =~= Seq::<u8>::empty());
            assert(bp.drop_first() =~= Seq::<u8>::empty());
            assert(!lex_lt(Seq::<u8>::empty(), Seq::<u8>::empty()));
            assert(!lex_lt(ap, bp));
        }
    } else if b.len() == 0 {
        assert(ap[0] == a[0]);
        assert(bp[0] == 0);
        assert(a.contains(a[0]));
        assert(!lex_lt(ap, bp));
    } else {
        assert(ap[0] == a[0]);
        assert(bp[0] == b[0]);
        if a[0] == b[0] {
            assert(ap.drop_first() =~= a.drop_first().push(0));
            assert(bp.drop_first() =~= b.drop_first().push(0));
            assert(lex_lt(ap, bp) == lex_lt(ap.drop_first(), bp.drop_first()));
            assert(!a.drop_first().contains(0)) by {
                if a.drop_first().contains(0) {
                    let i = choose|i: int| 0 <= i < a.drop_first().len() && a.drop_first()[i] == 0;
                    assert(a[i + 1] == 0);
                    assert(a.contains(a[i + 1]));
                }
            }
            assert(!b.drop_first().contains(0)) by {
                if b.drop_first().contains(0) {
                    let i = choose|i: int| 0 <= i < b.drop_first().len() && b.drop_first()[i] == 0;
                    assert(b[i + 1] == 0);
                    assert(b.contains(b[i + 1]));
                }
            }
            lemma_lex_terminated(a.drop_first(), b.drop_first());
        }
    }
}

/// Whether every two entries of `out`, from `start` on, come in strictly
/// ascending order of key.
pub open spec fn sorted_from(out: Seq<(Vec<u8>, u64)>, start: int) -> bool {
    forall|i: int, j: int| start <= i < j < out.len() ==> lex_lt(out[i].0@, out[j].0@)
}

/// One slot of a node, collected: the entries already collected (under
/// smaller key bytes) and those of the slot's edge (under `cb`) together
/// keep the collection's invariant, now for key bytes up to `cb`.
proof fn lemma_collect_node(
    b: Branch,
    prefix: Seq<u8>,
    bytes: Seq<u8>,
    p: Seq<u8>,
    q: Seq<u8>,
    cb: u8,
    i: int,
    keys0: Seq<u8>,
    branches0: Seq<Branch>,
    start: int,
    old_out: Seq<(Vec<u8>, u64)>,
    before: Seq<(Vec<u8>, u64)>,
    after: Seq<(Vec<u8>, u64)>,
)
    requires
        b.meta@.bytes == bytes,
        b.below matches Below::Node(nd) && nd.keys@ == keys0 && nd.branches@ == branches0,
        keys0.len() == branches0.len(),
        0 <= i < keys0.len(),
        keys0[i] == cb,
        position(keys0, cb) == Some(i as nat),
        p == prefix + bytes,
        q == p.push(cb),
        0 <= start <= before.len(),
        before.take(start) == old_out,
        forall|j: int|
            start <= j < before.len() ==> {
                let e = #[trigger] before[j];
                &&& p.len() < e.0@.len()
                &&& e.0@.take(p.len() as int) == p
                &&& e.0@[p.len() as int] < cb
                &&& lookup(b, e.0@.skip(prefix.len() as int)) == Some(e.1)
            },
        forall|k: Seq<u8>|
            #[trigger] lookup(b, k) is Some && k[bytes.len() as int] < cb ==> exists|j: int|
                start <= j < before.len() && before[j].0@ == prefix + k,
        sorted_from(before, start),
        after.len() >= before.len(),
        after.take(before.len() as int) == before,
        forall|j: int|
            before.len() <= j < after.len() ==> {
                let e = #[trigger] after[j];
                &&& q.len() <= e.0@.len()
                &&& e.0@.take(q.len() as int) == q
                &&& lookup(branches0[i], e.0@.skip(q.len() as int)) == Some(e.1)
            },
        forall|k: Seq<u8>|
            #[trigger] lookup(branches0[i], k) is Some ==> exists|j: int|
                before.len() <= j < after.len() && after[j].0@ == q + k,
        sorted_from(after, before.len() as int),
    ensures
        after.len() >= start,
        after.take(start) == old_out,
        forall|j: int|
            start <= j < after.len() ==> {
                let e = #[trigger] after[j];
                &&& p.len() < e.0@.len()
                &&& e.0@.take(p.len() as int) == p
                &&& e.0@[p.len() as int] < cb + 1
                &&& lookup(b, e.0@.skip(prefix.len() as int)) == Some(e.1)
            },
        forall|k: Seq<u8>|
            #[trigger] lookup(b, k) is Some && k[bytes.len() as int] < cb + 1 ==> exists|j: int|
                start <= j < after.len() && after[j].0@ == prefix + k,
        sorted_from(after, start),
{
    let n = bytes.len() as int;
    assert(after.take(start) =~= old_out) by {
        assert(after.take(start) =~= after.take(before.len() as int).take(start));
    }
    assert forall|j: int| start <= j < before.len() implies after[j] == before[j] by {
        assert(after.take(before.len() as int)[j] == after[j]);
    }
    lemma_collect_elements(b, prefix, bytes, p, q, cb, i, keys0, branches0, start, before, after);
    lemma_collect_complete(b, prefix, bytes, q, cb, i, keys0, branches0, start, before, after);
    lemma_collect_sorted(p, q, cb, start, before, after);
}

/// The entries collected under a node's slot hold their values at their
/// keys, under the slot's key byte.
proof fn lemma_collect_elements(
    b: Branch,
    prefix: Seq<u8>,
    bytes: Seq<u8>,
    p: Seq<u8>,
    q: Seq<u8>,
    cb: u8,
    i: int,
    keys0: Seq<u8>,
    branches0: Seq<Branch>,
    start: int,
    before: Seq<(Vec<u8>, u64)>,
    after: Seq<(Vec<u8>, u64)>,
)
    requires
        b.meta@.bytes == bytes,
        b.below matches Below::Node(nd) && nd.keys@ == keys0 && nd.branches@ == branches0,
        keys0.len() == branches0.len(),
        0 <= i < keys0.len(),
        position(keys0, cb) == Some(i as nat),
        p == prefix + bytes,
        q == p.push(cb),
        0 <= start <= before.len() <= after.len(),
        forall|j: int| start <= j < before.len() ==> after[j] == before[j],
        forall|j: int|
            start <= j < before.len() ==> {
                let e = #[trigger] before[j];
                &&& p.len() < e.0@.len()
                &&& e.0@.take(p.len() as int) == p
                &&& e.0@[p.len() as int] < cb
                &&& lookup(b, e.0@.skip(prefix.len() as int)) == Some(e.1)
            },
        forall|j: int|
            before.len() <= j < after.len() ==> {
                let e = #[trigger] after[j];
                &&& q.len() <= e.0@.len()
                &&& e.0@.take(q.len() as int) == q
                &&& lookup(branches0[i], e.0@.skip(q.len() as int)) == Some(e.1)
            },
    ensures
        forall|j: int|
            start <= j < after.len() ==> {
                let e = #[trigger] after[j];
                &&& p.len() < e.0@.len()
                &&& e.0@.take(p.len() as int) == p
                &&& e.0@[p.len() as int] < cb + 1
                &&& lookup(b, e.0@.skip(prefix.len() as int)) == Some(e.1)
            },
{
    let n = bytes.len() as int;
    let pl = p.len() as int;
    assert forall|j: int| start <= j < after.len() implies {
        let e = #[trigger] after[j];
        &&& pl < e.0@.len()
        &&& e.0@.take(pl) == p
        &&& e.0@[pl] < cb + 1
        &&& lookup(b, e.0@.skip(prefix.len() as int)) == Some(e.1)
    } by {
        if j >= before.len() {
            let e = after[j];
            let key = e.0@;
            assert(key.take(pl) =~= q.take(pl)) by {
                assert(key.take(pl) =~= key.take(q.len() as int).take(pl));
            }
            assert(q.take(pl) =~= p);
            assert(key[pl] == q[pl]) by {
                assert(key.take(q.len() as int)[pl] == key[pl]);
            }
            let rel = key.skip(prefix.len() as int);
            assert(rel.take(n) =~= bytes) by {
                assert forall|x: int| 0 <= x < n implies rel[x] == bytes[x] by {
                    assert(key.take(pl)[prefix.len() + x] == key[prefix.len() + x]);
                    assert(p[prefix.len() + x] == bytes[x]);
                }
            }
            assert(rel[n] == cb);
            assert(rel.skip(n).drop_first() =~= key.skip(q.len() as int));
            let tail = rel.skip(n);
            assert(tail[0] == cb);
            assert(lookup(b, rel) == lookup(branches0[i], key.skip(q.len() as int)));
        } else {
            assert(after[j] == before[j]);
        }
    }
}

/// Every key held under a node's slots up to `cb` has been collected.
proof fn lemma_collect_complete(
    b: Branch,
    prefix: Seq<u8>,
    bytes: Seq<u8>,
    q: Seq<u8>,
    cb: u8,
    i: int,
    keys0: Seq<u8>,
    branches0: Seq<Branch>,
    start: int,
    before: Seq<(Vec<u8>, u64)>,
    after: Seq<(Vec<u8>, u64)>,
)
    requires
        b.meta@.bytes == bytes,
        b.below matches Below::Node(nd) && nd.keys@ == keys0 && nd.branches@ == branches0,
        keys0.len() == branches0.len(),
        0 <= i < keys0.len(),
        position(keys0, cb) == Some(i as nat),
        q == (prefix + bytes).push(cb),
        0 <= start <= before.len() <= after.len(),
        forall|j: int| start <= j < before.len() ==> after[j] == before[j],
        forall|k: Seq<u8>|
            #[trigger] lookup(b, k) is Some && k[bytes.len() as int] < cb ==> exists|j: int|
                start <= j < before.len() && before[j].0@ == prefix + k,
        forall|k: Seq<u8>|
            #[trigger] lookup(branches0[i], k) is Some ==> exists|j: int|
                before.len() <= j < after.len() && after[j].0@ == q + k,
    ensures
        forall|k: Seq<u8>|
            #[trigger] lookup(b, k) is Some && k[bytes.len() as int] < cb + 1 ==> exists|j: int|
                start <= j < after.len() && after[j].0@ == prefix + k,
{
    let n = bytes.len() as int;
    assert forall|k: Seq<u8>| #[trigger] lookup(b, k) is Some && k[n] < cb + 1 implies exists|
        j: int,
    | start <= j < after.len() && after[j].0@ == prefix + k by {
        if k[n] < cb {
            let j = choose|j: int| start <= j < before.len() && before[j].0@ == prefix + k;
            assert(after[j] == before[j]);
        } else {
            let tail = k.skip(n);
            assert(tail[0] == k[n]);
            assert(tail.drop_first() =~= k.skip(n + 1));
            assert(lookup(b, k) == lookup(branches0[i], k.skip(n + 1)));
            lemma_split_key(bytes, cb, k);
            let j = choose|j: int| before.len() <= j < after.len() && after[j].0@ == q + k.skip(n + 1);
            assert(q + k.skip(n + 1) =~= prefix + k) by {
                assert(prefix + k =~= prefix + (bytes + seq![cb] + k.skip(n + 1)));
            }
        }
    }
}

/// Entries collected under a smaller key byte come before those collected
/// under `cb`, so the whole collection stays in ascending order.
proof fn lemma_collect_sorted(
    p: Seq<u8>,
    q: Seq<u8>,
    cb: u8,
    start: int,
    before: Seq<(Vec<u8>, u64)>,
    after: Seq<(Vec<u8>, u64)>,
)
    requires
        q == p.push(cb),
        0 <= start <= before.len() <= after.len(),
        forall|j: int| start <= j < before.len() ==> after[j] == before[j],
        forall|j: int|
            start <= j < before.len() ==> {
                let e = #[trigger] before[j];
                &&& p.len() < e.0@.len()
                &&& e.0@.take(p.len() as int) == p
                &&& e.0@[p.len() as int] < cb
            },
        forall|j: int|
            before.len() <= j < after.len() ==> {
                let e = #[trigger] after[j];
                &&& q.len() <= e.0@.len()
                &&& e.0@.take(q.len() as int) == q
            },
        sorted_from(before, start),
        sorted_from(after, before.len() as int),
    ensures
        sorted_from(after, start),
{
    let pl = p.len() as int;
    assert forall|x: int, y: int| start <= x < y < after.len() implies lex_lt(
        after[x].0@,
        after[y].0@,
    ) by {
        if y < before.len() {
            assert(after[x] == before[x]);
            assert(after[y] == before[y]);
        } else if x >= before.len() {
        } else {
            assert(after[x] == before[x]);
            let a = after[x].0@;
            let c = after[y].0@;
            assert(c.take(pl) =~= p) by {
                assert(c.take(pl) =~= c.take(q.len() as int).take(pl));
                assert(q.take(pl) =~= p);
            }
            assert(c[pl] == cb) by {
                assert(c.take(q.len() as int)[pl] == c[pl]);
            }
            lemma_lex_at(a, c, pl);
        }
    }
}

/// Append to `out` the entries that `b` holds, each key behind `prefix`,
/// in ascending order of key.
fn collect(b: &Branch, prefix: &Vec<u8>, out: &mut Vec<(Vec<u8>, u64)>)
    requires
        b.below is Empty || wf(*b),
    ensures
        final(out)@.len() >= old(out)@.len(),
        final(out)@.take(old(out)@.len() as int) == old(out)@,
        forall|i: int|
            old(out)@.len() <= i < final(out)@.len() ==> {
                let e = #[trigger] final(out)@[i];
                &&& prefix@.len() <= e.0@.len()
                &&& e.0@.take(prefix@.len() as int) == prefix@
                &&& lookup(*b, e.0@.skip(prefix@.len() as int)) == Some(e.1)
            },
        forall|k: Seq<u8>|
            #[trigger] lookup(*b, k) is Some ==> exists|i: int|
                old(out)@.len() <= i < final(out)@.len() && final(out)@[i].0@ == prefix@ + k,
        sorted_from(final(out)@, old(out)@.len() as int),
    decreases b,
{
    let ghost start = out@.len();
    let ghost old_out = out@;
    let bytes = b.meta.into_iter();
    let n = bytes.len();
    let mut p = slice_to_vec(prefix.as_slice());
    let mut t: usize = 0;
    while t < n
        invariant
            t <= n,
            n == bytes@.len(),
            p@ == prefix@ + bytes@.take(t as int),
        decreases n - t,
    {
        p.push(bytes[t]);
        assert(bytes@.take(t + 1) =~= bytes@.take(t as int).push(bytes@[t as int]));
        t = t + 1;
    }
    assert(bytes@.take(n as int) =~= bytes@);
    let ghost pl = prefix@.len();
    match &b.below {
        Below::Empty => {
            assert(out@.take(start as int) =~= out@);
        },
        Below::Value(v) => {
            let key = slice_to_vec(p.as_slice());
            out.push((key, *v));
            proof {
                assert(out@.take(start as int) =~= old_out);
                let e = out@[start as int];
                assert(e.0@.take(pl as int) =~= prefix@);
                assert(e.0@.skip(pl as int) =~= bytes@);
                assert(bytes@.take(n as int) =~= bytes@);
                assert(bytes@.skip(n as int) =~= Seq::<u8>::empty());
                assert forall|k: Seq<u8>| #[trigger] lookup(*b, k) is Some implies exists|i: int|
                    start <= i < out@.len() && out@[i].0@ == prefix@ + k by {
                    assert(k.take(n as int) == bytes@);
                    assert(k.len() == n);
                    assert(k =~= bytes@);
                    assert(out@[start as int].0@ == prefix@ + k);
                }
            }
        },
        Below::Node(inner) => {
            let ghost keys0 = inner.keys@;
            let ghost branches0 = inner.branches@;
            proof {
                lemma_wf_all(branches0);
            }
            let mut c: u16 = 0;
            while c < 256
                invariant
                    wf(*b),
                    b.below == Below::Node(*inner),
                    keys0 == inner.keys@,
                    branches0 == inner.branches@,
                    keys0.len() == branches0.len(),
                    keys0.no_duplicates(),
                    forall|j: int| 0 <= j < branches0.len() ==> #[trigger] wf(branches0[j]),
                    p@ == prefix@ + bytes@,
                    bytes@ == b.meta@.bytes,
                    n == bytes@.len(),
                    c <= 256,
                    out@.len() >= start,
                    out@.take(start as int) == old_out,
                    forall|i: int|
                        start <= i < out@.len() ==> {
                            let e = #[trigger] out@[i];
                            &&& p@.len() < e.0@.len()
                            &&& e.0@.take(p@.len() as int) == p@
                            &&& e.0@[p@.len() as int] < c
                            &&& lookup(*b, e.0@.skip(prefix@.len() as int)) == Some(e.1)
                        },
                    forall|k: Seq<u8>|
                        #[trigger] lookup(*b, k) is Some && k[n as int] < c ==> exists|i: int|
                            start <= i < out@.len() && out@[i].0@ == prefix@ + k,
                    sorted_from(out@, start as int),
                decreases 256 - c,
            {
                let cb = c as u8;
                match find_position(inner.keys.as_slice(), cb) {
                    Some(i) => {
                        let mut q = slice_to_vec(p.as_slice());
                        q.push(cb);
                        let ghost before = out@;
                        let ghost child = branches0[i as int];
                        proof {
                            lemma_position(keys0, cb);
                        }
                        collect(&inner.branches[i], &q, out);
                        proof {
                            lemma_collect_node(
                                *b,
                                prefix@,
                                bytes@,
                                p@,
                                q@,
                                cb,
                                i as int,
                                keys0,
                                branches0,
                                start as int,
                                old_out,
                                before,
                                out@,
                            );
                        }
                    },
                    None => {
                        proof {
                            lemma_position(keys0, cb);
                            assert forall|k: Seq<u8>|
                                #[trigger] lookup(*b, k) is Some && k[n as int] < c + 1 implies exists|
                                i: int,
                            |
                                start <= i < out@.len() && out@[i].0@ == prefix@ + k by {
                                if k[n as int] == cb {
                                    let tail = k.skip(n as int);
                                    assert(tail[0] == k[n as int]);
                                }
                            }
                        }
                    },
                }
                c = c + 1;
            }
            proof {
                assert forall|i: int| start <= i < out@.len() implies {
                    let e = #[trigger] out@[i];
                    &&& prefix@.len() <= e.0@.len()
                    &&& e.0@.take(prefix@.len() as int) == prefix@
                } by {
                    let e = out@[i];
                    assert(e.0@.take(prefix@.len() as int) =~= e.0@.take(p@.len() as int).take(
                        prefix@.len() as int,
                    ));
                    assert((prefix@ + bytes@).take(prefix@.len() as int) =~= prefix@);
                }
                assert forall|k: Seq<u8>| #[trigger] lookup(*b, k) is Some implies exists|i: int|
                    start <= i < out@.len() && out@[i].0@ == prefix@ + k by {
                    assert(k[n as int] < 256);
                }
            }
        },
    }
}

/// Whether `a` comes strictly before `b` in lexicographic order.
pub fn lex_less(a: &[u8], b: &[u8]) -> (r: bool)
    ensures
        r == lex_lt(a@, b@),
{
    let mut i: usize = 0;
    assert(a@.skip(0) =~= a@);
    assert(b@.skip(0) =~= b@);
    while i < a.len() && i < b.len() && a[i] == b[i]
        invariant
            i <= a@.len(),
            i <= b@.len(),
            lex_lt(a@, b@) == lex_lt(a@.skip(i as int), b@.skip(i as int)),
        decreases a@.len() - i,
    {
        assert(a@.skip(i as int).drop_first() =~= a@.skip(i + 1));
        assert(b@.skip(i as int).drop_first() =~= b@.skip(i + 1));
        assert(a@.skip(i as int)[0] == b@.skip(i as int)[0]);
        i = i + 1;
    }
    if i == a.len() {
        i < b.len()
    } else if i == b.len() {
        false
    } else {
        assert(a@.skip(i as int)[0] == a@[i as int]);
        assert(b@.skip(i as int)[0] == b@[i as int]);
        a[i] < b[i]
    }
}

/// Whether `p` is a prefix of `k`.
pub open spec fn has_prefix(k: Seq<u8>, p: Seq<u8>) -> bool {
    p.len() <= k.len() && k.take(p.len() as int) == p
}

/// Whether the key `k` lies within the bounds `lower..=upper`.
pub open spec fn in_range(k: Seq<u8>, lower: Seq<u8>, upper: Seq<u8>) -> bool {
    !lex_lt(k, lower) && !lex_lt(upper, k)
}

/// Whether `all` holds an entry with the key and value of `e`.
pub open spec fn has_entry(all: Seq<(Vec<u8>, u64)>, e: (Vec<u8>, u64)) -> bool {
    exists|j: int| 0 <= j < all.len() && (#[trigger] all[j]).0@ == e.0@ && all[j].1 == e.1
}

/// Whether `k` lies within `lower..=upper` (if `range`) or starts with
/// `lower` (otherwise).
pub open spec fn selected(k: Seq<u8>, range: bool, lower: Seq<u8>, upper: Seq<u8>) -> bool {
    if range {
        in_range(k, lower, upper)
    } else {
        has_prefix(k, lower)
    }
}

/// The entries of `all` whose keys lie within `lower..=upper` (if
/// `range`) or start with `lower` (otherwise), in their order.
fn select(all: &Vec<(Vec<u8>, u64)>, range: bool, lower: &[u8], upper: &[u8]) -> (r: Vec<(Vec<u8>, u64)>)
    ensures
        forall|t: int| 0 <= t < r@.len() ==> selected(#[trigger] r@[t].0@, range, lower@, upper@),
        forall|t: int| 0 <= t < r@.len() ==> has_entry(all@, #[trigger] r@[t]),
        forall|j: int|
            0 <= j < all@.len() && (if range {
                in_range(all@[j].0@, lower@, upper@)
            } else {
                has_prefix(all@[j].0@, lower@)
            }) ==> exists|t: int| 0 <= t < r@.len() && r@[t].0@ == (#[trigger] all@[j]).0@ && r@[t].1 == all@[j].1,
        (forall|x: int, y: int| 0 <= x < y < all@.len() ==> lex_lt(all@[x].0@, all@[y].0@)) ==> (
        forall|x: int, y: int| 0 <= x < y < r@.len() ==> lex_lt(r@[x].0@, r@[y].0@)),
{
    let mut out: Vec<(Vec<u8>, u64)> = Vec::new();
    let ghost mut idx: Seq<int> = Seq::empty();
    let mut i: usize = 0;
    while i < all.len()
        invariant
            i <= all@.len(),
            idx.len() == out@.len(),
            forall|t: int| 0 <= t < idx.len() ==> 0 <= #[trigger] idx[t] < i,
            forall|t: int| 0 <= t < idx.len() ==> out@[t].0@ == all@[#[trigger] idx[t]].0@ && out@[t].1 == all@[idx[t]].1,
            forall|x: int, y: int| 0 <= x < y < idx.len() ==> idx[x] < idx[y],
            forall|t: int| 0 <= t < idx.len() ==> selected(all@[#[trigger] idx[t]].0@, range, lower@, upper@),
            forall|j: int|
                0 <= j < i && (if range {
                    in_range(all@[j].0@, lower@, upper@)
                } else {
                    has_prefix(all@[j].0@, lower@)
                }) ==> exists|t: int| 0 <= t < out@.len() && out@[t].0@ == (#[trigger] all@[j]).0@ && out@[t].1 == all@[j].1,
        decreases all@.len() - i,
    {
        let key = all[i].0.as_slice();
        let keep = if range {
            !lex_less(key, lower) && !lex_less(upper, key)
        } else {
            lower.len() <= key.len() && lex_prefix(key, lower)
        };
        let ghost before = out@;
        if keep {
            let entry = (slice_to_vec(key), all[i].1);
            assert(entry.0@ == all@[i as int].0@);
            out.push(entry);
            proof {
                idx = idx.push(i as int);
                assert(out@[out@.len() - 1].0@ == all@[i as int].0@);
            }
        }
        proof {
            assert forall|t: int| 0 <= t < before.len() implies out@[t] == before[t] by {}
            assert forall|j: int|
                0 <= j < i + 1 && (if range {
                    in_range(all@[j].0@, lower@, upper@)
                } else {
                    has_prefix(all@[j].0@, lower@)
                }) implies exists|t: int| 0 <= t < out@.len() && out@[t].0@ == (#[trigger] all@[j]).0@ && out@[t].1 == all@[j].1 by {
                if j == i {
                    assert(keep);
                    let t = out@.len() - 1;
                    assert(out@[t].0@ == all@[j].0@ && out@[t].1 == all@[j].1);
                } else {
                    let t = choose|t: int| 0 <= t < before.len() && before[t].0@ == all@[j].0@ && before[t].1 == all@[j].1;
                    assert(out@[t] == before[t]);
                }
            }
        }
        i = i + 1;
    }
    proof {
        assert forall|t: int| 0 <= t < out@.len() implies selected(#[trigger] out@[t].0@, range, lower@, upper@) by {
            let j = idx[t];
            assert(out@[t].0@ == all@[j].0@);
        }
        assert forall|t: int| 0 <= t < out@.len() implies has_entry(all@, #[trigger] out@[t]) by {
            let j = idx[t];
            assert(out@[t].0@ == all@[j].0@);
            assert(out@[t].1 == all@[j].1);
        }
        if forall|x: int, y: int| 0 <= x < y < all@.len() ==> lex_lt(all@[x].0@, all@[y].0@) {
            assert forall|x: int, y: int| 0 <= x < y < out@.len() implies lex_lt(
                out@[x].0@,
                out@[y].0@,
            ) by {
                assert(idx[x] < idx[y]);
                assert(out@[x].0@ == all@[idx[x]].0@);
                assert(out@[y].0@ == all@[idx[y]].0@);
            }
        }
    }
    out
}

/// Whether `p` is a prefix of `k`, which is at least as long.
fn lex_prefix(k: &[u8], p: &[u8]) -> (r: bool)
    requires
        p@.len() <= k@.len(),
    ensures
        r == has_prefix(k@, p@),
{
    let mut i: usize = 0;
    while i < p.len()
        invariant
            i <= p@.len() <= k@.len(),
            forall|j: int| 0 <= j < i ==> k@[j] == p@[j],
        decreases p@.len() - i,
    {
        if k[i] != p[i] {
            assert(k@.take(p@.len() as int)[i as int] == k@[i as int]);
            return false;
        }
        i = i + 1;
    }
    assert(k@.take(p@.len() as int) =~= p@);
    true
}

/// Whether `k` ends with a null byte, its only one.
pub open spec fn terminated(k: Seq<u8>) -> bool {
    &&& k.len() > 0
    &&& k.last() == 0
    &&& forall|i: int| 0 <= i < k.len() - 1 ==> k[i] != 0
}

/// Of two terminated keys, neither is a proper prefix of the other.
proof fn lemma_terminated_prefix_free(a: Seq<u8>, b: Seq<u8>)
    requires
        terminated(a),
        terminated(b),
    ensures
        !proper_prefix(a, b),
{
    if proper_prefix(a, b) {
        let i = a.len() - 1;
        assert(b.take(a.len() as int)[i] == b[i]);
        assert(b[i] == 0);
    }
}

/// A map from non-null keys to values, held in a tree of owned nodes.
pub struct Tree {
    root: Branch,
}

impl View for Tree {
    type V = Map<Seq<u8>, u64>;

    /// Each key maps to the value that the tree holds for it and its null
    /// terminator.
    closed spec fn view(&self) -> Map<Seq<u8>, u64> {
        Map::new(
            |k: Seq<u8>| lookup(self.root, k.push(0)) is Some,
            |k: Seq<u8>| lookup(self.root, k.push(0))->0,
        )
    }
}

impl Tree {
    #[verifier::type_invariant]
    closed spec fn inv(self) -> bool {
        &&& self.root.below is Empty || wf(self.root)
        &&& forall|k: Seq<u8>| #[trigger] lookup(self.root, k) is Some ==> terminated(k)
    }

    /// The empty map.
    pub fn new() -> (r: Self)
        ensures
            r@ == Map::<Seq<u8>, u64>::empty(),
    {
        let r = Tree { root: Branch { meta: Le::null(), below: Below::Empty } };
        assert(r@ =~= Map::<Seq<u8>, u64>::empty());
        r
    }

    /// The value of `key`, if it has one.
    pub fn get(&self, key: &NonNullSlice) -> (r: Option<u64>)
        ensures
            r == if self@.dom().contains(key.spec_slice()) {
                Some(self@[key.spec_slice()])
            } else {
                None
            },
    {
        let slice = key.as_slice();
        let mut full = slice_to_vec(slice);
        full.push(0);
        get_in(&self.root, full.as_slice())
    }

    /// Map `key` to `value`; returns the value it had, if any.
    pub fn insert(&mut self, key: &NonNullSlice, value: u64) -> (r: Option<u64>)
        ensures
            final(self)@ == old(self)@.insert(key.spec_slice(), value),
            r == if old(self)@.dom().contains(key.spec_slice()) {
                Some(old(self)@[key.spec_slice()])
            } else {
                None
            },
    {
        proof {
            use_type_invariant(&*self);
        }
        let slice = key.as_slice();
        let mut full = slice_to_vec(slice);
        full.push(0);
        let ghost k0 = key.spec_slice();
        proof {
            assert(full@ == k0.push(0));
            assert(terminated(full@)) by {
                assert forall|i: int| 0 <= i < full@.len() - 1 implies full@[i] != 0 by {
                    assert(full@[i] == k0[i]);
                    assert(k0.contains(k0[i]));
                }
            }
            assert forall|k: Seq<u8>| #[trigger] lookup(self.root, k) is Some implies !proper_prefix(
                k,
                full@,
            ) && !proper_prefix(full@, k) by {
                lemma_terminated_prefix_free(k, full@);
                lemma_terminated_prefix_free(full@, k);
            }
        }
        let mut root = Branch { meta: Le::null(), below: Below::Empty };
        std::mem::swap(&mut root, &mut self.root);
        let ghost old_root = root;
        let r = insert_in(&mut root, full.as_slice(), value);
        proof {
            assert forall|k: Seq<u8>| #[trigger] lookup(root, k) is Some implies terminated(k) by {
                if k != full@ {
                    assert(lookup(root, k) == lookup(old_root, k));
                }
            }
        }
        self.root = root;
        proof {
            assert forall|k: Seq<u8>| #[trigger] lookup(root, k.push(0)) == if k == k0 {
                Some(value)
            } else {
                lookup(old_root, k.push(0))
            } by {
                assert(lookup(root, k.push(0)) == if k.push(0) == full@ {
                    Some(value)
                } else {
                    lookup(old_root, k.push(0))
                });
                if k.push(0) == full@ {
                    assert(k =~= k0) by {
                        assert(k.push(0).drop_last() =~= k);
                        assert(full@.drop_last() =~= k0);
                    }
                }
            }
            assert(old_root == old(self).root);
            assert(self@ =~= old(self)@.insert(k0, value));
        }
        r
    }

    /// Unmap `key`; returns the value it had, if any.
    pub fn remove(&mut self, key: &NonNullSlice) -> (r: Option<u64>)
        ensures
            final(self)@ == old(self)@.remove(key.spec_slice()),
            r == if old(self)@.dom().contains(key.spec_slice()) {
                Some(old(self)@[key.spec_slice()])
            } else {
                None
            },
    {
        proof {
            use_type_invariant(&*self);
        }
        let slice = key.as_slice();
        let mut full = slice_to_vec(slice);
        full.push(0);
        let ghost k0 = key.spec_slice();
        assert(full@ == k0.push(0));
        if let Below::Empty = self.root.below {
            assert(self@ =~= old(self)@.remove(k0));
            return None;
        }
        let mut root = Branch { meta: Le::null(), below: Below::Empty };
        std::mem::swap(&mut root, &mut self.root);
        let ghost old_root = root;
        let r = remove_in(&mut root, full.as_slice());
        proof {
            assert forall|k: Seq<u8>| #[trigger] lookup(root, k) is Some implies terminated(k) by {
                if k != full@ {
                    assert(lookup(root, k) == lookup(old_root, k));
                }
            }
        }
        self.root = root;
        proof {
            assert forall|k: Seq<u8>| #[trigger] lookup(root, k.push(0)) == if k == k0 {
                None
            } else {
                lookup(old_root, k.push(0))
            } by {
                if k.push(0) == full@ {
                    assert(k =~= k0) by {
                        assert(k.push(0).drop_last() =~= k);
                        assert(full@.drop_last() =~= k0);
                    }
                }
            }
            assert(old_root == old(self).root);
            assert(self@ =~= old(self)@.remove(k0));
        }
        r
    }

    /// Every entry of the map, in ascending order of key.
    pub fn entries(&self) -> (r: Vec<(Vec<u8>, u64)>)
        ensures
            forall|i: int|
                0 <= i < r@.len() ==> self@.dom().contains(#[trigger] r@[i].0@) && self@[r@[i].0@]
                    == r@[i].1,
            forall|k: Seq<u8>|
                #[trigger] self@.dom().contains(k) ==> exists|i: int| 0 <= i < r@.len() && r@[i].0@ == k,
            forall|i: int, j: int| 0 <= i < j < r@.len() ==> lex_lt(r@[i].0@, r@[j].0@),
    {
        proof {
            use_type_invariant(self);
        }
        let mut raw: Vec<(Vec<u8>, u64)> = Vec::new();
        let empty: Vec<u8> = Vec::new();
        collect(&self.root, &empty, &mut raw);
        proof {
            assert forall|i: int| 0 <= i < raw@.len() implies {
                &&& terminated(#[trigger] raw@[i].0@)
                &&& lookup(self.root, raw@[i].0@) == Some(raw@[i].1)
            } by {
                assert(raw@[i].0@.skip(0) =~= raw@[i].0@);
            }
        }
        let mut out: Vec<(Vec<u8>, u64)> = Vec::new();
        let mut i: usize = 0;
        while i < raw.len()
            invariant
                i <= raw@.len(),
                out@.len() == i,
                forall|j: int|
                    0 <= j < raw@.len() ==> {
                        &&& terminated(#[trigger] raw@[j].0@)
                        &&& lookup(self.root, raw@[j].0@) == Some(raw@[j].1)
                    },
                forall|j: int|
                    0 <= j < i ==> (#[trigger] out@[j]).0@.push(0) == raw@[j].0@ && out@[j].1
                        == raw@[j].1,
            decreases raw@.len() - i,
        {
            let full = raw[i].0.as_slice();
            let key = slice_to_vec(slice_subrange(full, 0, full.len() - 1));
            proof {
                assert(key@.push(0) =~= raw@[i as int].0@);
            }
            out.push((key, raw[i].1));
            i = i + 1;
        }
        proof {
            assert forall|j: int| 0 <= j < out@.len() implies !(#[trigger] out@[j]).0@.contains(0) by {
                let k = out@[j].0@;
                if k.contains(0) {
                    let x = choose|x: int| 0 <= x < k.len() && k[x] == 0;
                    assert(raw@[j].0@[x] == 0);
                }
            }
            assert forall|x: int, y: int| 0 <= x < y < out@.len() implies lex_lt(
                out@[x].0@,
                out@[y].0@,
            ) by {
                assert(lex_lt(raw@[x].0@, raw@[y].0@));
                lemma_lex_terminated(out@[x].0@, out@[y].0@);
            }
            assert forall|k: Seq<u8>| #[trigger] self@.dom().contains(k) implies exists|j: int|
                0 <= j < out@.len() && out@[j].0@ == k by {
                assert(lookup(self.root, k.push(0)) is Some);
                let j = choose|j: int| 0 <= j < raw@.len() && raw@[j].0@ == empty@ + k.push(0);
                assert(empty@ + k.push(0) =~= k.push(0));
                assert(out@[j].0@.push(0) == k.push(0));
                assert(out@[j].0@ =~= k) by {
                    assert(out@[j].0@.push(0).drop_last() =~= out@[j].0@);
                    assert(k.push(0).drop_last() =~= k);
                }
            }
        }
        out
    }

    /// The entries whose keys lie within `lower..=upper`, in ascending
    /// order of key.
    pub fn range(&self, lower: &[u8], upper: &[u8]) -> (r: Vec<(Vec<u8>, u64)>)
        ensures
            forall|i: int|
                0 <= i < r@.len() ==> self@.dom().contains(#[trigger] r@[i].0@) && self@[r@[i].0@]
                    == r@[i].1 && in_range(r@[i].0@, lower@, upper@),
            forall|k: Seq<u8>|
                #[trigger] self@.dom().contains(k) && in_range(k, lower@, upper@) ==> exists|i: int|
                    0 <= i < r@.len() && r@[i].0@ == k,
            forall|i: int, j: int| 0 <= i < j < r@.len() ==> lex_lt(r@[i].0@, r@[j].0@),
    {
        let all = self.entries();
        let r = select(&all, true, lower, upper);
        proof {
            assert forall|i: int| 0 <= i < r@.len() implies self@.dom().contains(#[trigger] r@[i].0@)
                && self@[r@[i].0@] == r@[i].1 && in_range(r@[i].0@, lower@, upper@) by {
                assert(has_entry(all@, r@[i]));
                let j = choose|j: int|
                    0 <= j < all@.len() && (#[trigger] all@[j]).0@ == r@[i].0@ && all@[j].1 == r@[i].1;
                assert(selected(r@[i].0@, true, lower@, upper@));
            }
            assert forall|k: Seq<u8>| #[trigger] self@.dom().contains(k) && in_range(
                k,
                lower@,
                upper@,
            ) implies exists|i: int| 0 <= i < r@.len() && r@[i].0@ == k by {
                let j = choose|j: int| 0 <= j < all@.len() && all@[j].0@ == k;
                let t = choose|t: int| 0 <= t < r@.len() && r@[t].0@ == (#[trigger] all@[j]).0@ && r@[t].1 == all@[j].1;
            }
        }
        r
    }

    /// The entries whose keys start with `prefix`, in ascending order of
    /// key.
    pub fn prefix(&self, prefix: &[u8]) -> (r: Vec<(Vec<u8>, u64)>)
        ensures
            forall|i: int|
                0 <= i < r@.len() ==> self@.dom().contains(#[trigger] r@[i].0@) && self@[r@[i].0@]
                    == r@[i].1 && has_prefix(r@[i].0@, prefix@),
            forall|k: Seq<u8>|
                #[trigger] self@.dom().contains(k) && has_prefix(k, prefix@) ==> exists|i: int|
                    0 <= i < r@.len() && r@[i].0@ == k,
            forall|i: int, j: int| 0 <= i < j < r@.len() ==> lex_lt(r@[i].0@, r@[j].0@),
    {
        let all = self.entries();
        let r = select(&all, false, prefix, prefix);
        proof {
            assert forall|i: int| 0 <= i < r@.len() implies self@.dom().contains(#[trigger] r@[i].0@)
                && self@[r@[i].0@] == r@[i].1 && has_prefix(r@[i].0@, prefix@) by {
                assert(has_entry(all@, r@[i]));
                let j = choose|j: int|
                    0 <= j < all@.len() && (#[trigger] all@[j]).0@ == r@[i].0@ && all@[j].1 == r@[i].1;
                assert(selected(r@[i].0@, false, prefix@, prefix@));
            }
            assert forall|k: Seq<u8>| #[trigger] self@.dom().contains(k) && has_prefix(
                k,
                prefix@,
            ) implies exists|i: int| 0 <= i < r@.len() && r@[i].0@ == k by {
                let j = choose|j: int| 0 <= j < all@.len() && all@[j].0@ == k;
                let t = choose|t: int| 0 <= t < r@.len() && r@[t].0@ == (#[trigger] all@[j]).0@ && r@[t].1 == all@[j].1;
            }
        }
        r
    }
}

/// A read gives back the last write of its key: after an insertion, the
/// key maps to the inserted value; after a removal, to nothing; every
/// other key keeps what it mapped to.
pub proof fn law_read_after_write(m: Map<Seq<u8>, u64>, key: Seq<u8>, value: u64, other: Seq<u8>)
    requires
        other != key,
    ensures
        m.insert(key, value).dom().contains(key),
        m.insert(key, value)[key] == value,
        !m.remove(key).dom().contains(key),
        m.insert(key, value).dom().contains(other) == m.dom().contains(other),
        m.remove(key).dom().contains(other) == m.dom().contains(other),
        m.dom().contains(other) ==> m.insert(key, value)[other] == m[other] && m.remove(key)[other]
            == m[other],
{
}

} // verus!
