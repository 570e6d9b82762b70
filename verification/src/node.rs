//! A node is a partial map from key byte to edge. Each node representation
//! has a header that maps key bytes to slots of its edge array.
//!
//! A header means a sequence of distinct key bytes (slot `i` holds the key
//! byte at position `i`) and a frozen flag. Slots are handed out in order:
//! a new key byte takes the next free slot, unless the header is full or
//! frozen.


pub mod iter;
pub mod node_15;
pub mod node_256;
pub mod node_3;
pub mod node_47;

pub use node_15::Node15Header;
pub use node_256::Node256;
pub use node_3::Node3Header;
pub use node_47::Node47Header;

use vstd::prelude::*;

use crate::edge::compress_view;
use crate::edge::fat::EdgeView;
use crate::edge::Edge;
use crate::edge::Le;
use crate::edge::MetaView;
use crate::raw::Smo;

verus! {

/// What a node header means.
pub ghost struct HeaderView {
    /// Key byte of each slot, in slot order.
    pub keys: Seq<u8>,
    /// Whether the header is frozen against insertions.
    pub frozen: bool,
}

/// Slot of a key byte, and the key byte itself.
#[derive(Clone, Copy, Debug, PartialEq, Eq, Structural)]
pub struct KeyIndex {
    /// Key byte.
    pub key: u8,
    /// Slot within the node's edge array.
    pub index: u8,
}

/// The slot holding `key`, if any.
pub open spec fn get_spec(v: HeaderView, key: u8) -> Option<u8> {
    if v.keys.contains(key) {
        Some((choose|i: int| 0 <= i < v.keys.len() && v.keys[i] == key) as u8)
    } else {
        None
    }
}

/// Outcome of looking up `key`, inserting it into the next slot if it is
/// absent and the header (of capacity `cap`) is neither full nor frozen.
pub open spec fn get_or_insert_spec(v: HeaderView, cap: nat, key: u8) -> (Option<u8>, HeaderView) {
    if v.keys.contains(key) {
        (get_spec(v, key), v)
    } else if v.keys.len() >= cap || v.frozen {
        (None, v)
    } else {
        (Some(v.keys.len() as u8), HeaderView { keys: v.keys.push(key), frozen: v.frozen })
    }
}

/// Slots whose key bytes lie in `lower..=upper`, in slot order.
pub open spec fn keys_spec(v: HeaderView, lower: u8, upper: u8) -> Seq<KeyIndex>
    decreases v.keys.len(),
{
    if v.keys.len() == 0 {
        Seq::empty()
    } else {
        let init = HeaderView { keys: v.keys.drop_last(), frozen: v.frozen };
        let last = v.keys.last();
        if lower <= last && last <= upper {
            keys_spec(init, lower, upper).push(
                KeyIndex { key: last, index: (v.keys.len() - 1) as u8 },
            )
        } else {
            keys_spec(init, lower, upper)
        }
    }
}

/// Whether `v` is a well-formed header of capacity `cap`: its key bytes are
/// distinct and fit.
pub open spec fn header_wf(v: HeaderView, cap: nat) -> bool {
    &&& v.keys.no_duplicates()
    &&& v.keys.len() <= cap
    &&& cap <= 256
}

/// The slot of a key byte that is present.
pub proof fn lemma_get_present(v: HeaderView, cap: nat, i: int)
    requires
        header_wf(v, cap),
        0 <= i < v.keys.len(),
    ensures
        get_spec(v, v.keys[i]) == Some(i as u8),
{
    let key = v.keys[i];
    assert(v.keys.contains(key));
    let j = choose|j: int| 0 <= j < v.keys.len() && v.keys[j] == key;
    assert(j == i);
}

/// A successful `get` means `get_or_insert` returns the same slot and
/// leaves the header unchanged.
pub proof fn law_get_implies_get_or_insert(v: HeaderView, cap: nat, key: u8)
    requires
        header_wf(v, cap),
        get_spec(v, key) is Some,
    ensures
        get_or_insert_spec(v, cap, key) == (get_spec(v, key), v),
{
}

/// A successful `get_or_insert` means `get` then returns the same slot, and
/// the header stays well formed.
pub proof fn law_get_or_insert_implies_get(v: HeaderView, cap: nat, key: u8)
    requires
        header_wf(v, cap),
        get_or_insert_spec(v, cap, key).0 is Some,
    ensures
        get_spec(get_or_insert_spec(v, cap, key).1, key) == get_or_insert_spec(v, cap, key).0,
        header_wf(get_or_insert_spec(v, cap, key).1, cap),
{
    if !v.keys.contains(key) {
        let w = get_or_insert_spec(v, cap, key).1;
        assert(w.keys[v.keys.len() as int] == key);
        assert forall|a: int, b: int| 0 <= a < w.keys.len() && 0 <= b < w.keys.len() && a != b
            implies #[trigger] w.keys[a] != #[trigger] w.keys[b] by {
            if a == v.keys.len() && w.keys[b] == key {
                assert(v.keys[b] == key);
            }
            if b == v.keys.len() && w.keys[a] == key {
                assert(v.keys[a] == key);
            }
        }
        lemma_get_present(w, cap, v.keys.len() as int);
    }
}

/// Consecutive `get_or_insert` calls for the same key byte return the same
/// slot, and the second leaves the header unchanged.
pub proof fn law_get_or_insert_idempotent(v: HeaderView, cap: nat, key: u8)
    requires
        header_wf(v, cap),
    ensures
        ({
            let (first, w) = get_or_insert_spec(v, cap, key);
            get_or_insert_spec(w, cap, key) == (first, w)
        }),
{
    let (first, w) = get_or_insert_spec(v, cap, key);
    if first is Some {
        law_get_or_insert_implies_get(v, cap, key);
        if !v.keys.contains(key) {
            assert(w.keys[v.keys.len() as int] == key);
            assert(w.keys.contains(key));
        }
    }
}

/// Freezing prevents insertion: on a frozen header, `get_or_insert` finds
/// exactly what `get` finds, and changes nothing.
pub proof fn law_freeze_no_insert(v: HeaderView, cap: nat, key: u8)
    requires
        v.frozen,
    ensures
        get_or_insert_spec(v, cap, key) == (get_spec(v, key), v),
{
}

/// Two `get_or_insert` calls for different key bytes, one after the other,
/// are consistent: a key byte already present keeps its slot; a new one
/// takes the next free slot (the second after the first's, if both are
/// new); and one fails only on a frozen or full header.
pub proof fn law_get_or_insert_different_consistent(v: HeaderView, cap: nat, a: u8, b: u8)
    requires
        header_wf(v, cap),
        a != b,
    ensures
        ({
            let (ra, w) = get_or_insert_spec(v, cap, a);
            let (rb, _) = get_or_insert_spec(w, cap, b);
            let n = v.keys.len();
            let inserted_a = get_spec(v, a) is None && ra is Some;
            &&& get_spec(v, a) is Some ==> ra == get_spec(v, a)
            &&& get_spec(v, b) is Some ==> rb == get_spec(v, b)
            &&& inserted_a ==> ra == Some(n as u8)
            &&& get_spec(v, b) is None && rb is Some ==> rb == Some(
                (if inserted_a {
                    n + 1
                } else {
                    n
                }) as u8,
            )
            &&& get_spec(v, a) is None && ra is None ==> v.frozen || n >= cap
            &&& get_spec(v, b) is None && rb is None ==> v.frozen || (if inserted_a {
                n + 1
            } else {
                n
            }) >= cap
        }),
{
    let (ra, w) = get_or_insert_spec(v, cap, a);
    if get_spec(v, a) is Some || ra is None {
        assert(w == v);
    } else {
        law_get_or_insert_implies_get(v, cap, a);
        assert(w.keys == v.keys.push(a));
        if v.keys.contains(b) {
            let i = choose|i: int| 0 <= i < v.keys.len() && v.keys[i] == b;
            lemma_get_present(v, cap, i);
            lemma_get_present(w, cap, i);
        } else {
            assert(!w.keys.contains(b)) by {
                if w.keys.contains(b) {
                    let i = choose|i: int| 0 <= i < w.keys.len() && w.keys[i] == b;
                    if i < v.keys.len() {
                        assert(v.keys[i] == b);
                    }
                }
            }
        }
    }
}

/// After an insertion by `get_or_insert`, `keys` lists what it listed
/// before and then the new entry, if its key byte lies within the bounds;
/// after a `get_or_insert` that inserts nothing, the header is unchanged.
pub proof fn law_get_or_insert_extends_keys(v: HeaderView, cap: nat, key: u8, lower: u8, upper: u8)
    requires
        header_wf(v, cap),
    ensures
        ({
            let (r, w) = get_or_insert_spec(v, cap, key);
            let e = KeyIndex { key, index: v.keys.len() as u8 };
            &&& get_spec(v, key) is None && r is Some ==> keys_spec(w, lower, upper) == if lower
                <= key <= upper {
                keys_spec(v, lower, upper).push(e)
            } else {
                keys_spec(v, lower, upper)
            }
            &&& !(get_spec(v, key) is None && r is Some) ==> w == v
        }),
{
    let (r, w) = get_or_insert_spec(v, cap, key);
    if get_spec(v, key) is None && r is Some {
        let init = HeaderView { keys: w.keys.drop_last(), frozen: w.frozen };
        assert(init.keys =~= v.keys);
        assert(init == v);
    }
}

/// The entries of `keys_spec` hold key bytes within the bounds, in slots
/// of the header.
proof fn lemma_keys_spec(v: HeaderView, lower: u8, upper: u8)
    requires
        v.keys.len() <= 256,
    ensures
        forall|j: int|
            #![trigger keys_spec(v, lower, upper)[j]]
            0 <= j < keys_spec(v, lower, upper).len() ==> {
                let e = keys_spec(v, lower, upper)[j];
                &&& 0 <= e.index < v.keys.len()
                &&& v.keys[e.index as int] == e.key
                &&& lower <= e.key <= upper
            },
        forall|a: int, b: int|
            0 <= a < b < keys_spec(v, lower, upper).len() ==> keys_spec(v, lower, upper)[a].index
                < keys_spec(v, lower, upper)[b].index,
        keys_spec(v, lower, upper).len() <= v.keys.len(),
    decreases v.keys.len(),
{
    if v.keys.len() > 0 {
        let init = HeaderView { keys: v.keys.drop_last(), frozen: v.frozen };
        lemma_keys_spec(init, lower, upper);
        let prev = keys_spec(init, lower, upper);
        let ks = keys_spec(v, lower, upper);
        let last = v.keys.last();
        if lower <= last && last <= upper {
            let e = KeyIndex { key: last, index: (v.keys.len() - 1) as u8 };
            assert(ks == prev.push(e));
            assert forall|j: int| #![trigger ks[j]] 0 <= j < ks.len() implies {
                let e = ks[j];
                &&& 0 <= e.index < v.keys.len()
                &&& v.keys[e.index as int] == e.key
                &&& lower <= e.key <= upper
            } by {
                if j < prev.len() {
                    assert(ks[j] == prev[j]);
                    assert(init.keys[prev[j].index as int] == v.keys[prev[j].index as int]);
                }
            }
            assert forall|a: int, b: int| 0 <= a < b < ks.len() implies ks[a].index
                < ks[b].index by {
                assert(ks[a] == prev[a]);
                if b < prev.len() {
                    assert(ks[b] == prev[b]);
                }
            }
        } else {
            assert forall|j: int| #![trigger ks[j]] 0 <= j < ks.len() implies {
                let e = ks[j];
                &&& 0 <= e.index < v.keys.len()
                &&& v.keys[e.index as int] == e.key
                &&& lower <= e.key <= upper
            } by {
                assert(init.keys[prev[j].index as int] == v.keys[prev[j].index as int]);
            }
        }
    }
}

/// Every entry listed by `keys` is found by `get` and `get_or_insert` at the
/// listed slot, lies within the bounds, and no key byte or slot is listed
/// twice.
pub proof fn law_keys_get_consistent(v: HeaderView, cap: nat, lower: u8, upper: u8)
    requires
        header_wf(v, cap),
    ensures
        forall|j: int|
            #![trigger keys_spec(v, lower, upper)[j]]
            0 <= j < keys_spec(v, lower, upper).len() ==> {
                let e = keys_spec(v, lower, upper)[j];
                &&& get_spec(v, e.key) == Some(e.index)
                &&& get_or_insert_spec(v, cap, e.key) == (Some(e.index), v)
                &&& lower <= e.key <= upper
            },
        forall|a: int, b: int|
            0 <= a < keys_spec(v, lower, upper).len() && 0 <= b < keys_spec(v, lower, upper).len()
                && a != b ==> keys_spec(v, lower, upper)[a].index != keys_spec(
                v,
                lower,
                upper,
            )[b].index && keys_spec(v, lower, upper)[a].key != keys_spec(v, lower, upper)[b].key,
{
    lemma_keys_spec(v, lower, upper);
    let ks = keys_spec(v, lower, upper);
    assert forall|j: int| #![trigger ks[j]] 0 <= j < ks.len() implies {
        let e = ks[j];
        &&& get_spec(v, e.key) == Some(e.index)
        &&& get_or_insert_spec(v, cap, e.key) == (Some(e.index), v)
        &&& lower <= e.key <= upper
    } by {
        let e = ks[j];
        lemma_get_present(v, cap, e.index as int);
        assert((e.index as int) as u8 == e.index);
    }
    assert forall|a: int, b: int|
        0 <= a < ks.len() && 0 <= b < ks.len() && a != b implies ks[a].index != ks[b].index
        && ks[a].key != ks[b].key by {
        if a < b {
            assert(ks[a].index < ks[b].index);
        } else {
            assert(ks[b].index < ks[a].index);
        }
        assert(v.keys[ks[a].index as int] == ks[a].key);
        assert(v.keys[ks[b].index as int] == ks[b].key);
    }
}


/// Every slot whose key byte lies within the bounds is listed by
/// `keys_spec`.
proof fn lemma_keys_spec_complete(v: HeaderView, lower: u8, upper: u8, j: int)
    requires
        v.keys.len() <= 256,
        0 <= j < v.keys.len(),
        lower <= v.keys[j] <= upper,
    ensures
        keys_spec(v, lower, upper).contains(KeyIndex { key: v.keys[j], index: j as u8 }),
    decreases v.keys.len(),
{
    let init = HeaderView { keys: v.keys.drop_last(), frozen: v.frozen };
    let prev = keys_spec(init, lower, upper);
    let ks = keys_spec(v, lower, upper);
    let e = KeyIndex { key: v.keys[j], index: j as u8 };
    if j == v.keys.len() - 1 {
        assert(ks.last() == e);
    } else {
        lemma_keys_spec_complete(init, lower, upper, j);
        assert(init.keys[j] == v.keys[j]);
        let i = choose|i: int| 0 <= i < prev.len() && prev[i] == e;
        let last = v.keys.last();
        if lower <= last && last <= upper {
            assert(ks[i] == prev[i]);
        } else {
            assert(ks[i] == prev[i]);
        }
    }
}

/// Whether `r` is the entry with the least key byte that is at least
/// `lower`, or `None` if there is none.
pub open spec fn is_min_entry(v: HeaderView, lower: u8, r: Option<KeyIndex>) -> bool {
    match r {
        None => forall|j: int| 0 <= j < v.keys.len() ==> v.keys[j] < lower,
        Some(e) => {
            &&& 0 <= e.index < v.keys.len()
            &&& v.keys[e.index as int] == e.key
            &&& lower <= e.key
            &&& forall|j: int| 0 <= j < v.keys.len() && lower <= v.keys[j] ==> e.key <= v.keys[j]
        },
    }
}

/// Whether `r` is the entry with the greatest key byte that is at most
/// `upper`, or `None` if there is none.
pub open spec fn is_max_entry(v: HeaderView, upper: u8, r: Option<KeyIndex>) -> bool {
    match r {
        None => forall|j: int| 0 <= j < v.keys.len() ==> v.keys[j] > upper,
        Some(e) => {
            &&& 0 <= e.index < v.keys.len()
            &&& v.keys[e.index as int] == e.key
            &&& e.key <= upper
            &&& forall|j: int| 0 <= j < v.keys.len() && v.keys[j] <= upper ==> v.keys[j] <= e.key
        },
    }
}

/// The entry of `entries` with the least key byte (the first such), if any.
pub fn min_entry(entries: &Vec<KeyIndex>) -> (r: Option<KeyIndex>)
    ensures
        r is None <==> entries@.len() == 0,
        r matches Some(e) ==> entries@.contains(e) && forall|i: int|
            0 <= i < entries@.len() ==> e.key <= #[trigger] entries@[i].key,
{
    if entries.len() == 0 {
        return None;
    }
    let mut best = entries[0];
    let mut i: usize = 1;
    while i < entries.len()
        invariant
            1 <= i <= entries@.len(),
            entries@.contains(best),
            forall|j: int| 0 <= j < i ==> best.key <= #[trigger] entries@[j].key,
        decreases entries@.len() - i,
    {
        let e = entries[i];
        if e.key < best.key {
            best = e;
        }
        i = i + 1;
    }
    Some(best)
}

/// The entry of `entries` with the greatest key byte (the last such), if
/// any.
pub fn max_entry(entries: &Vec<KeyIndex>) -> (r: Option<KeyIndex>)
    ensures
        r is None <==> entries@.len() == 0,
        r matches Some(e) ==> entries@.contains(e) && forall|i: int|
            0 <= i < entries@.len() ==> #[trigger] entries@[i].key <= e.key,
{
    if entries.len() == 0 {
        return None;
    }
    let mut best = entries[0];
    let mut i: usize = 1;
    while i < entries.len()
        invariant
            1 <= i <= entries@.len(),
            entries@.contains(best),
            forall|j: int| 0 <= j < i ==> #[trigger] entries@[j].key <= best.key,
        decreases entries@.len() - i,
    {
        let e = entries[i];
        if e.key >= best.key {
            best = e;
        }
        i = i + 1;
    }
    Some(best)
}

/// The least entry of `keys_spec(v, lower, 255)` is the least entry at or
/// above `lower`.
pub proof fn lemma_min_of_keys(v: HeaderView, lower: u8, r: Option<KeyIndex>)
    requires
        v.keys.len() <= 256,
        r is None <==> keys_spec(v, lower, 255).len() == 0,
        r matches Some(e) ==> keys_spec(v, lower, 255).contains(e) && forall|i: int|
            0 <= i < keys_spec(v, lower, 255).len() ==> e.key <= #[trigger] keys_spec(
                v,
                lower,
                255,
            )[i].key,
    ensures
        is_min_entry(v, lower, r),
{
    lemma_keys_spec(v, lower, 255);
    let ks = keys_spec(v, lower, 255);
    match r {
        None => {
            assert forall|j: int| 0 <= j < v.keys.len() implies v.keys[j] < lower by {
                if v.keys[j] >= lower {
                    lemma_keys_spec_complete(v, lower, 255, j);
                    let i = choose|i: int| 0 <= i < ks.len() && ks[i] == KeyIndex { key: v.keys[j], index: j as u8 };
                }
            }
        },
        Some(e) => {
            let i = choose|i: int| 0 <= i < ks.len() && ks[i] == e;
            assert(ks[i] == e);
            assert forall|j: int| 0 <= j < v.keys.len() && lower <= v.keys[j] implies e.key
                <= v.keys[j] by {
                lemma_keys_spec_complete(v, lower, 255, j);
                let k = choose|k: int| 0 <= k < ks.len() && ks[k] == KeyIndex { key: v.keys[j], index: j as u8 };
                assert(e.key <= ks[k].key);
            }
        },
    }
}

/// The greatest entry of `keys_spec(v, 0, upper)` is the greatest entry at
/// or below `upper`.
pub proof fn lemma_max_of_keys(v: HeaderView, upper: u8, r: Option<KeyIndex>)
    requires
        v.keys.len() <= 256,
        r is None <==> keys_spec(v, 0, upper).len() == 0,
        r matches Some(e) ==> keys_spec(v, 0, upper).contains(e) && forall|i: int|
            0 <= i < keys_spec(v, 0, upper).len() ==> #[trigger] keys_spec(v, 0, upper)[i].key
                <= e.key,
    ensures
        is_max_entry(v, upper, r),
{
    lemma_keys_spec(v, 0, upper);
    let ks = keys_spec(v, 0, upper);
    match r {
        None => {
            assert forall|j: int| 0 <= j < v.keys.len() implies v.keys[j] > upper by {
                if v.keys[j] <= upper {
                    lemma_keys_spec_complete(v, 0, upper, j);
                    let i = choose|i: int| 0 <= i < ks.len() && ks[i] == KeyIndex { key: v.keys[j], index: j as u8 };
                }
            }
        },
        Some(e) => {
            let i = choose|i: int| 0 <= i < ks.len() && ks[i] == e;
            assert(ks[i] == e);
            assert forall|j: int| 0 <= j < v.keys.len() && v.keys[j] <= upper implies v.keys[j]
                <= e.key by {
                lemma_keys_spec_complete(v, 0, upper, j);
                let k = choose|k: int| 0 <= k < ks.len() && ks[k] == KeyIndex { key: v.keys[j], index: j as u8 };
                assert(ks[k].key <= e.key);
            }
        },
    }
}


/// Entries whose key bytes lie in `lower..n`, in ascending order of key
/// byte.
pub open spec fn by_key_upto(v: HeaderView, lower: u8, n: int) -> Seq<KeyIndex>
    decreases n,
{
    if n <= lower {
        Seq::empty()
    } else {
        let key = (n - 1) as u8;
        let prev = by_key_upto(v, lower, n - 1);
        if v.keys.contains(key) {
            prev.push(KeyIndex { key, index: get_spec(v, key)->0 })
        } else {
            prev
        }
    }
}

/// Entries whose key bytes lie in `lower..=upper`, in ascending order of
/// key byte.
pub open spec fn sorted_keys_spec(v: HeaderView, lower: u8, upper: u8) -> Seq<KeyIndex> {
    by_key_upto(v, lower, upper + 1)
}

/// One step of `by_key_upto`.
pub proof fn lemma_by_key_step(v: HeaderView, lower: u8, n: int)
    ensures
        by_key_upto(v, lower, n + 1) == (if n + 1 <= lower {
            Seq::empty()
        } else if v.keys.contains(n as u8) {
            by_key_upto(v, lower, n).push(KeyIndex { key: n as u8, index: get_spec(v, n as u8)->0 })
        } else {
            by_key_upto(v, lower, n)
        }),
        n <= lower ==> by_key_upto(v, lower, n) == Seq::<KeyIndex>::empty(),
{
}


/// Node representation, chosen by the number of entries a node holds.
#[derive(Clone, Copy, Debug, PartialEq, Eq, Structural)]
pub enum NodeType {
    /// At most 3 entries.
    Node3,
    /// At most 15 entries.
    Node15,
    /// At most 47 entries.
    Node47,
    /// Exactly 256 entries.
    Node256,
}

/// Capacity of each node representation.
pub open spec fn capacity_spec(t: NodeType) -> nat {
    match t {
        NodeType::Node3 => 3,
        NodeType::Node15 => 15,
        NodeType::Node47 => 47,
        NodeType::Node256 => 256,
    }
}

/// The two-bit tag of each node representation.
pub open spec fn tag_spec(t: NodeType) -> u8 {
    match t {
        NodeType::Node3 => 0,
        NodeType::Node15 => 1,
        NodeType::Node47 => 2,
        NodeType::Node256 => 3,
    }
}

impl NodeType {
    /// The number of entries the representation can hold.
    pub fn capacity(self) -> (r: usize)
        ensures
            r == capacity_spec(self),
    {
        match self {
            NodeType::Node3 => 3,
            NodeType::Node15 => 15,
            NodeType::Node47 => 47,
            NodeType::Node256 => 256,
        }
    }

    /// The smallest representation for `len` entries, or for one more than
    /// `len` when `grow` is set (a full node is assumed to keep growing).
    pub fn for_len(len: usize, grow: bool) -> (r: NodeType)
        requires
            len < usize::MAX,
        ensures
            ({
                let n = if grow { len + 1 } else { len as int };
                &&& r == NodeType::Node3 <==> n < 4
                &&& r == NodeType::Node15 <==> 4 <= n < 16
                &&& r == NodeType::Node47 <==> 16 <= n < 48
                &&& r == NodeType::Node256 <==> 48 <= n
            }),
    {
        let len = if grow {
            len + 1
        } else {
            len
        };
        if len < 4 {
            NodeType::Node3
        } else if len < 16 {
            NodeType::Node15
        } else if len < 48 {
            NodeType::Node47
        } else {
            NodeType::Node256
        }
    }

    /// The two-bit tag of this representation.
    pub fn into_tag(self) -> (r: u8)
        ensures
            r == tag_spec(self),
    {
        match self {
            NodeType::Node3 => 0,
            NodeType::Node15 => 1,
            NodeType::Node47 => 2,
            NodeType::Node256 => 3,
        }
    }

    /// The representation with two-bit tag `tag`: the high bit tells
    /// `Node3`/`Node15` from `Node47`/`Node256`, the low bit the smaller
    /// from the larger of each pair.
    pub fn from_tag(tag: u8) -> (r: NodeType)
        requires
            tag < 4,
        ensures
            tag_spec(r) == tag,
    {
        let hi = tag & 0b10;
        let lo = tag & 0b01;
        assert(hi == 0 <==> tag < 2) by (bit_vector)
            requires
                hi == tag & 2,
                tag < 4,
        ;
        assert(lo == 0 <==> tag % 2 == 0) by (bit_vector)
            requires
                lo == tag & 1,
                tag < 4,
        ;
        if hi == 0 {
            if lo == 0 {
                NodeType::Node3
            } else {
                NodeType::Node15
            }
        } else if lo == 0 {
            NodeType::Node47
        } else {
            NodeType::Node256
        }
    }
}

/// Reading a tag back gives the representation that wrote it.
pub proof fn law_tag_round_trip(t: NodeType, tag: u8)
    requires
        tag < 4,
    ensures
        tag == tag_spec(t) <==> (forall|r: NodeType| tag_spec(r) == tag ==> r == t),
{
    if tag == tag_spec(t) {
        assert forall|r: NodeType| tag_spec(r) == tag implies r == t by {
            match r {
                NodeType::Node3 => {},
                NodeType::Node15 => {},
                NodeType::Node47 => {},
                NodeType::Node256 => {},
            }
        }
    } else {
        let r = if tag == 0 {
            NodeType::Node3
        } else if tag == 1 {
            NodeType::Node15
        } else if tag == 2 {
            NodeType::Node47
        } else {
            NodeType::Node256
        };
        assert(tag_spec(r) == tag);
    }
}

/// The representation chosen for `len` entries can hold them.
pub proof fn law_for_len_fits(len: nat, t: NodeType)
    requires
        (t == NodeType::Node3 <==> len < 4),
        (t == NodeType::Node15 <==> 4 <= len < 16),
        (t == NodeType::Node47 <==> 16 <= len < 48),
        (t == NodeType::Node256 <==> 48 <= len),
        len <= 256,
    ensures
        len <= capacity_spec(t),
{
}

/// Whether an edge has no child (its frozen flag aside).
pub open spec fn is_null_view(e: EdgeView) -> bool {
    e.meta.bytes.len() == 0 && !e.meta.value && e.child == 0
}

/// The edge `e` with its frozen flag cleared.
pub open spec fn unfrozen_view(e: EdgeView) -> EdgeView {
    EdgeView { meta: MetaView { frozen: false, ..e.meta }, ..e }
}

/// The entries of a node that have a child, in order; their edges are
/// unfrozen if `frozen` (the node was frozen before its replacement).
pub open spec fn live_entries(keys: Seq<u8>, edges: Seq<EdgeView>, frozen: bool) -> Seq<(u8, EdgeView)>
    decreases keys.len(),
{
    if keys.len() == 0 || edges.len() == 0 {
        Seq::empty()
    } else {
        let rest = live_entries(keys.drop_last(), edges.drop_last(), frozen);
        let e = edges.last();
        if is_null_view(e) {
            rest
        } else {
            rest.push((keys.last(), if frozen { unfrozen_view(e) } else { e }))
        }
    }
}

/// The positions of the edges in `edges` that have a child, in order.
pub open spec fn live_indices(edges: Seq<EdgeView>) -> Seq<int>
    decreases edges.len(),
{
    if edges.len() == 0 {
        Seq::empty()
    } else {
        let rest = live_indices(edges.drop_last());
        if is_null_view(edges.last()) {
            rest
        } else {
            rest.push(edges.len() - 1)
        }
    }
}

/// The entry that a node's entry `(key, e)` becomes in its replacement.
pub open spec fn carried_entry(key: u8, e: EdgeView, frozen: bool) -> (u8, EdgeView) {
    (key, if frozen { unfrozen_view(e) } else { e })
}

/// A node's replacement keeps exactly its entries that have a child, in
/// their order: the `t`-th entry carried over is the entry at the `t`-th
/// position whose edge has a child, with its key byte (its edge unfrozen
/// if the node was frozen); every entry whose edge has a child is carried
/// over, and only null edges are dropped.
pub proof fn law_live_entries_keep_children(keys: Seq<u8>, edges: Seq<EdgeView>, frozen: bool)
    requires
        keys.len() == edges.len(),
    ensures
        live_entries(keys, edges, frozen).len() == live_indices(edges).len(),
        forall|t: int|
            0 <= t < live_indices(edges).len() ==> {
                let j = #[trigger] live_indices(edges)[t];
                &&& 0 <= j < edges.len()
                &&& !is_null_view(edges[j])
                &&& live_entries(keys, edges, frozen)[t] == carried_entry(keys[j], edges[j], frozen)
            },
        forall|t: int, u: int|
            0 <= t < u < live_indices(edges).len() ==> live_indices(edges)[t] < live_indices(
                edges,
            )[u],
        forall|j: int|
            0 <= j < edges.len() && !is_null_view(#[trigger] edges[j]) ==> live_indices(
                edges,
            ).contains(j),
    decreases edges.len(),
{
    if edges.len() > 0 {
        let (k1, e1) = (keys.drop_last(), edges.drop_last());
        law_live_entries_keep_children(k1, e1, frozen);
        let idx = live_indices(edges);
        let idx1 = live_indices(e1);
        assert forall|j: int| 0 <= j < edges.len() && !is_null_view(#[trigger] edges[j]) implies idx.contains(j) by {
            if j < edges.len() - 1 {
                assert(e1[j] == edges[j]);
                let t = choose|t: int| 0 <= t < idx1.len() && idx1[t] == j;
                assert(idx[t] == j);
            } else {
                assert(idx[idx.len() - 1] == j);
            }
        }
    }
}

/// The entries of a node to carry over into its replacement: each key byte
/// whose edge (loaded as `edges`, in the same order) has a child, the edge
/// unfrozen if `frozen`.
pub fn live_entries_of(keys: &[u8], edges: &[Edge<Le>], frozen: bool) -> (r: (Vec<u8>, Vec<Edge<Le>>))
    requires
        keys@.len() == edges@.len(),
    ensures
        r.0@.len() == r.1@.len(),
        r.0@.len() <= keys@.len(),
        live_entries(keys@, edges@.map_values(|e: Edge<Le>| e@), frozen) == Seq::new(
            r.0@.len(),
            |i: int| (r.0@[i], r.1@[i]@),
        ),
        forall|j: int|
            0 <= j < keys@.len() && !is_null_view(#[trigger] edges@[j]@) ==> exists|t: int|
                0 <= t < r.0@.len() && (r.0@[t], r.1@[t]@) == carried_entry(
                    keys@[j],
                    edges@[j]@,
                    frozen,
                ),
{
    let mut out_keys: Vec<u8> = Vec::new();
    let mut out_edges: Vec<Edge<Le>> = Vec::new();
    let ghost views = edges@.map_values(|e: Edge<Le>| e@);
    let mut i: usize = 0;
    while i < keys.len()
        invariant
            i <= keys@.len(),
            keys@.len() == edges@.len(),
            views == edges@.map_values(|e: Edge<Le>| e@),
            out_keys@.len() == out_edges@.len(),
            out_keys@.len() <= i,
            live_entries(keys@.take(i as int), views.take(i as int), frozen) == Seq::new(
                out_keys@.len(),
                |j: int| (out_keys@[j], out_edges@[j]@),
            ),
        decreases keys@.len() - i,
    {
        let key = keys[i];
        let edge = edges[i];
        proof {
            assert(keys@.take(i + 1).drop_last() =~= keys@.take(i as int));
            assert(views.take(i + 1).drop_last() =~= views.take(i as int));
            assert(views.take(i + 1).last() == edge@);
        }
        if !edge.is_null() {
            let kept = if frozen {
                edge.unfreeze()
            } else {
                edge
            };
            out_keys.push(key);
            out_edges.push(kept);
        }
        i = i + 1;
        proof {
            assert(Seq::new(out_keys@.len(), |j: int| (out_keys@[j], out_edges@[j]@)) =~= live_entries(
                keys@.take(i as int),
                views.take(i as int),
                frozen,
            ));
        }
    }
    proof {
        assert(keys@.take(i as int) =~= keys@);
        assert(views.take(i as int) =~= views);
        law_live_entries_keep_children(keys@, views, frozen);
        let live = live_entries(keys@, views, frozen);
        let idx = live_indices(views);
        assert forall|j: int|
            0 <= j < keys@.len() && !is_null_view(#[trigger] edges@[j]@) implies exists|t: int|
                0 <= t < out_keys@.len() && (out_keys@[t], out_edges@[t]@) == carried_entry(
                    keys@[j],
                    edges@[j]@,
                    frozen,
                ) by {
            assert(views[j] == edges@[j]@);
            let t = choose|t: int| 0 <= t < idx.len() && idx[t] == j;
            assert(live[t] == (out_keys@[t], out_edges@[t]@));
        }
    }
    (out_keys, out_edges)
}

/// How a node is replaced, given its live entries.
#[derive(Clone, Copy, Debug)]
pub enum Replacement {
    /// The node has no entries: its edge is cleared.
    Delete,
    /// The node has one entry, which the edge above it absorbs: the new
    /// edge.
    Compress(Edge<Le>),
    /// A new node with the entries is allocated; it is meant to grow if
    /// the old node was full.
    Allocate(bool),
}

impl Replacement {
    /// The structural modification this replacement performs.
    pub fn smo(self) -> (r: Smo)
        ensures
            r == match self {
                Replacement::Delete => Smo::DeleteNode,
                Replacement::Compress(_) => Smo::CompressEdge,
                Replacement::Allocate(_) => Smo::ReplaceNode,
            },
    {
        match self {
            Replacement::Delete => Smo::DeleteNode,
            Replacement::Compress(_) => Smo::CompressEdge,
            Replacement::Allocate(_) => Smo::ReplaceNode,
        }
    }
}

/// How to replace a node of capacity `capacity` whose edge has metadata
/// `meta`, given its live entries `keys` and `edges`: delete it if it has
/// none; absorb its single entry into the edge above if their key bytes
/// fit together; else allocate a new node, meant to grow if the old one
/// was full.
pub fn replace_decision(meta: Le, keys: &[u8], edges: &[Edge<Le>], capacity: usize) -> (r: Replacement)
    requires
        keys@.len() == edges@.len(),
        !meta@.frozen,
        !meta@.value,
    ensures
        keys@.len() == 0 ==> r is Delete,
        keys@.len() == 1 && meta@.bytes.len() + 1 + edges@[0]@.meta.bytes.len() <= 7 ==> (
        r matches Replacement::Compress(e) && e@ == (EdgeView {
            meta: compress_view(meta@, keys@[0], edges@[0]@.meta),
            child: edges@[0]@.child,
        })),
        keys@.len() > 1 || (keys@.len() == 1 && meta@.bytes.len() + 1 + edges@[0]@.meta.bytes.len()
            > 7) ==> r == Replacement::Allocate(keys@.len() == capacity),
{
    let len = keys.len();
    if len == 0 {
        return Replacement::Delete;
    } else if len == 1 {
        let key = keys[0];
        let edge = edges[0];
        if let Some(joined) = meta.try_compress(key, edge.meta()) {
            return Replacement::Compress(edge.with_meta(joined));
        }
    }
    Replacement::Allocate(len == capacity)
}

} // verus!
