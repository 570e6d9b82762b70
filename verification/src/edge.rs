//! Edge compression metadata: the key bytes compressed along an edge,
//! and whether the edge's child is a value and whether the edge is frozen.
//!
//! [`Le`] and [`Be`] pack up to seven key bytes and the flags into a `u64`;
//! [`Slice`] refers to a stretch of a key held elsewhere.

pub mod be;
pub mod fat;
pub mod le;
pub mod slice;

pub use be::Be;
pub use fat::Child;
pub use fat::Edge;
pub use fat::Meta;
pub use le::Le;
pub use slice::Slice;

use core::cmp::Ordering;
use vstd::prelude::*;

verus! {

/// What an edge's metadata means: the compressed key bytes and two flags.
pub ghost struct MetaView {
    /// Key bytes compressed along the edge.
    pub bytes: Seq<u8>,
    /// Whether the edge's child is a value (rather than a node).
    pub value: bool,
    /// Whether the edge is frozen against concurrent modification.
    pub frozen: bool,
}

/// Joining `parent`, `byte` and `child` into a single edge: the bytes are
/// concatenated, and the flags are those of `child`.
pub open spec fn compress_view(parent: MetaView, byte: u8, child: MetaView) -> MetaView {
    MetaView {
        bytes: parent.bytes.push(byte) + child.bytes,
        value: child.value,
        frozen: child.frozen,
    }
}

/// Splitting `meta` at byte `index`: the parent takes the bytes before
/// `index` and no flags, the byte at `index` is split out, and the child
/// takes the remaining bytes and the flags of `meta`.
pub open spec fn expand_view(meta: MetaView, index: nat) -> (MetaView, u8, MetaView) {
    (
        MetaView { bytes: meta.bytes.take(index as int), value: false, frozen: false },
        meta.bytes[index as int],
        MetaView {
            bytes: meta.bytes.skip(index as int + 1),
            value: meta.value,
            frozen: meta.frozen,
        },
    )
}

/// Lexicographic order of byte sequences (a proper prefix is smaller).
pub open spec fn lex_order(a: Seq<u8>, b: Seq<u8>) -> Ordering
    decreases a.len(),
{
    if a.len() == 0 {
        if b.len() == 0 {
            Ordering::Equal
        } else {
            Ordering::Less
        }
    } else if b.len() == 0 {
        Ordering::Greater
    } else if a[0] < b[0] {
        Ordering::Less
    } else if a[0] > b[0] {
        Ordering::Greater
    } else {
        lex_order(a.drop_first(), b.drop_first())
    }
}

/// The opposite order.
pub open spec fn flip(o: Ordering) -> Ordering {
    match o {
        Ordering::Less => Ordering::Greater,
        Ordering::Equal => Ordering::Equal,
        Ordering::Greater => Ordering::Less,
    }
}

/// Two byte sequences compare equal exactly when they are equal.
pub proof fn lemma_lex_order_equal(a: Seq<u8>, b: Seq<u8>)
    ensures
        (lex_order(a, b) == Ordering::Equal) <==> a == b,
    decreases a.len(),
{
    if a.len() == 0 && b.len() == 0 {
        assert(a =~= b);
    }
    if a.len() > 0 && b.len() > 0 && a[0] == b[0] {
        lemma_lex_order_equal(a.drop_first(), b.drop_first());
        if a.drop_first() == b.drop_first() {
            assert(a =~= seq![a[0]] + a.drop_first());
            assert(b =~= seq![b[0]] + b.drop_first());
        }
        if a == b {
            assert(a.drop_first() =~= b.drop_first());
        }
    }
}

/// Comparing in the other direction gives the opposite order.
pub proof fn lemma_lex_order_flip(a: Seq<u8>, b: Seq<u8>)
    ensures
        lex_order(a, b) == flip(lex_order(b, a)),
    decreases a.len(),
{
    if a.len() > 0 && b.len() > 0 && a[0] == b[0] {
        lemma_lex_order_flip(a.drop_first(), b.drop_first());
    }
}

/// `a` and `b` agree on their first `i` bytes and differ at byte `i`, which
/// both have.
pub open spec fn first_difference(a: Seq<u8>, b: Seq<u8>, i: int) -> bool {
    &&& 0 <= i < a.len()
    &&& i < b.len()
    &&& a[i] != b[i]
    &&& forall|j: int| 0 <= j < i ==> a[j] == b[j]
}

/// `a` is a proper prefix of `b`.
pub open spec fn proper_prefix(a: Seq<u8>, b: Seq<u8>) -> bool {
    &&& a.len() < b.len()
    &&& forall|j: int| 0 <= j < a.len() ==> a[j] == b[j]
}

/// Edge order is decided by the first byte at which two byte sequences
/// differ, whatever their lengths: the sequence with the smaller byte there
/// is the smaller one.
pub proof fn law_lex_order_first_difference(a: Seq<u8>, b: Seq<u8>, i: int)
    requires
        first_difference(a, b, i),
    ensures
        lex_order(a, b) == (if a[i] < b[i] {
            Ordering::Less
        } else {
            Ordering::Greater
        }),
    decreases i,
{
    if i > 0 {
        assert(a[0] == b[0]);
        let (a1, b1) = (a.drop_first(), b.drop_first());
        assert forall|j: int| 0 <= j < i - 1 implies a1[j] == b1[j] by {
            assert(a[j + 1] == b[j + 1]);
        }
        assert(first_difference(a1, b1, i - 1));
        law_lex_order_first_difference(a1, b1, i - 1);
    }
}

/// A proper prefix comes before the longer sequence, and the longer
/// sequence after it.
pub proof fn law_lex_order_proper_prefix(a: Seq<u8>, b: Seq<u8>)
    requires
        proper_prefix(a, b),
    ensures
        lex_order(a, b) == Ordering::Less,
        lex_order(b, a) == Ordering::Greater,
    decreases a.len(),
{
    if a.len() > 0 {
        assert(a[0] == b[0]);
        let (a1, b1) = (a.drop_first(), b.drop_first());
        assert forall|j: int| 0 <= j < a1.len() implies a1[j] == b1[j] by {
            assert(a[j + 1] == b[j + 1]);
        }
        law_lex_order_proper_prefix(a1, b1);
    }
}

/// The bytes of `s` from index `i` on.
pub open spec fn suffix_from(s: Seq<u8>, i: usize) -> Seq<u8> {
    s.skip(i as int)
}

/// Compare two byte sequences lexicographically.
pub fn compare_bytes(a: &[u8], b: &[u8]) -> (r: Ordering)
    ensures
        r == lex_order(a@, b@),
        forall|i: int|
            #[trigger] first_difference(a@, b@, i) ==> (r == Ordering::Less <==> a@[i] < b@[i]),
        proper_prefix(a@, b@) ==> r == Ordering::Less,
        proper_prefix(b@, a@) ==> r == Ordering::Greater,
{
    let mut i: usize = 0;
    assert(suffix_from(a@, 0) =~= a@);
    assert(suffix_from(b@, 0) =~= b@);
    while i < a.len() && i < b.len() && a[i] == b[i]
        invariant
            i <= a.len(),
            i <= b.len(),
            lex_order(a@, b@) == lex_order(suffix_from(a@, i), suffix_from(b@, i)),
        decreases a.len() - i,
    {
        assert(suffix_from(a@, i).drop_first() =~= a@.skip(i + 1));
        assert(suffix_from(b@, i).drop_first() =~= b@.skip(i + 1));
        i = i + 1;
    }
    let r = if i == a.len() {
        if i == b.len() {
            Ordering::Equal
        } else {
            Ordering::Less
        }
    } else if i == b.len() {
        Ordering::Greater
    } else if a[i] < b[i] {
        Ordering::Less
    } else {
        Ordering::Greater
    };
    proof {
        assert forall|k: int| #[trigger] first_difference(a@, b@, k) implies (r == Ordering::Less
            <==> a@[k] < b@[k]) by {
            law_lex_order_first_difference(a@, b@, k);
        }
        if proper_prefix(a@, b@) {
            law_lex_order_proper_prefix(a@, b@);
        }
        if proper_prefix(b@, a@) {
            law_lex_order_proper_prefix(b@, a@);
        }
    }
    r
}

/// Whether two byte sequences are equal.
pub fn equal_bytes(a: &[u8], b: &[u8]) -> (r: bool)
    ensures
        r <==> a@ == b@,
{
    if a.len() != b.len() {
        return false;
    }
    let mut i: usize = 0;
    while i < a.len()
        invariant
            i <= a.len(),
            a.len() == b.len(),
            a@.take(i as int) == b@.take(i as int),
        decreases a.len() - i,
    {
        if a[i] != b[i] {
            return false;
        }
        assert(a@.take(i + 1) =~= a@.take(i as int).push(a@[i as int]));
        assert(b@.take(i + 1) =~= b@.take(i as int).push(b@[i as int]));
        i = i + 1;
    }
    assert(a@ =~= a@.take(i as int));
    assert(b@ =~= b@.take(i as int));
    true
}

/// An expansion followed by a compression gives back the same edge, and
/// the compression always fits.
pub proof fn law_expand_compress_inverse(meta: MetaView, index: nat)
    requires
        index < meta.bytes.len(),
        meta.bytes.len() <= 7,
    ensures
        ({
            let (parent, byte, child) = expand_view(meta, index);
            &&& !parent.frozen
            &&& !parent.value
            &&& parent.bytes.len() + 1 + child.bytes.len() <= 7
            &&& compress_view(parent, byte, child) == meta
        }),
{
    let (parent, byte, child) = expand_view(meta, index);
    assert(parent.bytes.push(byte) + child.bytes =~= meta.bytes);
}

/// An expansion preserves the total number of key bytes, keeps the flags
/// in the child edge, and leaves the parent edge without flags.
pub proof fn law_expand_correct(meta: MetaView, index: nat)
    requires
        index < meta.bytes.len(),
    ensures
        ({
            let (parent, byte, child) = expand_view(meta, index);
            &&& meta.bytes.len() == parent.bytes.len() + 1 + child.bytes.len()
            &&& child.frozen == meta.frozen
            &&& child.value == meta.value
            &&& !parent.frozen
            &&& !parent.value
        }),
{
}

/// Edge order is reflexive, consistent with edge equality, and comparing in
/// the other direction gives the opposite order.
pub proof fn law_edge_order(a: MetaView, b: MetaView)
    ensures
        lex_order(a.bytes, a.bytes) == Ordering::Equal,
        (lex_order(a.bytes, b.bytes) == Ordering::Equal) <==> a.bytes == b.bytes,
        lex_order(a.bytes, b.bytes) == flip(lex_order(b.bytes, a.bytes)),
{
    lemma_lex_order_equal(a.bytes, a.bytes);
    lemma_lex_order_equal(a.bytes, b.bytes);
    lemma_lex_order_flip(a.bytes, b.bytes);
}

/// Edge order ignores the value and frozen flags.
pub proof fn law_edge_order_ignores_flags(a: MetaView, b: MetaView, value: bool, frozen: bool)
    ensures
        lex_order(MetaView { value, frozen, ..a }.bytes, b.bytes) == lex_order(a.bytes, b.bytes),
{
}

} // verus!
