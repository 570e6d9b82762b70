//! [`Be`] stores edge metadata for integers and big-endian systems.
//!
//! Layout of the packed word:
//! - bit 0: value flag
//! - bit 1: frozen flag
//! - bit 2: zero
//! - bits 3..6: length of the key bytes, in bits (a multiple of eight)
//! - bits 6..8: zero
//! - bits 8..64: up to seven key bytes, the first key byte highest

use core::cmp::Ordering;
use vstd::prelude::*;

use crate::edge::compare_bytes;
use crate::edge::compress_view;
use crate::edge::expand_view;
use crate::edge::lex_order;
use crate::edge::MetaView;
use crate::len::masked;
use crate::len::Bit;

verus! {

/// Flag bit: the child is a value.
pub const BE_MASK_VALUE: u64 = 1;

/// Flag bit: the edge is frozen.
pub const BE_MASK_FROZEN: u64 = 2;

/// The length field.
pub const BE_MASK_LEN: u64 = 0b11_1000;

/// The key bits of the word (everything above the low byte).
pub const BE_MASK_KEY: u64 = 0xFFFF_FFFF_FFFF_FF00;

/// Key byte `i` of the word `x`, counting from the most significant byte.
pub open spec fn be_byte(x: u64, i: nat) -> u8 {
    ((x >> (56 - 8 * i) as u64) & 0xff) as u8
}

/// Whether `raw` is a well-formed [`Be`] word: bits 2, 6 and 7 are zero, and
/// key bits below the top `len` bits are zero.
pub open spec fn be_wf(raw: u64) -> bool {
    &&& raw & 0b1100_0100 == 0
    &&& (raw & BE_MASK_KEY) & (0xffff_ffff_ffff_ffffu64 >> (raw & BE_MASK_LEN)) == 0
}

/// Length of the key bytes of `raw`, in bits.
pub open spec fn be_len(raw: u64) -> nat {
    (raw & BE_MASK_LEN) as nat
}

/// What the word `raw` means.
pub open spec fn be_view(raw: u64) -> MetaView {
    MetaView {
        bytes: Seq::new(be_len(raw) / 8, |i: int| be_byte(raw, i as nat)),
        value: raw & 1 == 1,
        frozen: (raw >> 1u64) & 1 == 1,
    }
}

/// Edge metadata storing compressed edge bytes starting at the most significant byte.
#[derive(Clone, Copy, Debug)]
pub struct Be {
    raw: u64,
}

impl View for Be {
    type V = MetaView;

    closed spec fn view(&self) -> MetaView {
        be_view(self.raw)
    }
}

/// Bit-level facts about one [`Be`] word `x` (or two, `x` and `y`).
pub(crate) proof fn lemma_be_word_bits(x: u64, y: u64, l: u64, k: u64, v: bool)
    by (bit_vector)
    ensures
        x & BE_MASK_LEN <= 56 && (x & BE_MASK_LEN) % 8 == 0,
        l <= 56 && l % 8 == 0 ==> ({
            let raw = (x & !(0xffff_ffff_ffff_ffffu64 >> l)) | l;
            raw & BE_MASK_LEN == l && raw & 0b1100_0100 == 0 && (raw & BE_MASK_KEY) & (
            0xffff_ffff_ffff_ffffu64 >> l) == 0 && raw & 1 != 1 && (raw >> 1u64) & 1 != 1
        }),
        k + l >= 64 && k <= 56 && l <= 56 ==> ((((x & !(0xffff_ffff_ffff_ffffu64 >> l)) | l) >> k)
            & 0xff) == ((x >> k) & 0xff),
        0u64 & BE_MASK_LEN == 0 && 0u64 & 0b1100_0100 == 0 && (0u64 & BE_MASK_KEY) & (
        0xffff_ffff_ffff_ffffu64 >> 0u64) == 0 && 0u64 & 1 != 1 && (0u64 >> 1u64) & 1 != 1,
        (x & BE_MASK_VALUE > 0) == (x & 1 == 1),
        (x & BE_MASK_FROZEN > 0) == ((x >> 1u64) & 1 == 1),
        ({
            let new = if v {
                x | BE_MASK_VALUE
            } else {
                x & !BE_MASK_VALUE
            };
            new & !3u64 == x & !3u64 && (new >> 1u64) & 1 == (x >> 1u64) & 1 && ((new & 1 == 1) == v)
        }),
        ({
            let new = if v {
                x | BE_MASK_FROZEN
            } else {
                x & !BE_MASK_FROZEN
            };
            new & !3u64 == x & !3u64 && new & 1 == x & 1 && (((new >> 1u64) & 1 == 1) == v)
        }),
        ((x >> k) as u8) == (((x >> k) & 0xff) as u8),
        (x as u8) == (((x >> 0u64) & 0xff) as u8),
        y & !3u64 == x & !3u64 ==> y & BE_MASK_LEN == x & BE_MASK_LEN && y & 0b1100_0100 == x
            & 0b1100_0100 && y & BE_MASK_KEY == x & BE_MASK_KEY,
        8 <= k <= 56 && y & BE_MASK_KEY == x & BE_MASK_KEY ==> ((y >> k) & 0xff) == ((x >> k)
            & 0xff),
        ((x ^ y) & !(BE_MASK_VALUE | BE_MASK_FROZEN)) == 0 ==> x & !3u64 == y & !3u64,
        (x & BE_MASK_LEN == 0 && x & 1 != 1 && (x >> 1u64) & 1 != 1 && x & 0b1100_0100 == 0 && (x
            & BE_MASK_KEY) & (0xffff_ffff_ffff_ffffu64 >> (x & BE_MASK_LEN)) == 0) ==> x == 0,
{
}

/// Bit-level facts about joining the words `p` and `c` around the byte `b`
/// (`lp` bits of `p`, `l` bits in all), and about taking the child word
/// of `p` from bit `lp` on (`l` bits of it).
#[verifier::rlimit(100)]
proof fn lemma_be_join_bits(p: u64, b: u64, c: u64, lp: u64, l: u64, k: u64)
    by (bit_vector)
    ensures
        ({
            let raw = (p | (b << (56 - lp) as u64) | (c >> (lp + 8) as u64)) & !(
            0xffff_ffff_ffff_ffffu64 >> l) | l | (c & (BE_MASK_VALUE | BE_MASK_FROZEN));
            &&& l <= 56 && l % 8 == 0 ==> raw & BE_MASK_LEN == l && raw & 0b1100_0100 == 0 && (raw
                & BE_MASK_KEY) & (0xffff_ffff_ffff_ffffu64 >> l) == 0 && raw & 1 == c & 1 && (raw
                >> 1u64) & 1 == (c >> 1u64) & 1
            &&& k + lp >= 64 && k <= 56 && lp + 8 <= l && l <= 56 && b < 256 ==> (raw >> k) & 0xff
                == (p >> k) & 0xff
            &&& lp + 8 <= l && l <= 56 && b < 256 && (p & BE_MASK_KEY) & (0xffff_ffff_ffff_ffffu64
                >> lp) == 0 ==> (raw >> (56 - lp) as u64) & 0xff == b
            &&& k + lp + 8 <= 56 && k + l >= 64 && l <= 56 && b < 256 && (p & BE_MASK_KEY) & (
            0xffff_ffff_ffff_ffffu64 >> lp) == 0 ==> (raw >> k) & 0xff == (c >> (k + lp + 8) as u64)
                & 0xff
        }),
        ({
            let child = (p << lp) & !(0xffff_ffff_ffff_ffffu64 >> l) | l | (p & (BE_MASK_VALUE
                | BE_MASK_FROZEN));
            &&& l <= 56 && l % 8 == 0 ==> child & BE_MASK_LEN == l && child & 0b1100_0100 == 0 && (
            child & BE_MASK_KEY) & (0xffff_ffff_ffff_ffffu64 >> l) == 0 && child & 1 == p & 1 && (
            child >> 1u64) & 1 == (p >> 1u64) & 1
            &&& lp + l <= 56 && k <= 56 && k + l >= 64 ==> (child >> k) & 0xff == (p >> (k - lp)
                as u64) & 0xff
        }),
{
}

/// The length field is a multiple of eight of at most 56.
pub proof fn lemma_len_bits(raw: u64)
    ensures
        raw & BE_MASK_LEN <= 56,
        (raw & BE_MASK_LEN) % 8 == 0,
{
    lemma_be_word_bits(raw, 0, 0, 0, false);
}

proof fn lemma_new(value: u64, l: u64, raw: u64)
    requires
        l <= 56,
        l % 8 == 0,
        raw == (value & !(0xffff_ffff_ffff_ffffu64 >> l)) | l,
    ensures
        be_wf(raw),
        be_len(raw) == l,
        forall|i: int| 0 <= i < l / 8 ==> #[trigger] be_byte(raw, i as nat) == be_byte(value, i as nat),
        raw & 1 != 1,
        (raw >> 1u64) & 1 != 1,
{
    lemma_be_word_bits(value, 0, l, 0, false);
    assert forall|i: int| 0 <= i < l / 8 implies #[trigger] be_byte(raw, i as nat) == be_byte(
        value,
        i as nat,
    ) by {
        let k = (56 - 8 * i) as u64;
        lemma_be_word_bits(value, 0, l, k, false);
    }
}

/// `!(u64::MAX >> len)`, the mask of the top `len` bits.
fn mask(len: Bit<56>) -> (r: u64)
    ensures
        r == !(0xffff_ffff_ffff_ffffu64 >> (len@ as u64)),
{
    let l = len.into_u8() as u64;
    !(u64::MAX >> l)
}

impl Be {
    #[verifier::type_invariant]
    closed spec fn inv(self) -> bool {
        be_wf(self.raw)
    }

    /// Metadata holding the `len / 8` most significant bytes of `value`,
    /// with both flags clear.
    pub fn new(value: u64, len: Bit<56>) -> (r: Self)
        requires
            len@ % 8 == 0,
        ensures
            r@.bytes == Seq::new(len@ / 8, |i: int| be_byte(value, i as nat)),
            !r@.value,
            !r@.frozen,
    {
        let l = len.into_u8() as u64;
        let raw = value & mask(len) | l;
        proof {
            lemma_new(value, l, raw);
            assert(be_view(raw).bytes =~= Seq::new(len@ / 8, |i: int| be_byte(value, i as nat)));
        }
        Be { raw }
    }

    /// The null edge: no key bytes and no flags.
    pub fn null() -> (r: Self)
        ensures
            r@.bytes.len() == 0,
            !r@.value,
            !r@.frozen,
    {
        proof {
            lemma_be_word_bits(0, 0, 0, 0, false);
        }
        Be { raw: 0 }
    }

    /// Length of the key bytes, in bits.
    pub fn len(self) -> (r: Bit<56>)
        ensures
            r@ == 8 * self@.bytes.len(),
    {
        let raw = self.raw;
        proof {
            lemma_len_bits(raw);
        }
        let len = (raw & BE_MASK_LEN) as u8;
        Bit::new_unchecked(len)
    }

    /// Whether the child pointer is a value.
    pub fn is_value(self) -> (r: bool)
        ensures
            r == self@.value,
    {
        let raw = self.raw;
        proof {
            lemma_be_word_bits(raw, 0, 0, 0, false);
        }
        raw & BE_MASK_VALUE > 0
    }

    /// Whether this edge is frozen.
    pub fn is_frozen(self) -> (r: bool)
        ensures
            r == self@.frozen,
    {
        let raw = self.raw;
        proof {
            lemma_be_word_bits(raw, 0, 0, 0, false);
        }
        raw & BE_MASK_FROZEN > 0
    }

    /// Set or clear the value flag.
    pub fn with_value(self, value: bool) -> (r: Self)
        ensures
            r@ == (MetaView { value, ..self@ }),
    {
        proof {
            use_type_invariant(&self);
        }
        let raw = self.raw;
        let new = if value {
            raw | BE_MASK_VALUE
        } else {
            raw & !BE_MASK_VALUE
        };
        proof {
            lemma_be_word_bits(raw, 0, 0, 0, value);
            lemma_same_key_bits(raw, new);
        }
        Be { raw: new }
    }

    /// Set or clear the frozen flag.
    pub fn with_frozen(self, frozen: bool) -> (r: Self)
        ensures
            r@ == (MetaView { frozen, ..self@ }),
    {
        proof {
            use_type_invariant(&self);
        }
        let raw = self.raw;
        let new = if frozen {
            raw | BE_MASK_FROZEN
        } else {
            raw & !BE_MASK_FROZEN
        };
        proof {
            lemma_be_word_bits(raw, 0, 0, 0, frozen);
            lemma_same_key_bits(raw, new);
        }
        Be { raw: new }
    }

    /// The packed word.
    pub fn into_raw(self) -> (r: u64)
        ensures
            be_view(r) == self@,
            be_wf(r),
            r == self.into_raw_spec(),
    {
        proof {
            use_type_invariant(&self);
        }
        self.raw
    }

    /// The packed word, in specifications.
    pub closed spec fn into_raw_spec(self) -> u64 {
        self.raw
    }

    /// Reinterpret a well-formed packed word.
    pub fn from_raw_unchecked(raw: u64) -> (r: Self)
        requires
            be_wf(raw),
        ensures
            r@ == be_view(raw),
    {
        Be { raw }
    }

    /// Try to join `self`, `byte` and `child` into one edge.
    ///
    /// Returns `None` if the joined key bytes do not fit in seven bytes.
    pub fn try_compress(self, byte: u8, child: Self) -> (r: Option<Self>)
        requires
            !self@.frozen,
            !self@.value,
        ensures
            r is Some <==> self@.bytes.len() + 1 + child@.bytes.len() <= 7,
            r matches Some(joined) ==> joined@ == compress_view(self@, byte, child@),
    {
        proof {
            use_type_invariant(&self);
            use_type_invariant(&child);
            lemma_len_bits(self.raw);
            lemma_len_bits(child.raw);
        }
        let len_parent = self.len();
        let len_child = child.len();
        let len = match Bit::try_add(len_parent, Bit::byte(), len_child) {
            Some(len) => len,
            None => return None,
        };
        let lp = len_parent.into_u8() as u64;
        let lc = len_child.into_u8() as u64;
        let l = len.into_u8() as u64;
        let index_child = lp + 8;
        let p = self.raw;
        let c = child.raw;
        let b = byte as u64;
        let raw = (p | (b << (56 - lp)) | (c >> index_child)) & mask(len) | l | (c & (BE_MASK_VALUE
            | BE_MASK_FROZEN));
        proof {
            lemma_compress(p, b, c, lp, lc, raw);
            let v = be_view(raw);
            let want = compress_view(self@, byte, child@);
            assert(v.bytes.len() == want.bytes.len());
            assert forall|i: int| 0 <= i < v.bytes.len() implies #[trigger] v.bytes[i]
                == want.bytes[i] by {
                let k = (56 - 8 * i) as u64;
                if i < lp / 8 {
                    lemma_compress_parent_byte(p, b, c, lp, lc, raw, k);
                } else if i == lp / 8 {
                    lemma_compress_middle_byte(p, b, c, lp, lc, raw);
                } else {
                    lemma_compress_child_byte(p, b, c, lp, lc, raw, k);
                    assert((k + lp + 8) as u64 == (56 - 8 * (i - lp / 8 - 1)) as u64);
                }
            }
            assert(v.bytes =~= want.bytes);
        }
        Some(Be { raw })
    }

    /// Try to split this edge at the byte containing bit `index`.
    ///
    /// Returns `None` if `index`, rounded down to a whole byte, is not
    /// below the edge length.
    pub fn try_expand(self, index: Bit<56>) -> (r: Option<(Self, u8, Self)>)
        ensures
            r is Some <==> masked(index@ as u8) < 8 * self@.bytes.len(),
            r matches Some((parent, byte, child)) ==> (parent@, byte, child@) == expand_view(
                self@,
                masked(index@ as u8) / 8,
            ),
    {
        proof {
            use_type_invariant(&self);
            lemma_len_bits(self.raw);
        }
        let index = index.align_down();
        let len = self.len();
        if index.into_u8() >= len.into_u8() {
            return None;
        }
        let parent = Be::new(self.raw, index);
        let index_child = index.add(Bit::byte());
        let len_child = len.sub(index_child);
        let i = index.into_u8() as u64;
        let raw = self.raw;
        let byte = (raw >> (56 - i)) as u8;
        let ic = index_child.into_u8() as u64;
        let lc = len_child.into_u8() as u64;
        let child_raw = (raw << ic) & mask(len_child) | lc | (raw & (BE_MASK_VALUE
            | BE_MASK_FROZEN));
        proof {
            lemma_expand_child(raw, ic, lc, child_raw);
            let want = expand_view(self@, index@ / 8);
            assert(parent@.bytes =~= want.0.bytes);
            assert(byte == want.1) by {
                let k = (56 - i) as u64;
                lemma_be_word_bits(raw, 0, 0, k, false);
                assert((56 - 8 * (i / 8)) as u64 == k);
            }
            let cv = be_view(child_raw);
            assert(cv.bytes.len() == want.2.bytes.len());
            assert forall|j: int| 0 <= j < cv.bytes.len() implies #[trigger] cv.bytes[j]
                == want.2.bytes[j] by {
                let k = (56 - 8 * j) as u64;
                lemma_expand_child_byte(raw, ic, lc, child_raw, k);
                assert((k - ic) as u64 == (56 - 8 * (j + i / 8 + 1)) as u64);
            }
            assert(cv.bytes =~= want.2.bytes);
        }
        Some((parent, byte, Be { raw: child_raw }))
    }

    /// The key bytes of this edge, first byte first.
    pub fn into_iter(self) -> (r: Vec<u8>)
        ensures
            r@ == self@.bytes,
    {
        proof {
            lemma_len_bits(self.raw);
        }
        let n = self.len().bytes();
        let mut out: Vec<u8> = Vec::new();
        let mut i: usize = 0;
        while i < n
            invariant
                i <= n,
                n <= 7,
                n == self@.bytes.len(),
                out@ == self@.bytes.take(i as int),
            decreases n - i,
        {
            let k = (56 - 8 * i) as u64;
            let byte = (self.raw >> k) as u8;
            proof {
                lemma_be_word_bits(self.raw, 0, 0, k, false);
            }
            out.push(byte);
            proof {
                assert(out@ =~= self@.bytes.take(i + 1));
            }
            i = i + 1;
        }
        proof {
            assert(self@.bytes.take(n as int) =~= self@.bytes);
        }
        out
    }

    /// Whether two edges hold the same key bytes (flags are ignored).
    pub fn eq(&self, other: &Self) -> (r: bool)
        ensures
            r <==> self@.bytes == other@.bytes,
    {
        proof {
            use_type_invariant(self);
            use_type_invariant(other);
        }
        let a = self.raw;
        let b = other.raw;
        let r = ((a ^ b) & !(BE_MASK_VALUE | BE_MASK_FROZEN)) == 0;
        proof {
            lemma_eq(a, b);
        }
        r
    }

    /// Compare the key bytes of two edges lexicographically (flags are ignored).
    pub fn compare(&self, other: &Self) -> (r: Ordering)
        ensures
            r == lex_order(self@.bytes, other@.bytes),
    {
        let left = self.into_iter();
        let right = other.into_iter();
        compare_bytes(left.as_slice(), right.as_slice())
    }
}

proof fn lemma_same_key_bits(raw: u64, new: u64)
    requires
        be_wf(raw),
        new & !3u64 == raw & !3u64,
    ensures
        be_wf(new),
        be_view(new).bytes == be_view(raw).bytes,
{
    lemma_len_bits(raw);
    lemma_be_word_bits(raw, new, 0, 0, false);
    assert forall|i: int| 0 <= i < be_len(raw) / 8 implies #[trigger] be_byte(new, i as nat)
        == be_byte(raw, i as nat) by {
        let k = (56 - 8 * i) as u64;
        lemma_be_word_bits(raw, new, 0, k, false);
    }
    assert(be_view(new).bytes =~= be_view(raw).bytes);
}

proof fn lemma_compress(p: u64, b: u64, c: u64, lp: u64, lc: u64, raw: u64)
    requires
        be_wf(p),
        be_wf(c),
        be_len(p) == lp,
        be_len(c) == lc,
        b < 256,
        lp % 8 == 0,
        lc % 8 == 0,
        lp + 8 + lc <= 56,
        raw == (p | (b << (56 - lp) as u64) | (c >> (lp + 8) as u64)) & !(0xffff_ffff_ffff_ffffu64
            >> (lp + 8 + lc) as u64) | ((lp + 8 + lc) as u64) | (c & (BE_MASK_VALUE
            | BE_MASK_FROZEN)),
    ensures
        be_wf(raw),
        be_len(raw) == lp + 8 + lc,
        (raw & 1 == 1) == (c & 1 == 1),
        ((raw >> 1u64) & 1 == 1) == ((c >> 1u64) & 1 == 1),
{
    lemma_be_join_bits(p, b, c, lp, (lp + 8 + lc) as u64, 0);
}

proof fn lemma_compress_parent_byte(p: u64, b: u64, c: u64, lp: u64, lc: u64, raw: u64, k: u64)
    requires
        be_wf(c),
        be_len(c) == lc,
        b < 256,
        k + lp >= 64,
        k <= 56,
        lp + 8 + lc <= 56,
        raw == (p | (b << (56 - lp) as u64) | (c >> (lp + 8) as u64)) & !(0xffff_ffff_ffff_ffffu64
            >> (lp + 8 + lc) as u64) | ((lp + 8 + lc) as u64) | (c & (BE_MASK_VALUE
            | BE_MASK_FROZEN)),
    ensures
        (raw >> k) & 0xff == (p >> k) & 0xff,
{
    lemma_be_join_bits(p, b, c, lp, (lp + 8 + lc) as u64, k);
}

proof fn lemma_compress_middle_byte(p: u64, b: u64, c: u64, lp: u64, lc: u64, raw: u64)
    requires
        be_wf(p),
        be_len(p) == lp,
        b < 256,
        lp + 8 + lc <= 56,
        raw == (p | (b << (56 - lp) as u64) | (c >> (lp + 8) as u64)) & !(0xffff_ffff_ffff_ffffu64
            >> (lp + 8 + lc) as u64) | ((lp + 8 + lc) as u64) | (c & (BE_MASK_VALUE
            | BE_MASK_FROZEN)),
    ensures
        (raw >> (56 - lp) as u64) & 0xff == b,
{
    lemma_be_join_bits(p, b, c, lp, (lp + 8 + lc) as u64, 0);
}

proof fn lemma_compress_child_byte(p: u64, b: u64, c: u64, lp: u64, lc: u64, raw: u64, k: u64)
    requires
        be_wf(p),
        be_len(p) == lp,
        b < 256,
        k + lp + 8 <= 56,
        k + lp + 8 + lc >= 64,
        lp + 8 + lc <= 56,
        raw == (p | (b << (56 - lp) as u64) | (c >> (lp + 8) as u64)) & !(0xffff_ffff_ffff_ffffu64
            >> (lp + 8 + lc) as u64) | ((lp + 8 + lc) as u64) | (c & (BE_MASK_VALUE
            | BE_MASK_FROZEN)),
    ensures
        (raw >> k) & 0xff == (c >> (k + lp + 8) as u64) & 0xff,
{
    lemma_be_join_bits(p, b, c, lp, (lp + 8 + lc) as u64, k);
}

proof fn lemma_expand_child(raw: u64, ic: u64, lc: u64, child: u64)
    requires
        be_wf(raw),
        ic + lc == be_len(raw),
        lc % 8 == 0,
        child == (raw << ic) & !(0xffff_ffff_ffff_ffffu64 >> lc) | lc | (raw & (BE_MASK_VALUE
            | BE_MASK_FROZEN)),
    ensures
        be_wf(child),
        be_len(child) == lc,
        (child & 1 == 1) == (raw & 1 == 1),
        ((child >> 1u64) & 1 == 1) == ((raw >> 1u64) & 1 == 1),
{
    lemma_len_bits(raw);
    lemma_be_join_bits(raw, 0, 0, ic, lc, 0);
}

proof fn lemma_expand_child_byte(raw: u64, ic: u64, lc: u64, child: u64, k: u64)
    requires
        ic + lc <= 56,
        k <= 56,
        k + lc >= 64,
        child == (raw << ic) & !(0xffff_ffff_ffff_ffffu64 >> lc) | lc | (raw & (BE_MASK_VALUE
            | BE_MASK_FROZEN)),
    ensures
        (child >> k) & 0xff == (raw >> (k - ic) as u64) & 0xff,
{
    lemma_be_join_bits(raw, 0, 0, ic, lc, k);
}

proof fn lemma_eq(a: u64, b: u64)
    requires
        be_wf(a),
        be_wf(b),
    ensures
        (((a ^ b) & !(BE_MASK_VALUE | BE_MASK_FROZEN)) == 0) <==> be_view(a).bytes == be_view(
            b,
        ).bytes,
{
    lemma_len_bits(a);
    lemma_len_bits(b);
    let la = a & BE_MASK_LEN;
    let lb = b & BE_MASK_LEN;
    if ((a ^ b) & !(BE_MASK_VALUE | BE_MASK_FROZEN)) == 0 {
        lemma_be_word_bits(a, b, 0, 0, false);
        lemma_same_key_bits(a, b);
    }
    if be_view(a).bytes == be_view(b).bytes {
        assert(be_view(a).bytes.len() == be_view(b).bytes.len());
        assert(la == lb);
        assert(8 <= la ==> be_view(a).bytes[0] == be_view(b).bytes[0]);
        assert(16 <= la ==> be_view(a).bytes[1] == be_view(b).bytes[1]);
        assert(24 <= la ==> be_view(a).bytes[2] == be_view(b).bytes[2]);
        assert(32 <= la ==> be_view(a).bytes[3] == be_view(b).bytes[3]);
        assert(40 <= la ==> be_view(a).bytes[4] == be_view(b).bytes[4]);
        assert(48 <= la ==> be_view(a).bytes[5] == be_view(b).bytes[5]);
        assert(56 <= la ==> be_view(a).bytes[6] == be_view(b).bytes[6]);
        assert(8 <= la ==> be_byte(a, 0) == be_byte(b, 0));
        assert(16 <= la ==> be_byte(a, 1) == be_byte(b, 1));
        assert(24 <= la ==> be_byte(a, 2) == be_byte(b, 2));
        assert(32 <= la ==> be_byte(a, 3) == be_byte(b, 3));
        assert(40 <= la ==> be_byte(a, 4) == be_byte(b, 4));
        assert(48 <= la ==> be_byte(a, 5) == be_byte(b, 5));
        assert(56 <= la ==> be_byte(a, 6) == be_byte(b, 6));
        assert(((a ^ b) & !(BE_MASK_VALUE | BE_MASK_FROZEN)) == 0) by (bit_vector)
            requires
                la == a & BE_MASK_LEN,
                lb == b & BE_MASK_LEN,
                la == lb,
                la <= 56,
                a & 0b1100_0100 == 0,
                b & 0b1100_0100 == 0,
                (a & BE_MASK_KEY) & (0xffff_ffff_ffff_ffffu64 >> la) == 0,
                (b & BE_MASK_KEY) & (0xffff_ffff_ffff_ffffu64 >> la) == 0,
                8 <= la ==> (((a >> 56u64) & 0xff) as u8) == (((b >> 56u64) & 0xff) as u8),
                16 <= la ==> (((a >> 48u64) & 0xff) as u8) == (((b >> 48u64) & 0xff) as u8),
                24 <= la ==> (((a >> 40u64) & 0xff) as u8) == (((b >> 40u64) & 0xff) as u8),
                32 <= la ==> (((a >> 32u64) & 0xff) as u8) == (((b >> 32u64) & 0xff) as u8),
                40 <= la ==> (((a >> 24u64) & 0xff) as u8) == (((b >> 24u64) & 0xff) as u8),
                48 <= la ==> (((a >> 16u64) & 0xff) as u8) == (((b >> 16u64) & 0xff) as u8),
                56 <= la ==> (((a >> 8u64) & 0xff) as u8) == (((b >> 8u64) & 0xff) as u8),
        ;
    }
}

} // verus!
