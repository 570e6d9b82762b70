//! [`Le`] stores edge metadata for little-endian systems.
//!
//! Layout of the packed word:
//! - bits 0..56: up to seven key bytes, the first key byte lowest
//! - bit 56: value flag
//! - bit 57: frozen flag
//! - bits 58..64: length of the key bytes, in bits

use core::cmp::Ordering;
use vstd::prelude::*;

use crate::edge::compare_bytes;
use crate::edge::compress_view;
use crate::edge::expand_view;
use crate::edge::lex_order;
use crate::edge::MetaView;
use crate::len::masked;
use crate::len::Bit;
use crate::raw::le_byte;

verus! {

/// Flag bit: the child is a value.
pub const LE_MASK_VALUE: u64 = 0x0100_0000_0000_0000;

/// Flag bit: the edge is frozen.
pub const LE_MASK_FROZEN: u64 = 0x0200_0000_0000_0000;

/// Offset of the length field.
pub const LE_SHIFT_LEN: u64 = 58;

/// The key bits of the word (everything below the flags).
pub const LE_MASK_KEY: u64 = 0x00FF_FFFF_FFFF_FFFF;

/// Whether `raw` is a well-formed [`Le`] word: the length is a multiple of
/// eight of at most 56 bits, and key bits at or above the length are zero.
pub open spec fn le_wf(raw: u64) -> bool {
    &&& raw >> 58u64 <= 56
    &&& (raw >> 58u64) % 8 == 0
    &&& (raw & LE_MASK_KEY) >> (raw >> 58u64) == 0
}

/// Length of the key bytes of `raw`, in bits.
pub open spec fn le_len(raw: u64) -> nat {
    (raw >> 58u64) as nat
}

/// What the word `raw` means.
pub open spec fn le_view(raw: u64) -> MetaView {
    MetaView {
        bytes: Seq::new(le_len(raw) / 8, |i: int| le_byte(raw, i as nat)),
        value: (raw >> 56u64) & 1 == 1,
        frozen: (raw >> 57u64) & 1 == 1,
    }
}

/// Edge metadata storing compressed edge bytes starting at the least significant byte.
#[derive(Clone, Copy, Debug)]
pub struct Le {
    raw: u64,
}

impl View for Le {
    type V = MetaView;

    closed spec fn view(&self) -> MetaView {
        le_view(self.raw)
    }
}

/// Bit-level facts about one [`Le`] word `x` (or two, `x` and `y`).
pub(crate) proof fn lemma_le_word_bits(x: u64, y: u64, l: u64, k: u64, v: bool)
    by (bit_vector)
    ensures
        l <= 56 ==> (1u64 << l) >= 1 && (1u64 << l) - 1 == !(0xffff_ffff_ffff_ffffu64 << l),
        l <= 56 ==> ({
            let raw = (x & !(0xffff_ffff_ffff_ffffu64 << l)) | (l << 58u64);
            raw >> 58u64 == l && (raw & LE_MASK_KEY) >> l == 0 && (raw >> 56u64) & 1 == 0 && (raw
                >> 57u64) & 1 == 0
        }),
        l <= 56 && k + 8 <= l ==> ((((x & !(0xffff_ffff_ffff_ffffu64 << l)) | (l << 58u64)) >> k)
            & 0xff) == ((x >> k) & 0xff),
        0u64 >> 58u64 == 0 && (0u64 & LE_MASK_KEY) >> 0u64 == 0 && (0u64 >> 56u64) & 1 == 0 && (
        0u64 >> 57u64) & 1 == 0,
        (x & LE_MASK_VALUE > 0) == ((x >> 56u64) & 1 == 1),
        (x & LE_MASK_FROZEN > 0) == ((x >> 57u64) & 1 == 1),
        ({
            let new = if v {
                x | LE_MASK_VALUE
            } else {
                x & !LE_MASK_VALUE
            };
            new >> 58u64 == x >> 58u64 && new & LE_MASK_KEY == x & LE_MASK_KEY && (new >> 57u64) & 1
                == (x >> 57u64) & 1 && ((new >> 56u64) & 1 == 1) == v
        }),
        ({
            let new = if v {
                x | LE_MASK_FROZEN
            } else {
                x & !LE_MASK_FROZEN
            };
            new >> 58u64 == x >> 58u64 && new & LE_MASK_KEY == x & LE_MASK_KEY && (new >> 56u64) & 1
                == (x >> 56u64) & 1 && ((new >> 57u64) & 1 == 1) == v
        }),
        ((x >> k) as u8) == (((x >> k) & 0xff) as u8),
        k + 8 <= 56 && y & LE_MASK_KEY == x & LE_MASK_KEY ==> ((y >> k) & 0xff) == ((x >> k)
            & 0xff),
        ((x ^ y) & !(LE_MASK_VALUE | LE_MASK_FROZEN)) == 0 ==> x >> 58u64 == y >> 58u64 && x
            & LE_MASK_KEY == y & LE_MASK_KEY,
        (x >> 58u64 == 0 && (x >> 56u64) & 1 != 1 && (x >> 57u64) & 1 != 1 && (x & LE_MASK_KEY) >> (
        x >> 58u64) == 0) ==> x == 0,
{
}

/// Bit-level facts about joining the words `p` and `c` around the byte `b`
/// (`lp` bits of `p`, `l` bits in all), and about taking the child word
/// of `p` from bit `lp` on (`l` bits of it).
#[verifier::rlimit(100)]
proof fn lemma_le_join_bits(p: u64, b: u64, c: u64, lp: u64, l: u64, k: u64)
    by (bit_vector)
    ensures
        ({
            let raw = (p | (b << lp) | (c << (lp + 8) as u64)) & !(0xffff_ffff_ffff_ffffu64 << l) | (
            l << 58u64) | (c & (LE_MASK_VALUE | LE_MASK_FROZEN));
            &&& l <= 56 ==> raw >> 58u64 == l && (raw & LE_MASK_KEY) >> l == 0 && (raw >> 56u64) & 1
                == (c >> 56u64) & 1 && (raw >> 57u64) & 1 == (c >> 57u64) & 1
            &&& k + 8 <= lp && lp + 8 <= l && l <= 56 ==> (raw >> k) & 0xff == (p >> k) & 0xff
            &&& lp + 8 <= l && l <= 56 && b < 256 && (p & LE_MASK_KEY) >> lp == 0 ==> (raw >> lp)
                & 0xff == b
            &&& lp + 8 <= k && k + 8 <= l && l <= 56 && b < 256 && (p & LE_MASK_KEY) >> lp == 0 ==> (
            raw >> k) & 0xff == (c >> (k - lp - 8) as u64) & 0xff
        }),
        ({
            let child = (p >> lp) & !(0xffff_ffff_ffff_ffffu64 << l) | (l << 58u64) | (p & (
            LE_MASK_VALUE | LE_MASK_FROZEN));
            &&& l <= 56 ==> child >> 58u64 == l && (child & LE_MASK_KEY) >> l == 0 && (child
                >> 56u64) & 1 == (p >> 56u64) & 1 && (child >> 57u64) & 1 == (p >> 57u64) & 1
            &&& lp + l <= 56 && k + 8 <= l ==> (child >> k) & 0xff == (p >> (k + lp) as u64) & 0xff
        }),
{
}

/// `(1 << len) - 1`, the mask of the low `len` bits.
fn mask(len: Bit<56>) -> (r: u64)
    ensures
        r == !(0xffff_ffff_ffff_ffffu64 << (len@ as u64)),
{
    let l = len.into_u8() as u64;
    proof {
        lemma_le_word_bits(0, 0, l, 0, false);
    }
    (1u64 << l) - 1
}

proof fn lemma_new(value: u64, l: u64, raw: u64)
    requires
        l <= 56,
        l % 8 == 0,
        raw == (value & !(0xffff_ffff_ffff_ffffu64 << l)) | (l << 58u64),
    ensures
        le_wf(raw),
        le_len(raw) == l,
        le_view(raw).bytes.len() == l / 8,
        forall|i: int| 0 <= i < l / 8 ==> #[trigger] le_view(raw).bytes[i] == le_byte(value, i as nat),
        !le_view(raw).value,
        !le_view(raw).frozen,
{
    lemma_le_word_bits(value, 0, l, 0, false);
    assert forall|i: int| 0 <= i < l / 8 implies #[trigger] le_view(raw).bytes[i] == le_byte(
        value,
        i as nat,
    ) by {
        let k = (8 * i) as u64;
        lemma_le_word_bits(value, 0, l, k, false);
    }
}

impl Le {
    #[verifier::type_invariant]
    closed spec fn inv(self) -> bool {
        le_wf(self.raw)
    }

    /// Metadata holding the first `len / 8` bytes of `value` (least
    /// significant first), with both flags clear.
    pub fn new(value: u64, len: Bit<56>) -> (r: Self)
        requires
            len@ % 8 == 0,
        ensures
            r@.bytes == Seq::new(len@ / 8, |i: int| le_byte(value, i as nat)),
            !r@.value,
            !r@.frozen,
    {
        let l = len.into_u8() as u64;
        let raw = value & mask(len) | (l << LE_SHIFT_LEN);
        proof {
            lemma_new(value, l, raw);
            assert(le_view(raw).bytes =~= Seq::new(len@ / 8, |i: int| le_byte(value, i as nat)));
        }
        Le { raw }
    }

    /// The null edge: no key bytes and no flags.
    pub fn null() -> (r: Self)
        ensures
            r@.bytes.len() == 0,
            !r@.value,
            !r@.frozen,
    {
        proof {
            lemma_le_word_bits(0, 0, 0, 0, false);
        }
        Le { raw: 0 }
    }

    /// Length of the key bytes, in bits.
    pub fn len(self) -> (r: Bit<56>)
        ensures
            r@ == 8 * self@.bytes.len(),
    {
        proof {
            use_type_invariant(&self);
        }
        let len = (self.raw >> LE_SHIFT_LEN) as u8;
        Bit::new_unchecked(len)
    }

    /// Whether the child pointer is a value.
    pub fn is_value(self) -> (r: bool)
        ensures
            r == self@.value,
    {
        let raw = self.raw;
        proof {
            lemma_le_word_bits(raw, 0, 0, 0, false);
        }
        raw & LE_MASK_VALUE > 0
    }

    /// Whether this edge is frozen.
    pub fn is_frozen(self) -> (r: bool)
        ensures
            r == self@.frozen,
    {
        let raw = self.raw;
        proof {
            lemma_le_word_bits(raw, 0, 0, 0, false);
        }
        raw & LE_MASK_FROZEN > 0
    }

    /// Set or clear the value flag.
    pub fn with_value(self, value: bool) -> (r: Self)
        ensures
            r@ == (MetaView { value, ..self@ }),
    {
        proof {
            use_type_invariant(&self);
        }
        let raw = self.raw;
        let new = if value {
            raw | LE_MASK_VALUE
        } else {
            raw & !LE_MASK_VALUE
        };
        proof {
            lemma_le_word_bits(raw, 0, 0, 0, value);
            lemma_same_key_bits(raw, new);
        }
        Le { raw: new }
    }

    /// Set or clear the frozen flag.
    pub fn with_frozen(self, frozen: bool) -> (r: Self)
        ensures
            r@ == (MetaView { frozen, ..self@ }),
    {
        proof {
            use_type_invariant(&self);
        }
        let raw = self.raw;
        let new = if frozen {
            raw | LE_MASK_FROZEN
        } else {
            raw & !LE_MASK_FROZEN
        };
        proof {
            lemma_le_word_bits(raw, 0, 0, 0, frozen);
            lemma_same_key_bits(raw, new);
        }
        Le { raw: new }
    }

    /// The packed word.
    pub fn into_raw(self) -> (r: u64)
        ensures
            le_view(r) == self@,
            le_wf(r),
            r == self.into_raw_spec(),
    {
        proof {
            use_type_invariant(&self);
        }
        self.raw
    }

    /// Reinterpret a well-formed packed word.
    pub fn from_raw_unchecked(raw: u64) -> (r: Self)
        requires
            le_wf(raw),
        ensures
            r@ == le_view(raw),
            r.into_raw_spec() == raw,
    {
        Le { raw }
    }

    /// The packed word, in specifications.
    pub closed spec fn into_raw_spec(self) -> u64 {
        self.raw
    }

    /// Try to join `self`, `byte` and `child` into one edge.
    ///
    /// Returns `None` if the joined key bytes do not fit in seven bytes.
    pub fn try_compress(self, byte: u8, child: Self) -> (r: Option<Self>)
        requires
            !self@.frozen,
            !self@.value,
        ensures
            r is Some <==> self@.bytes.len() + 1 + child@.bytes.len() <= 7,
            r matches Some(joined) ==> joined@ == compress_view(self@, byte, child@),
    {
        proof {
            use_type_invariant(&self);
            use_type_invariant(&child);
        }
        let len_parent = self.len();
        let len_child = child.len();
        let len = match Bit::try_add(len_parent, Bit::byte(), len_child) {
            Some(len) => len,
            None => return None,
        };
        let lp = len_parent.into_u8() as u64;
        let lc = len_child.into_u8() as u64;
        let l = len.into_u8() as u64;
        let index_child = lp + 8;
        let p = self.raw;
        let c = child.raw;
        let b = byte as u64;
        let raw = (p | (b << lp) | (c << index_child)) & mask(len) | (l << LE_SHIFT_LEN) | (c & (
        LE_MASK_VALUE | LE_MASK_FROZEN));
        proof {
            lemma_compress(p, b, c, lp, lc, raw);
            let v = le_view(raw);
            let want = compress_view(self@, byte, child@);
            assert(v.bytes.len() == want.bytes.len());
            assert forall|i: int| 0 <= i < v.bytes.len() implies #[trigger] v.bytes[i]
                == want.bytes[i] by {
                let k = (8 * i) as u64;
                if i < lp / 8 {
                    lemma_compress_parent_byte(p, b, c, lp, lc, raw, k);
                } else if i == lp / 8 {
                    lemma_compress_middle_byte(p, b, c, lp, lc, raw);
                } else {
                    lemma_compress_child_byte(p, b, c, lp, lc, raw, k);
                    assert((k - lp - 8) as u64 == (8 * (i - lp / 8 - 1)) as u64);
                }
            }
            assert(v.bytes =~= want.bytes);
        }
        Some(Le { raw })
    }

    /// Try to split this edge at the byte containing bit `index`.
    ///
    /// Returns `None` if `index`, rounded down to a whole byte, is not
    /// below the edge length.
    pub fn try_expand(self, index: Bit<56>) -> (r: Option<(Self, u8, Self)>)
        ensures
            r is Some <==> masked(index@ as u8) < 8 * self@.bytes.len(),
            r matches Some((parent, byte, child)) ==> (parent@, byte, child@) == expand_view(
                self@,
                masked(index@ as u8) / 8,
            ),
    {
        proof {
            use_type_invariant(&self);
        }
        let index = index.align_down();
        let len = self.len();
        if index.into_u8() >= len.into_u8() {
            return None;
        }
        let len_parent = index;
        let parent = Le::new(self.raw, len_parent);
        let index_child = index.add(Bit::byte());
        let len_child = len.sub(index_child);
        let byte = (self.raw >> index.into_u8()) as u8;
        let raw = self.raw;
        let ic = index_child.into_u8() as u64;
        let lc = len_child.into_u8() as u64;
        let child_raw = (raw >> ic) & mask(len_child) | (lc << LE_SHIFT_LEN) | (raw & (
        LE_MASK_VALUE | LE_MASK_FROZEN));
        proof {
            let i = index@ as u64;
            lemma_expand_child(raw, ic, lc, child_raw);
            let want = expand_view(self@, index@ / 8);
            assert(parent@.bytes =~= want.0.bytes);
            assert(byte == want.1) by {
                lemma_le_word_bits(raw, 0, 0, i, false);
                assert((8 * (i / 8)) as u64 == i);
            }
            let cv = le_view(child_raw);
            assert(cv.bytes.len() == want.2.bytes.len());
            assert forall|j: int| 0 <= j < cv.bytes.len() implies #[trigger] cv.bytes[j]
                == want.2.bytes[j] by {
                let k = (8 * j) as u64;
                lemma_expand_child_byte(raw, ic, lc, child_raw, k);
                assert((k + ic) as u64 == (8 * (j + i / 8 + 1)) as u64);
            }
            assert(cv.bytes =~= want.2.bytes);
        }
        Some((parent, byte, Le { raw: child_raw }))
    }

    /// The key bytes of this edge, first byte first.
    pub fn into_iter(self) -> (r: Vec<u8>)
        ensures
            r@ == self@.bytes,
            r@.len() <= 7,
    {
        proof {
            use_type_invariant(&self);
        }
        let n = self.len().bytes();
        let mut out: Vec<u8> = Vec::new();
        let mut i: usize = 0;
        while i < n
            invariant
                i <= n,
                n <= 7,
                n == self@.bytes.len(),
                out@ == self@.bytes.take(i as int),
            decreases n - i,
        {
            let k = (8 * i) as u64;
            let byte = (self.raw >> k) as u8;
            proof {
                lemma_le_word_bits(self.raw, 0, 0, k, false);
            }
            out.push(byte);
            proof {
                assert(out@ =~= self@.bytes.take(i + 1));
            }
            i = i + 1;
        }
        proof {
            assert(self@.bytes.take(n as int) =~= self@.bytes);
        }
        out
    }

    /// Whether two edges hold the same key bytes (flags are ignored).
    pub fn eq(&self, other: &Self) -> (r: bool)
        ensures
            r <==> self@.bytes == other@.bytes,
    {
        proof {
            use_type_invariant(self);
            use_type_invariant(other);
        }
        let a = self.raw;
        let b = other.raw;
        let r = ((a ^ b) & !(LE_MASK_VALUE | LE_MASK_FROZEN)) == 0;
        proof {
            lemma_eq(a, b);
        }
        r
    }

    /// Compare the key bytes of two edges lexicographically (flags are ignored).
    pub fn compare(&self, other: &Self) -> (r: Ordering)
        ensures
            r == lex_order(self@.bytes, other@.bytes),
    {
        let left = self.into_iter();
        let right = other.into_iter();
        compare_bytes(left.as_slice(), right.as_slice())
    }
}

proof fn lemma_same_key_bits(raw: u64, new: u64)
    requires
        le_wf(raw),
        new >> 58u64 == raw >> 58u64,
        new & LE_MASK_KEY == raw & LE_MASK_KEY,
    ensures
        le_wf(new),
        le_view(new).bytes == le_view(raw).bytes,
{
    assert forall|i: int| 0 <= i < le_len(raw) / 8 implies #[trigger] le_byte(new, i as nat)
        == le_byte(raw, i as nat) by {
        let k = (8 * i) as u64;
        lemma_le_word_bits(raw, new, 0, k, false);
    }
    assert(le_view(new).bytes =~= le_view(raw).bytes);
}

proof fn lemma_compress(p: u64, b: u64, c: u64, lp: u64, lc: u64, raw: u64)
    requires
        le_wf(p),
        le_wf(c),
        le_len(p) == lp,
        le_len(c) == lc,
        (p >> 56u64) & 1 != 1,
        (p >> 57u64) & 1 != 1,
        b < 256,
        lp + 8 + lc <= 56,
        raw == (p | (b << lp) | (c << (lp + 8) as u64)) & !(0xffff_ffff_ffff_ffffu64 << (lp + 8
            + lc) as u64) | (((lp + 8 + lc) as u64) << 58u64) | (c & (LE_MASK_VALUE
            | LE_MASK_FROZEN)),
    ensures
        le_wf(raw),
        le_len(raw) == lp + 8 + lc,
        le_view(raw).value == le_view(c).value,
        le_view(raw).frozen == le_view(c).frozen,
{
    lemma_le_join_bits(p, b, c, lp, (lp + 8 + lc) as u64, 0);
}

proof fn lemma_compress_parent_byte(p: u64, b: u64, c: u64, lp: u64, lc: u64, raw: u64, k: u64)
    requires
        k + 8 <= lp,
        lp + 8 + lc <= 56,
        raw == (p | (b << lp) | (c << (lp + 8) as u64)) & !(0xffff_ffff_ffff_ffffu64 << (lp + 8
            + lc) as u64) | (((lp + 8 + lc) as u64) << 58u64) | (c & (LE_MASK_VALUE
            | LE_MASK_FROZEN)),
    ensures
        (raw >> k) & 0xff == (p >> k) & 0xff,
{
    lemma_le_join_bits(p, b, c, lp, (lp + 8 + lc) as u64, k);
}

proof fn lemma_compress_middle_byte(p: u64, b: u64, c: u64, lp: u64, lc: u64, raw: u64)
    requires
        le_wf(p),
        le_len(p) == lp,
        b < 256,
        lp + 8 + lc <= 56,
        raw == (p | (b << lp) | (c << (lp + 8) as u64)) & !(0xffff_ffff_ffff_ffffu64 << (lp + 8
            + lc) as u64) | (((lp + 8 + lc) as u64) << 58u64) | (c & (LE_MASK_VALUE
            | LE_MASK_FROZEN)),
    ensures
        (raw >> lp) & 0xff == b,
{
    lemma_le_join_bits(p, b, c, lp, (lp + 8 + lc) as u64, 0);
}

proof fn lemma_compress_child_byte(p: u64, b: u64, c: u64, lp: u64, lc: u64, raw: u64, k: u64)
    requires
        le_wf(p),
        le_len(p) == lp,
        b < 256,
        lp + 8 <= k,
        k + 8 <= lp + 8 + lc,
        lp + 8 + lc <= 56,
        raw == (p | (b << lp) | (c << (lp + 8) as u64)) & !(0xffff_ffff_ffff_ffffu64 << (lp + 8
            + lc) as u64) | (((lp + 8 + lc) as u64) << 58u64) | (c & (LE_MASK_VALUE
            | LE_MASK_FROZEN)),
    ensures
        (raw >> k) & 0xff == (c >> (k - lp - 8) as u64) & 0xff,
{
    lemma_le_join_bits(p, b, c, lp, (lp + 8 + lc) as u64, k);
}

proof fn lemma_expand_child(raw: u64, ic: u64, lc: u64, child: u64)
    requires
        le_wf(raw),
        ic + lc == le_len(raw),
        lc % 8 == 0,
        child == (raw >> ic) & !(0xffff_ffff_ffff_ffffu64 << lc) | (lc << 58u64) | (raw & (
        LE_MASK_VALUE | LE_MASK_FROZEN)),
    ensures
        le_wf(child),
        le_len(child) == lc,
        le_view(child).value == le_view(raw).value,
        le_view(child).frozen == le_view(raw).frozen,
{
    lemma_le_join_bits(raw, 0, 0, ic, lc, 0);
}

proof fn lemma_expand_child_byte(raw: u64, ic: u64, lc: u64, child: u64, k: u64)
    requires
        ic + lc <= 56,
        k + 8 <= lc,
        child == (raw >> ic) & !(0xffff_ffff_ffff_ffffu64 << lc) | (lc << 58u64) | (raw & (
        LE_MASK_VALUE | LE_MASK_FROZEN)),
    ensures
        (child >> k) & 0xff == (raw >> (k + ic) as u64) & 0xff,
{
    lemma_le_join_bits(raw, 0, 0, ic, lc, k);
}

proof fn lemma_eq(a: u64, b: u64)
    requires
        le_wf(a),
        le_wf(b),
    ensures
        (((a ^ b) & !(LE_MASK_VALUE | LE_MASK_FROZEN)) == 0) <==> le_view(a).bytes == le_view(
            b,
        ).bytes,
{
    let la = a >> 58u64;
    let lb = b >> 58u64;
    if ((a ^ b) & !(LE_MASK_VALUE | LE_MASK_FROZEN)) == 0 {
        lemma_le_word_bits(a, b, 0, 0, false);
        lemma_same_key_bits(a, b);
    }
    if le_view(a).bytes == le_view(b).bytes {
        assert(le_view(a).bytes.len() == le_view(b).bytes.len());
        assert(la == lb);
        assert(8 <= la ==> le_view(a).bytes[0] == le_view(b).bytes[0]);
        assert(8 <= la ==> le_byte(a, 0) == le_byte(b, 0));
        assert(16 <= la ==> le_view(a).bytes[1] == le_view(b).bytes[1]);
        assert(16 <= la ==> le_byte(a, 1) == le_byte(b, 1));
        assert(24 <= la ==> le_view(a).bytes[2] == le_view(b).bytes[2]);
        assert(24 <= la ==> le_byte(a, 2) == le_byte(b, 2));
        assert(32 <= la ==> le_view(a).bytes[3] == le_view(b).bytes[3]);
        assert(32 <= la ==> le_byte(a, 3) == le_byte(b, 3));
        assert(40 <= la ==> le_view(a).bytes[4] == le_view(b).bytes[4]);
        assert(40 <= la ==> le_byte(a, 4) == le_byte(b, 4));
        assert(48 <= la ==> le_view(a).bytes[5] == le_view(b).bytes[5]);
        assert(48 <= la ==> le_byte(a, 5) == le_byte(b, 5));
        assert(56 <= la ==> le_view(a).bytes[6] == le_view(b).bytes[6]);
        assert(56 <= la ==> le_byte(a, 6) == le_byte(b, 6));
        assert(((a ^ b) & !(LE_MASK_VALUE | LE_MASK_FROZEN)) == 0) by (bit_vector)
            requires
                la == a >> 58u64,
                lb == b >> 58u64,
                la == lb,
                la <= 56,
                la % 8 == 0,
                (a & LE_MASK_KEY) >> la == 0,
                (b & LE_MASK_KEY) >> la == 0,
                8 <= la ==> (((a >> 0u64) & 0xff) as u8) == (((b >> 0u64) & 0xff) as u8),
                16 <= la ==> (((a >> 8u64) & 0xff) as u8) == (((b >> 8u64) & 0xff) as u8),
                24 <= la ==> (((a >> 16u64) & 0xff) as u8) == (((b >> 16u64) & 0xff) as u8),
                32 <= la ==> (((a >> 24u64) & 0xff) as u8) == (((b >> 24u64) & 0xff) as u8),
                40 <= la ==> (((a >> 32u64) & 0xff) as u8) == (((b >> 32u64) & 0xff) as u8),
                48 <= la ==> (((a >> 40u64) & 0xff) as u8) == (((b >> 40u64) & 0xff) as u8),
                56 <= la ==> (((a >> 48u64) & 0xff) as u8) == (((b >> 48u64) & 0xff) as u8),
        ;
    }
}

} // verus!
