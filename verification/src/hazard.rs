//! Hazard prefixes for safe memory reclamation.
//!
//! Every node and value of the tree has a key prefix: the bytes on the
//! path to it. A reader announces the key prefix it works under (a
//! hazard); a node or value retired by a writer may be freed only if its
//! prefix conflicts with no announced hazard. A hazard protects nodes,
//! values or both, and either everything overlapping its prefix or only
//! what lies under it.
//!
//! Three packings are provided: [`BePacked`] (64 bits, key bytes from the
//! most significant end), [`LePacked`] (64 bits, key bytes from the least
//! significant end) and [`Le128Packed`] (128 bits, least significant end).

use vstd::prelude::*;

use crate::bits::lemma_and_le_u128;
use crate::bits::lemma_and_le_u64;
use crate::bits::lemma_eighths_usize;
use crate::edge::be::be_byte;
use crate::key::bytes;
use crate::key::lemma_xor_byte;
use crate::key::padded_byte;
use crate::key::read_u64;
use crate::key::slow;
use crate::key::unsigned;
use crate::key::unsigned::lemma_xor_be_byte;
use crate::key::Terminate;
use crate::raw::le_byte;

verus! {

/// What a hazard or a retired prefix means.
pub ghost struct HazardView {
    /// Hazard: protects nodes. Prefix: belongs to a node.
    pub node: bool,
    /// Hazard: protects values. Prefix: belongs to a value.
    pub value: bool,
    /// Hazard: protects everything overlapping its prefix, not only what
    /// lies under it.
    pub overlap: bool,
    /// The key prefix.
    pub bytes: Seq<u8>,
}

/// Whether one of `a` and `b` is a prefix of the other.
pub open spec fn overlaps(a: Seq<u8>, b: Seq<u8>) -> bool {
    let m = if a.len() <= b.len() {
        a.len()
    } else {
        b.len()
    };
    a.take(m as int) == b.take(m as int)
}

/// Whether the hazard `h` forbids freeing what the prefix `p` belongs to:
/// it protects that kind of allocation, the prefix lies under it (or it
/// protects overlaps), and the two prefixes overlap.
pub open spec fn conflict_spec(p: HazardView, h: HazardView) -> bool {
    &&& (h.node && p.node) || (h.value && p.value)
    &&& h.overlap || h.bytes.len() <= p.bytes.len()
    &&& overlaps(p.bytes, h.bytes)
}

/// The hazard that protects nodes, values and overlaps under `bytes`.
pub open spec fn hazard_view(bytes: Seq<u8>) -> HazardView {
    HazardView { node: true, value: true, overlap: true, bytes }
}

/// What a prefix becomes when it is given to an allocation: it belongs to
/// a value (or a node), keeps no overlap flag if it is cut short, and is
/// cut to `bits` bits if that is shorter.
pub open spec fn into_prefix_view(v: HazardView, value: bool, bits: Option<usize>) -> HazardView {
    match bits {
        Some(b) if b < 8 * v.bytes.len() => HazardView {
            node: !value,
            value,
            overlap: false,
            bytes: v.bytes.take((b / 8) as int),
        },
        _ => HazardView { node: !value, value, ..v },
    }
}

/// Two prefixes overlap exactly when their first `m` bytes agree, `m` the
/// shorter length.
proof fn lemma_overlaps(a: Seq<u8>, b: Seq<u8>, m: nat)
    requires
        m == (if a.len() <= b.len() {
            a.len()
        } else {
            b.len()
        }),
    ensures
        overlaps(a, b) <==> forall|i: int| 0 <= i < m ==> a[i] == b[i],
{
    if forall|i: int| 0 <= i < m ==> a[i] == b[i] {
        assert(a.take(m as int) =~= b.take(m as int));
    }
    if overlaps(a, b) {
        assert forall|i: int| 0 <= i < m implies a[i] == b[i] by {
            assert(a.take(m as int)[i] == b.take(m as int)[i]);
        }
    }
}

/// Byte `i` of `x`, counting from the least significant byte.
pub open spec fn le_byte128(x: u128, i: nat) -> u8 {
    ((x >> (8 * i) as u128) & 0xff) as u8
}

/// Byte `i` of `a ^ b` is zero exactly when bytes `i` of `a` and `b` agree.
proof fn lemma_xor_byte128(a: u128, b: u128, i: nat)
    requires
        i < 16,
    ensures
        (le_byte128(a ^ b, i) == 0) <==> (le_byte128(a, i) == le_byte128(b, i)),
{
    let s = (8 * i) as u128;
    lemma_le128_word_bits(a, b, 0, s, 0);
}

// ---------------------------------------------------------------------
// Most significant end, 64 bits.
// ---------------------------------------------------------------------

/// What a [`BePacked`] word means: flags in bits 0..3, the length in bytes
/// in bits 3..6, and up to seven key bytes from bit 64 down.
pub open spec fn be_hazard_view(raw: u64) -> HazardView {
    HazardView {
        node: raw & 1 == 1,
        value: (raw >> 1u64) & 1 == 1,
        overlap: (raw >> 2u64) & 1 == 1,
        bytes: Seq::new(((raw >> 3u64) & 7) as nat, |i: int| be_byte(raw, i as nat)),
    }
}

/// Bit-level facts about the [`BePacked`] layout.
proof fn lemma_be_packed_bits(x: u64, y: u64, b: u64, s: u64, f: u64, v: bool)
    by (bit_vector)
    ensures
        x & !(0xffff_ffff_ffff_ffffu64 >> 0u64) == 0,
        b <= 48 && s == 56 - b ==> ((x & !(0xffff_ffff_ffff_ffffu64 >> (b + 8) as u64) == 0) <==> ((x
            & !(0xffff_ffff_ffff_ffffu64 >> b) == 0) && ((x >> s) & 0xff) as u8 == 0)),
        0u64 & 1 != 1 && (0u64 >> 1u64) & 1 != 1 && (0u64 >> 2u64) & 1 != 1 && (0u64 >> 3u64) & 7
            == 0,
        b <= 56 && b % 8 == 0 ==> ({
            let raw = (x & !(0xffff_ffff_ffff_ffffu64 >> b)) | b | 0b111;
            raw & 1 == 1 && (raw >> 1u64) & 1 == 1 && (raw >> 2u64) & 1 == 1 && (raw >> 3u64) & 7
                == b / 8
        }),
        b < 56 && b % 8 == 0 ==> ({
            let cut = (x & !(0xffff_ffff_ffff_ffffu64 >> b)) | b;
            (cut >> 2u64) & 1 == 0 && (cut >> 3u64) & 7 == b / 8
        }),
        b <= 56 && s + 8 <= 64 && 64 - b <= s ==> (((x & !(0xffff_ffff_ffff_ffffu64 >> b)) | b
            | 0b111) >> s) & 0xff == (x >> s) & 0xff,
        b <= 56 && s + 8 <= 64 && 64 - b <= s ==> (((x & !(0xffff_ffff_ffff_ffffu64 >> b)) | b)
            >> s) & 0xff == (x >> s) & 0xff,
        f == (if v {
            2u64
        } else {
            1u64
        }) ==> ({
            let new = (y & !0b11u64) | f;
            (new >> 2u64) & 1 == (y >> 2u64) & 1 && (new >> 3u64) & 7 == (y >> 3u64) & 7 && (new & 1
                == 1) == !v && ((new >> 1u64) & 1 == 1) == v
        }),
        f < 4 && 8 <= s <= 56 ==> (((y & !0b11u64) | f) >> s) & 0xff == (y >> s) & 0xff,
        (x & 0b11 > 0) <==> (x & 1 == 1 || (x >> 1u64) & 1 == 1),
        ((y & x) & 0b11 == 0) <==> !((y & 1 == 1 && x & 1 == 1) || ((y >> 1u64) & 1 == 1 && (x
            >> 1u64) & 1 == 1)),
        b <= 7 ==> b << 3u64 == 8 * b,
{
}

/// The top `k` bits of `x` are zero exactly when its first `k / 8`
/// big-endian bytes are.
proof fn lemma_be_top_zero(x: u64, m: nat)
    requires
        m <= 7,
    ensures
        (x & !(0xffff_ffff_ffff_ffffu64 >> (8 * m) as u64) == 0) <==> forall|i: nat|
            i < m ==> #[trigger] be_byte(x, i) == 0,
    decreases m,
{
    if m == 0 {
        lemma_be_packed_bits(x, 0, 0, 0, 0, false);
    } else {
        lemma_be_top_zero(x, (m - 1) as nat);
        let k = (8 * (m - 1)) as u64;
        let s = (56 - 8 * (m - 1)) as u64;
        lemma_be_packed_bits(x, 0, k, s, 0, false);
        assert(be_byte(x, (m - 1) as nat) == ((x >> s) & 0xff) as u8);
    }
}

/// A hazard or retired prefix packed in 64 bits, key bytes from the most
/// significant end.
#[derive(Clone, Copy, Debug)]
pub struct BePacked {
    raw: u64,
}

impl View for BePacked {
    type V = HazardView;

    closed spec fn view(&self) -> HazardView {
        be_hazard_view(self.raw)
    }
}

impl BePacked {
    /// The packed word.
    pub closed spec fn spec_raw(self) -> u64 {
        self.raw
    }

    /// The null hazard: protects nothing.
    pub fn hazard_null() -> (r: Self)
        ensures
            r@ == (HazardView { node: false, value: false, overlap: false, bytes: Seq::empty() }),
    {
        let r = BePacked { raw: 0 };
        proof {
            lemma_be_packed_bits(0, 0, 0, 0, 0, false);
            assert(r@.bytes =~= Seq::<u8>::empty());
        }
        r
    }

    /// The hazard for the first `bits` bits of `prefix` (its most
    /// significant end), protecting nodes, values and overlaps.
    pub fn new_hazard(prefix: u64, bits: usize) -> (r: Self)
        requires
            bits % 8 == 0,
            bits <= 56,
        ensures
            r@ == hazard_view(Seq::new((bits / 8) as nat, |i: int| be_byte(prefix, i as nat))),
    {
        proof {
            lemma_eighths_usize(bits);
        }
        let b = (bits & 0b0111_1000) as u64;
        let raw = (prefix & !(0xffff_ffff_ffff_ffffu64 >> b)) | b | 0b111;
        proof {
            lemma_be_packed_bits(prefix, 0, b, 0, 0, false);
            let v = be_hazard_view(raw);
            let want = Seq::new((bits / 8) as nat, |i: int| be_byte(prefix, i as nat));
            assert forall|i: int| 0 <= i < bits / 8 implies v.bytes[i] == want[i] by {
                let s = (56 - 8 * i) as u64;
                lemma_be_packed_bits(prefix, 0, b, s, 0, false);
            }
            assert(v.bytes =~= want);
        }
        BePacked { raw }
    }

    /// The prefix of an allocation (a value if `value`, else a node): this
    /// prefix, cut to `bits` bits if that is shorter.
    pub fn into_prefix(self, value: bool, bits: Option<usize>) -> (r: Self)
        requires
            bits matches Some(b) ==> b % 8 == 0,
        ensures
            r@ == into_prefix_view(self@, value, bits),
    {
        let raw = self.raw;
        let len = (raw >> 3) & 7;
        proof {
            lemma_and_le_u64(raw >> 3u64, 7);
        }
        let limit = (len as usize) * 8;
        let base = match bits {
            Some(b) if b < limit => {
                let bb = b as u64;
                let cut = (raw & !(0xffff_ffff_ffff_ffffu64 >> bb)) | bb;
                proof {
                    assert(bb < 56);
                    lemma_be_packed_bits(raw, 0, bb, 0, 0, false);
                    assert forall|i: nat| i < bb / 8 implies #[trigger] be_byte(cut, i) == be_byte(
                        raw,
                        i,
                    ) by {
                        let s = (56 - 8 * i) as u64;
                        lemma_be_packed_bits(raw, 0, bb, s, 0, false);
                    }
                }
                cut
            },
            _ => raw,
        };
        let flags: u64 = if value {
            0b10
        } else {
            0b01
        };
        let new = (base & !0b11u64) | flags;
        proof {
            lemma_be_packed_bits(0, base, 0, 0, flags, value);
            assert forall|i: nat| i < 7 implies #[trigger] be_byte(new, i) == be_byte(base, i) by {
                let s = (56 - 8 * i) as u64;
                lemma_be_packed_bits(0, base, 0, s, flags, value);
            }
            lemma_and_le_u64(base >> 3u64, 7);
            let r = be_hazard_view(new);
            let want = into_prefix_view(self@, value, bits);
            assert(r.bytes =~= want.bytes);
        }
        BePacked { raw: new }
    }

    /// Whether this hazard protects nodes or values.
    pub fn is_active(self) -> (r: bool)
        ensures
            r <==> self@.node || self@.value,
    {
        let raw = self.raw;
        proof {
            lemma_be_packed_bits(raw, 0, 0, 0, 0, false);
        }
        raw & 0b11 > 0
    }

    /// Whether this prefix belongs to a node.
    pub fn is_node(self) -> (r: bool)
        ensures
            r == self@.node,
    {
        self.raw & 1 == 1
    }

    /// Whether this prefix belongs to a value.
    pub fn is_value(self) -> (r: bool)
        ensures
            r == self@.value,
    {
        (self.raw >> 1) & 1 == 1
    }

    /// Length of the prefix in bytes.
    pub fn bytes(&self) -> (r: usize)
        ensures
            r == self@.bytes.len(),
    {
        let raw = self.raw;
        proof {
            lemma_and_le_u64(raw >> 3u64, 7);
        }
        ((raw >> 3) & 7) as usize
    }

    /// Whether the hazard `hazard` forbids freeing what this prefix belongs
    /// to.
    pub fn is_conflict_one(self, hazard: Self) -> (r: bool)
        ensures
            r == conflict_spec(self@, hazard@),
    {
        let p = self.raw;
        let h = hazard.raw;
        proof {
            lemma_be_packed_bits(p, h, 0, 0, 0, false);
            lemma_and_le_u64(h >> 2u64, 1);
        }
        if (h & p) & 0b11 == 0 {
            return false;
        }
        let lp = (p >> 3) & 7;
        let lh = (h >> 3) & 7;
        if (h >> 2) & 1 == 0 && lh > lp {
            return false;
        }
        let len = if lp < lh {
            lp
        } else {
            lh
        };
        let x = p ^ h;
        let bits = len << 3;
        proof {
            lemma_and_le_u64(p >> 3u64, 7);
            lemma_and_le_u64(h >> 3u64, 7);
            lemma_be_packed_bits(0, 0, len, 0, 0, false);
            lemma_be_top_zero(x, len as nat);
            assert((forall|i: nat| i < len ==> #[trigger] be_byte(x, i) == 0) == (forall|i: int|
                0 <= i < len ==> self@.bytes[i] == hazard@.bytes[i])) by {
                if forall|i: nat| i < len ==> #[trigger] be_byte(x, i) == 0 {
                    assert forall|i: int| 0 <= i < len implies self@.bytes[i] == hazard@.bytes[i] by {
                        assert(be_byte(x, i as nat) == 0);
                        lemma_xor_be_byte(p, h, i as nat);
                    }
                }
                if forall|i: int| 0 <= i < len ==> self@.bytes[i] == hazard@.bytes[i] {
                    assert forall|i: nat| i < len implies #[trigger] be_byte(x, i) == 0 by {
                        assert(self@.bytes[i as int] == hazard@.bytes[i as int]);
                        lemma_xor_be_byte(p, h, i);
                    }
                }
            }
            lemma_overlaps(self@.bytes, hazard@.bytes, len as nat);
        }
        (x & !(0xffff_ffff_ffff_ffffu64 >> bits)) == 0
    }

    /// Whether any of `hazards` forbids freeing what this prefix belongs
    /// to.
    pub fn is_conflict(self, hazards: &[Self; 4]) -> (r: bool)
        ensures
            r <==> exists|i: int| 0 <= i < 4 && conflict_spec(self@, #[trigger] hazards@[i]@),
    {
        let mut i: usize = 0;
        while i < 4
            invariant
                i <= 4,
                forall|j: int| 0 <= j < i ==> !conflict_spec(self@, #[trigger] hazards@[j]@),
            decreases 4 - i,
        {
            if self.is_conflict_one(hazards[i]) {
                return true;
            }
            i = i + 1;
        }
        false
    }
}

// ---------------------------------------------------------------------
// Least significant end, 64 bits.
// ---------------------------------------------------------------------

/// What a [`LePacked`] word means: up to seven key bytes from bit 0 up,
/// flags in bits 56..59, and the length in bytes in bits 59..62.
pub open spec fn le_hazard_view(raw: u64) -> HazardView {
    HazardView {
        node: (raw >> 56u64) & 1 == 1,
        value: (raw >> 57u64) & 1 == 1,
        overlap: (raw >> 58u64) & 1 == 1,
        bytes: Seq::new(((raw >> 59u64) & 7) as nat, |i: int| le_byte(raw, i as nat)),
    }
}

/// The low `k` bits of `x` are zero exactly when its first `k / 8`
/// little-endian bytes are.
proof fn lemma_le_low_zero(x: u64, m: nat)
    requires
        m <= 7,
    ensures
        (x & sub_mask_u64((8 * m) as u64) == 0) <==> forall|i: nat|
            i < m ==> #[trigger] le_byte(x, i) == 0,
    decreases m,
{
    if m == 0 {
        lemma_le_packed_bits(x, 0, 0, 0, 0, false);
    } else {
        lemma_le_low_zero(x, (m - 1) as nat);
        let k = (8 * (m - 1)) as u64;
        assert(le_byte(x, (m - 1) as nat) == ((x >> k) & 0xff) as u8);
        lemma_le_packed_bits(x, 0, k, 0, 0, false);
    }
}

/// The flags of a prefix given to a value (if `v`) or a node.
spec fn le_flags(v: bool) -> u64 {
    if v {
        0b10u64 << 56u64
    } else {
        0b01u64 << 56u64
    }
}

/// Bit-level facts about the [`LePacked`] layout.
proof fn lemma_le_packed_bits(x: u64, y: u64, b: u64, s: u64, f: u64, v: bool)
    by (bit_vector)
    ensures
        x & sub_mask_u64(0) == 0,
        b <= 48 ==> ((x & sub_mask_u64((b + 8) as u64) == 0) <==> ((x & sub_mask_u64(b) == 0) && ((x
            >> b) & 0xff) as u8 == 0)),
        (0u64 >> 56u64) & 1 != 1 && (0u64 >> 57u64) & 1 != 1 && (0u64 >> 58u64) & 1 != 1 && (0u64
            >> 59u64) & 7 == 0,
        b <= 56 ==> (1u64 << b) >= 1,
        b <= 56 && b % 8 == 0 ==> ({
            let raw = (x & sub_mask_u64(b)) | (0b111u64 << 56u64) | (b << 56u64);
            (raw >> 56u64) & 1 == 1 && (raw >> 57u64) & 1 == 1 && (raw >> 58u64) & 1 == 1 && (raw
                >> 59u64) & 7 == b / 8
        }),
        b <= 56 && s + 8 <= b ==> (((x & sub_mask_u64(b)) | (0b111u64 << 56u64) | (b << 56u64))
            >> s) & 0xff == (x >> s) & 0xff,
        f == le_flags(v) && b < 56 && b % 8 == 0 ==> ({
            let cut = (y & sub_mask_u64(b)) | f | ((b >> 3u64) << 59u64);
            (cut >> 58u64) & 1 == 0 && (cut >> 59u64) & 7 == b / 8 && ((cut >> 56u64) & 1 == 1)
                == !v && ((cut >> 57u64) & 1 == 1) == v
        }),
        f == le_flags(v) && b < 56 && s + 8 <= b ==> (((y & sub_mask_u64(b)) | f | ((b >> 3u64)
            << 59u64)) >> s) & 0xff == (y >> s) & 0xff,
        f == le_flags(v) ==> ({
            let kept = (y & !(0b11u64 << 56u64)) | f;
            (kept >> 58u64) & 1 == (y >> 58u64) & 1 && (kept >> 59u64) & 7 == (y >> 59u64) & 7 && ((
            kept >> 56u64) & 1 == 1) == !v && ((kept >> 57u64) & 1 == 1) == v
        }),
        f == le_flags(v) && s <= 48 ==> (((y & !(0b11u64 << 56u64)) | f) >> s) & 0xff == (y >> s)
            & 0xff,
        (x & (0b11u64 << 56u64) > 0) <==> ((x >> 56u64) & 1 == 1 || (x >> 57u64) & 1 == 1),
        ((y & x) & (0b11u64 << 56u64) == 0) <==> !(((y >> 56u64) & 1 == 1 && (x >> 56u64) & 1 == 1)
            || ((y >> 57u64) & 1 == 1 && (x >> 57u64) & 1 == 1)),
        b <= 7 ==> b << 3u64 == 8 * b,
{
}

/// The mask of the low `k` bits of a 64-bit word.
pub open spec fn sub_mask_u64(k: u64) -> u64 {
    ((1u64 << k) - 1) as u64
}

/// A hazard or retired prefix packed in 64 bits, key bytes from the least
/// significant end.
#[derive(Clone, Copy, Debug)]
pub struct LePacked {
    raw: u64,
}

impl View for LePacked {
    type V = HazardView;

    closed spec fn view(&self) -> HazardView {
        le_hazard_view(self.raw)
    }
}

impl LePacked {
    /// The null hazard: protects nothing.
    pub fn hazard_null() -> (r: Self)
        ensures
            r@ == (HazardView { node: false, value: false, overlap: false, bytes: Seq::empty() }),
    {
        let r = LePacked { raw: 0 };
        proof {
            lemma_le_packed_bits(0, 0, 0, 0, 0, false);
            assert(r@.bytes =~= Seq::<u8>::empty());
        }
        r
    }

    /// The hazard for the first `bits` bits of `prefix` (its least
    /// significant end), protecting nodes, values and overlaps.
    pub fn new_hazard(prefix: u64, bits: usize) -> (r: Self)
        requires
            bits % 8 == 0,
            bits <= 56,
        ensures
            r@ == hazard_view(Seq::new((bits / 8) as nat, |i: int| le_byte(prefix, i as nat))),
    {
        let b = bits as u64;
        proof {
            lemma_le_packed_bits(prefix, 0, b, 0, 0, false);
        }
        let mask = (1u64 << b) - 1;
        let raw = (prefix & mask) | (0b111u64 << 56) | (b << 56);
        proof {
            assert(mask == sub_mask_u64(b));
            let v = le_hazard_view(raw);
            let want = Seq::new((bits / 8) as nat, |i: int| le_byte(prefix, i as nat));
            assert forall|i: int| 0 <= i < bits / 8 implies v.bytes[i] == want[i] by {
                let s = (8 * i) as u64;
                lemma_le_packed_bits(prefix, 0, b, s, 0, false);
            }
            assert(v.bytes =~= want);
        }
        LePacked { raw }
    }

    /// The prefix of an allocation (a value if `value`, else a node): this
    /// prefix, cut to `bits` bits if that is shorter.
    pub fn into_prefix(self, value: bool, bits: Option<usize>) -> (r: Self)
        requires
            bits matches Some(b) ==> b % 8 == 0,
        ensures
            r@ == into_prefix_view(self@, value, bits),
    {
        let raw = self.raw;
        let len = (raw >> 59) & 7;
        let flags: u64 = if value {
            0b10u64 << 56
        } else {
            0b01u64 << 56
        };
        proof {
            lemma_and_le_u64(raw >> 59u64, 7);
            assert(flags == le_flags(value));
        }
        let limit = (len as usize) * 8;
        let new = match bits {
            Some(b) if b < limit => {
                let bb = b as u64;
                proof {
                    lemma_le_packed_bits(0, raw, bb, 0, flags, value);
                }
                let mask = (1u64 << bb) - 1;
                let cut = (raw & mask) | flags | ((bb >> 3) << 59);
                proof {
                    assert(mask == sub_mask_u64(bb));
                    assert forall|i: nat| i < bb / 8 implies #[trigger] le_byte(cut, i) == le_byte(
                        raw,
                        i,
                    ) by {
                        let s = (8 * i) as u64;
                        lemma_le_packed_bits(0, raw, bb, s, flags, value);
                    }
                    let r = le_hazard_view(cut);
                    let want = into_prefix_view(self@, value, bits);
                    assert(r.bytes =~= want.bytes);
                }
                cut
            },
            _ => {
                let kept = (raw & !(0b11u64 << 56)) | flags;
                proof {
                    lemma_le_packed_bits(0, raw, 0, 0, flags, value);
                    assert forall|i: nat| i < 7 implies #[trigger] le_byte(kept, i) == le_byte(raw, i) by {
                        let s = (8 * i) as u64;
                        lemma_le_packed_bits(0, raw, 0, s, flags, value);
                    }
                    let r = le_hazard_view(kept);
                    let want = into_prefix_view(self@, value, bits);
                    assert(r.bytes =~= want.bytes);
                }
                kept
            },
        };
        LePacked { raw: new }
    }

    /// Whether this hazard protects nodes or values.
    pub fn is_active(self) -> (r: bool)
        ensures
            r <==> self@.node || self@.value,
    {
        let raw = self.raw;
        proof {
            lemma_le_packed_bits(raw, 0, 0, 0, 0, false);
        }
        raw & (0b11u64 << 56) > 0
    }

    /// Whether this prefix belongs to a node.
    pub fn is_node(self) -> (r: bool)
        ensures
            r == self@.node,
    {
        (self.raw >> 56) & 1 == 1
    }

    /// Whether this prefix belongs to a value.
    pub fn is_value(self) -> (r: bool)
        ensures
            r == self@.value,
    {
        (self.raw >> 57) & 1 == 1
    }

    /// Length of the prefix in bytes.
    pub fn bytes(&self) -> (r: usize)
        ensures
            r == self@.bytes.len(),
    {
        let raw = self.raw;
        proof {
            lemma_and_le_u64(raw >> 59u64, 7);
        }
        ((raw >> 59) & 7) as usize
    }

    /// Whether the hazard `hazard` forbids freeing what this prefix belongs
    /// to.
    pub fn is_conflict_one(self, hazard: Self) -> (r: bool)
        ensures
            r == conflict_spec(self@, hazard@),
    {
        let p = self.raw;
        let h = hazard.raw;
        proof {
            lemma_le_packed_bits(p, h, 0, 0, 0, false);
            lemma_and_le_u64(h >> 58u64, 1);
        }
        if (h & p) & (0b11u64 << 56) == 0 {
            return false;
        }
        let lp = (p >> 59) & 7;
        let lh = (h >> 59) & 7;
        if (h >> 58) & 1 == 0 && lh > lp {
            return false;
        }
        let len = if lp < lh {
            lp
        } else {
            lh
        };
        let x = p ^ h;
        let bits = len << 3;
        proof {
            lemma_and_le_u64(p >> 59u64, 7);
            lemma_and_le_u64(h >> 59u64, 7);
            lemma_le_packed_bits(0, 0, len, 0, 0, false);
            lemma_le_low_zero(x, len as nat);
            assert((forall|i: nat| i < len ==> #[trigger] le_byte(x, i) == 0) == (forall|i: int|
                0 <= i < len ==> self@.bytes[i] == hazard@.bytes[i])) by {
                if forall|i: nat| i < len ==> #[trigger] le_byte(x, i) == 0 {
                    assert forall|i: int| 0 <= i < len implies self@.bytes[i] == hazard@.bytes[i] by {
                        assert(le_byte(x, i as nat) == 0);
                        lemma_xor_byte(p, h, i as nat);
                    }
                }
                if forall|i: int| 0 <= i < len ==> self@.bytes[i] == hazard@.bytes[i] {
                    assert forall|i: nat| i < len implies #[trigger] le_byte(x, i) == 0 by {
                        assert(self@.bytes[i as int] == hazard@.bytes[i as int]);
                        lemma_xor_byte(p, h, i);
                    }
                }
            }
            lemma_overlaps(self@.bytes, hazard@.bytes, len as nat);
        }
        proof {
            lemma_le_packed_bits(0, 0, bits, 0, 0, false);
        }
        let mask = (1u64 << bits) - 1;
        assert(mask == sub_mask_u64(bits));
        (x & mask) == 0
    }

    /// Whether any of `hazards` forbids freeing what this prefix belongs
    /// to.
    pub fn is_conflict(self, hazards: &[Self; 4]) -> (r: bool)
        ensures
            r <==> exists|i: int| 0 <= i < 4 && conflict_spec(self@, #[trigger] hazards@[i]@),
    {
        let mut i: usize = 0;
        while i < 4
            invariant
                i <= 4,
                forall|j: int| 0 <= j < i ==> !conflict_spec(self@, #[trigger] hazards@[j]@),
            decreases 4 - i,
        {
            if self.is_conflict_one(hazards[i]) {
                return true;
            }
            i = i + 1;
        }
        false
    }
}

// ---------------------------------------------------------------------
// Least significant end, 128 bits.
// ---------------------------------------------------------------------

/// What a [`Le128Packed`] word means: up to fifteen key bytes from bit 0 up,
/// flags in bits 120..123, and the length in bytes in bits 123..127.
pub open spec fn le128_hazard_view(raw: u128) -> HazardView {
    HazardView {
        node: (raw >> 120u128) & 1 == 1,
        value: (raw >> 121u128) & 1 == 1,
        overlap: (raw >> 122u128) & 1 == 1,
        bytes: Seq::new(((raw >> 123u128) & 15) as nat, |i: int| le_byte128(raw, i as nat)),
    }
}

/// The low `k` bits of `x` are zero exactly when its first `k / 8`
/// little-endian bytes are.
proof fn lemma_le128_low_zero(x: u128, m: nat)
    requires
        m <= 15,
    ensures
        (x & sub_mask_u128((8 * m) as u128) == 0) <==> forall|i: nat|
            i < m ==> #[trigger] le_byte128(x, i) == 0,
    decreases m,
{
    if m == 0 {
        lemma_le128_word_bits(x, 0, 0, 0, 0);
    } else {
        lemma_le128_low_zero(x, (m - 1) as nat);
        let k = (8 * (m - 1)) as u128;
        assert(le_byte128(x, (m - 1) as nat) == ((x >> k) & 0xff) as u8);
        lemma_le128_word_bits(x, 0, k, 0, 0);
    }
}

/// The flags of a prefix given to a value (if `v`) or a node.
spec fn le128_flags(v: bool) -> u128 {
    if v {
        0b10u128 << 120u128
    } else {
        0b01u128 << 120u128
    }
}

/// Bit-level facts about the bytes of 128-bit little-endian words.
proof fn lemma_le128_word_bits(x: u128, y: u128, b: u128, s: u128, f: u128)
    by (bit_vector)
    ensures
        s <= 120 ==> ((((x ^ y) >> s) & 0xff == 0) <==> ((x >> s) & 0xff == (y >> s) & 0xff)),
        (((x ^ y) >> s) & 0xff) as u8 == 0 <==> ((x ^ y) >> s) & 0xff == 0,
        ((x >> s) & 0xff) as u8 == ((y >> s) & 0xff) as u8 <==> (x >> s) & 0xff == (y >> s) & 0xff,
        x & sub_mask_u128(0) == 0,
        b <= 112 ==> ((x & sub_mask_u128((b + 8) as u128) == 0) <==> ((x & sub_mask_u128(b) == 0)
            && ((x >> b) & 0xff) as u8 == 0)),
        0u128 >> 0u128 == 0,
        b < 16 && f < 256 && y >> (8 * b) as u128 == 0 ==> ({
            let buffer = y | (f << (8 * b) as u128);
            (buffer >> (8 * b) as u128) & 0xff == f && (b < 15 ==> buffer >> (8 * (b + 1)) as u128
                == 0)
        }),
        b < 16 && f < 256 && s + 8 <= 8 * b ==> ((y | (f << (8 * b) as u128)) >> s) & 0xff == (y
            >> s) & 0xff,
        b < 16 && y >> (8 * b) as u128 == 0 && 8 * b <= s && s < 128 ==> (y >> s) & 0xff == 0,
{
}

/// Bit-level facts about the [`Le128Packed`] layout.
proof fn lemma_le128_packed_bits(x: u128, y: u128, b: u128, s: u128, f: u128, v: bool)
    by (bit_vector)
    ensures
        (0u128 >> 120u128) & 1 != 1 && (0u128 >> 121u128) & 1 != 1 && (0u128 >> 122u128) & 1 != 1
            && (0u128 >> 123u128) & 15 == 0,
        b <= 120 ==> (1u128 << b) >= 1,
        b <= 120 && b % 8 == 0 ==> ({
            let raw = (x & sub_mask_u128(b)) | (0b111u128 << 120u128) | (b << 120u128);
            (raw >> 120u128) & 1 == 1 && (raw >> 121u128) & 1 == 1 && (raw >> 122u128) & 1 == 1
                && (raw >> 123u128) & 15 == b / 8
        }),
        b <= 120 && s + 8 <= b ==> (((x & sub_mask_u128(b)) | (0b111u128 << 120u128) | (b
            << 120u128)) >> s) & 0xff == (x >> s) & 0xff,
        f == le128_flags(v) && b < 120 && b % 8 == 0 ==> ({
            let cut = (y & sub_mask_u128(b)) | f | ((b >> 3u128) << 123u128);
            (cut >> 122u128) & 1 == 0 && (cut >> 123u128) & 15 == b / 8 && ((cut >> 120u128) & 1
                == 1) == !v && ((cut >> 121u128) & 1 == 1) == v
        }),
        f == le128_flags(v) && b < 120 && s + 8 <= b ==> (((y & sub_mask_u128(b)) | f | ((b
            >> 3u128) << 123u128)) >> s) & 0xff == (y >> s) & 0xff,
        f == le128_flags(v) ==> ({
            let kept = (y & !(0b11u128 << 120u128)) | f;
            (kept >> 122u128) & 1 == (y >> 122u128) & 1 && (kept >> 123u128) & 15 == (y >> 123u128)
                & 15 && ((kept >> 120u128) & 1 == 1) == !v && ((kept >> 121u128) & 1 == 1) == v
        }),
        f == le128_flags(v) && s <= 112 ==> (((y & !(0b11u128 << 120u128)) | f) >> s) & 0xff == (y
            >> s) & 0xff,
        (x & (0b11u128 << 120u128) > 0) <==> ((x >> 120u128) & 1 == 1 || (x >> 121u128) & 1 == 1),
        ((y & x) & (0b11u128 << 120u128) == 0) <==> !(((y >> 120u128) & 1 == 1 && (x >> 120u128) & 1
            == 1) || ((y >> 121u128) & 1 == 1 && (x >> 121u128) & 1 == 1)),
        b <= 15 ==> b << 3u128 == 8 * b,
{
}

/// The mask of the low `k` bits of a 128-bit word.
pub open spec fn sub_mask_u128(k: u128) -> u128 {
    ((1u128 << k) - 1) as u128
}

/// A hazard or retired prefix packed in 128 bits, key bytes from the least
/// significant end.
#[derive(Clone, Copy, Debug)]
pub struct Le128Packed {
    raw: u128,
}

impl View for Le128Packed {
    type V = HazardView;

    closed spec fn view(&self) -> HazardView {
        le128_hazard_view(self.raw)
    }
}

impl Le128Packed {
    /// The null hazard: protects nothing.
    pub fn hazard_null() -> (r: Self)
        ensures
            r@ == (HazardView { node: false, value: false, overlap: false, bytes: Seq::empty() }),
    {
        let r = Le128Packed { raw: 0 };
        proof {
            lemma_le128_packed_bits(0, 0, 0, 0, 0, false);
            assert(r@.bytes =~= Seq::<u8>::empty());
        }
        r
    }

    /// The hazard for the first `bits` bits of `prefix` (its least
    /// significant end), protecting nodes, values and overlaps.
    pub fn new_hazard(prefix: u128, bits: usize) -> (r: Self)
        requires
            bits % 8 == 0,
            bits <= 120,
        ensures
            r@ == hazard_view(Seq::new((bits / 8) as nat, |i: int| le_byte128(prefix, i as nat))),
    {
        let b = bits as u128;
        proof {
            lemma_le128_packed_bits(prefix, 0, b, 0, 0, false);
        }
        let mask = (1u128 << b) - 1;
        let raw = (prefix & mask) | (0b111u128 << 120) | (b << 120);
        proof {
            assert(mask == sub_mask_u128(b));
            let v = le128_hazard_view(raw);
            let want = Seq::new((bits / 8) as nat, |i: int| le_byte128(prefix, i as nat));
            assert forall|i: int| 0 <= i < bits / 8 implies v.bytes[i] == want[i] by {
                let s = (8 * i) as u128;
                lemma_le128_packed_bits(prefix, 0, b, s, 0, false);
            }
            assert(v.bytes =~= want);
        }
        Le128Packed { raw }
    }

    /// The prefix of an allocation (a value if `value`, else a node): this
    /// prefix, cut to `bits` bits if that is shorter.
    pub fn into_prefix(self, value: bool, bits: Option<usize>) -> (r: Self)
        requires
            bits matches Some(b) ==> b % 8 == 0,
        ensures
            r@ == into_prefix_view(self@, value, bits),
    {
        let raw = self.raw;
        let len = (raw >> 123) & 15;
        let flags: u128 = if value {
            0b10u128 << 120
        } else {
            0b01u128 << 120
        };
        proof {
            lemma_and_le_u128(raw >> 123u128, 15);
            assert(flags == le128_flags(value));
        }
        let limit = (len as usize) * 8;
        let new = match bits {
            Some(b) if b < limit => {
                let bb = b as u128;
                proof {
                    lemma_le128_packed_bits(0, raw, bb, 0, flags, value);
                }
                let mask = (1u128 << bb) - 1;
                let cut = (raw & mask) | flags | ((bb >> 3) << 123);
                proof {
                    assert(mask == sub_mask_u128(bb));
                    assert forall|i: nat| i < bb / 8 implies #[trigger] le_byte128(cut, i) == le_byte128(
                        raw,
                        i,
                    ) by {
                        let s = (8 * i) as u128;
                        lemma_le128_packed_bits(0, raw, bb, s, flags, value);
                    }
                    let r = le128_hazard_view(cut);
                    let want = into_prefix_view(self@, value, bits);
                    assert(r.bytes =~= want.bytes);
                }
                cut
            },
            _ => {
                let kept = (raw & !(0b11u128 << 120)) | flags;
                proof {
                    lemma_le128_packed_bits(0, raw, 0, 0, flags, value);
                    assert forall|i: nat| i < 15 implies #[trigger] le_byte128(kept, i) == le_byte128(raw, i) by {
                        let s = (8 * i) as u128;
                        lemma_le128_packed_bits(0, raw, 0, s, flags, value);
                    }
                    let r = le128_hazard_view(kept);
                    let want = into_prefix_view(self@, value, bits);
                    assert(r.bytes =~= want.bytes);
                }
                kept
            },
        };
        Le128Packed { raw: new }
    }

    /// Whether this hazard protects nodes or values.
    pub fn is_active(self) -> (r: bool)
        ensures
            r <==> self@.node || self@.value,
    {
        let raw = self.raw;
        proof {
            lemma_le128_packed_bits(raw, 0, 0, 0, 0, false);
        }
        raw & (0b11u128 << 120) > 0
    }

    /// Whether this prefix belongs to a node.
    pub fn is_node(self) -> (r: bool)
        ensures
            r == self@.node,
    {
        (self.raw >> 120) & 1 == 1
    }

    /// Whether this prefix belongs to a value.
    pub fn is_value(self) -> (r: bool)
        ensures
            r == self@.value,
    {
        (self.raw >> 121) & 1 == 1
    }

    /// Length of the prefix in bytes.
    pub fn bytes(&self) -> (r: usize)
        ensures
            r == self@.bytes.len(),
    {
        let raw = self.raw;
        proof {
            lemma_and_le_u128(raw >> 123u128, 15);
        }
        ((raw >> 123) & 15) as usize
    }

    /// Whether the hazard `hazard` forbids freeing what this prefix belongs
    /// to.
    pub fn is_conflict_one(self, hazard: Self) -> (r: bool)
        ensures
            r == conflict_spec(self@, hazard@),
    {
        let p = self.raw;
        let h = hazard.raw;
        proof {
            lemma_le128_packed_bits(p, h, 0, 0, 0, false);
            lemma_and_le_u128(h >> 122u128, 1);
        }
        if (h & p) & (0b11u128 << 120) == 0 {
            return false;
        }
        let lp = (p >> 123) & 15;
        let lh = (h >> 123) & 15;
        if (h >> 122) & 1 == 0 && lh > lp {
            return false;
        }
        let len = if lp < lh {
            lp
        } else {
            lh
        };
        let x = p ^ h;
        let bits = len << 3;
        proof {
            lemma_and_le_u128(p >> 123u128, 15);
            lemma_and_le_u128(h >> 123u128, 15);
            lemma_le128_packed_bits(0, 0, len, 0, 0, false);
            lemma_le128_low_zero(x, len as nat);
            assert((forall|i: nat| i < len ==> #[trigger] le_byte128(x, i) == 0) == (forall|i: int|
                0 <= i < len ==> self@.bytes[i] == hazard@.bytes[i])) by {
                if forall|i: nat| i < len ==> #[trigger] le_byte128(x, i) == 0 {
                    assert forall|i: int| 0 <= i < len implies self@.bytes[i] == hazard@.bytes[i] by {
                        assert(le_byte128(x, i as nat) == 0);
                        lemma_xor_byte128(p, h, i as nat);
                    }
                }
                if forall|i: int| 0 <= i < len ==> self@.bytes[i] == hazard@.bytes[i] {
                    assert forall|i: nat| i < len implies #[trigger] le_byte128(x, i) == 0 by {
                        assert(self@.bytes[i as int] == hazard@.bytes[i as int]);
                        lemma_xor_byte128(p, h, i);
                    }
                }
            }
            lemma_overlaps(self@.bytes, hazard@.bytes, len as nat);
        }
        proof {
            lemma_le128_packed_bits(0, 0, bits, 0, 0, false);
        }
        let mask = (1u128 << bits) - 1;
        assert(mask == sub_mask_u128(bits));
        (x & mask) == 0
    }

    /// Whether any of `hazards` forbids freeing what this prefix belongs
    /// to.
    pub fn is_conflict(self, hazards: &[Self; 4]) -> (r: bool)
        ensures
            r <==> exists|i: int| 0 <= i < 4 && conflict_spec(self@, #[trigger] hazards@[i]@),
    {
        let mut i: usize = 0;
        while i < 4
            invariant
                i <= 4,
                forall|j: int| 0 <= j < i ==> !conflict_spec(self@, #[trigger] hazards@[j]@),
            decreases 4 - i,
        {
            if self.is_conflict_one(hazards[i]) {
                return true;
            }
            i = i + 1;
        }
        false
    }
}

/// A prefix conflicts with a hazard made for the same key bytes, and with
/// no null hazard.
pub proof fn law_hazard_protects_own_prefix(p: HazardView, bytes: Seq<u8>)
    requires
        p.node || p.value,
        p.bytes == bytes,
    ensures
        conflict_spec(p, hazard_view(bytes)),
        !conflict_spec(p, HazardView { node: false, value: false, overlap: false, bytes: Seq::empty() }),
{
}


/// The null hazard, which protects nothing.
pub open spec fn null_view() -> HazardView {
    HazardView { node: false, value: false, overlap: false, bytes: Seq::empty() }
}

/// A packed hazard or retired prefix.
pub trait Prefix: Sized + Copy + View<V = HazardView> {
    /// The null hazard, which protects nothing.
    fn hazard_null() -> (r: Self)
        ensures
            r@ == null_view(),
    ;

    /// The prefix of an allocation (a value if `value`, else a node): this
    /// prefix, cut to `bits` bits if that is shorter.
    fn into_prefix(self, value: bool, bits: Option<usize>) -> (r: Self)
        requires
            bits matches Some(b) ==> b % 8 == 0,
        ensures
            r@ == into_prefix_view(self@, value, bits),
    ;

    /// Whether this hazard protects nodes or values.
    fn is_active(self) -> (r: bool)
        ensures
            r <==> self@.node || self@.value,
    ;

    /// Whether any of `hazards` forbids freeing what this prefix belongs to.
    fn is_conflict(self, hazards: &[Self; 4]) -> (r: bool)
        ensures
            r <==> exists|i: int| 0 <= i < 4 && conflict_spec(self@, #[trigger] hazards@[i]@),
    ;

    /// Length of the prefix in bytes.
    fn bytes(&self) -> (r: usize)
        ensures
            r == self@.bytes.len(),
    ;

    /// Whether this prefix belongs to a node.
    fn is_node(self) -> (r: bool)
        ensures
            r == self@.node,
    ;

    /// Whether this prefix belongs to a value.
    fn is_value(self) -> (r: bool)
        ensures
            r == self@.value,
    ;
}

impl Prefix for BePacked {
    fn hazard_null() -> (r: Self) {
        BePacked::hazard_null()
    }

    fn into_prefix(self, value: bool, bits: Option<usize>) -> (r: Self) {
        BePacked::into_prefix(self, value, bits)
    }

    fn is_active(self) -> (r: bool) {
        BePacked::is_active(self)
    }

    fn is_conflict(self, hazards: &[Self; 4]) -> (r: bool) {
        BePacked::is_conflict(self, hazards)
    }

    fn bytes(&self) -> (r: usize) {
        BePacked::bytes(self)
    }

    fn is_node(self) -> (r: bool) {
        BePacked::is_node(self)
    }

    fn is_value(self) -> (r: bool) {
        BePacked::is_value(self)
    }
}

impl Prefix for LePacked {
    fn hazard_null() -> (r: Self) {
        LePacked::hazard_null()
    }

    fn into_prefix(self, value: bool, bits: Option<usize>) -> (r: Self) {
        LePacked::into_prefix(self, value, bits)
    }

    fn is_active(self) -> (r: bool) {
        LePacked::is_active(self)
    }

    fn is_conflict(self, hazards: &[Self; 4]) -> (r: bool) {
        LePacked::is_conflict(self, hazards)
    }

    fn bytes(&self) -> (r: usize) {
        LePacked::bytes(self)
    }

    fn is_node(self) -> (r: bool) {
        LePacked::is_node(self)
    }

    fn is_value(self) -> (r: bool) {
        LePacked::is_value(self)
    }
}

impl Prefix for Le128Packed {
    fn hazard_null() -> (r: Self) {
        Le128Packed::hazard_null()
    }

    fn into_prefix(self, value: bool, bits: Option<usize>) -> (r: Self) {
        Le128Packed::into_prefix(self, value, bits)
    }

    fn is_active(self) -> (r: bool) {
        Le128Packed::is_active(self)
    }

    fn is_conflict(self, hazards: &[Self; 4]) -> (r: bool) {
        Le128Packed::is_conflict(self, hazards)
    }

    fn bytes(&self) -> (r: usize) {
        Le128Packed::bytes(self)
    }

    fn is_node(self) -> (r: bool) {
        Le128Packed::is_node(self)
    }

    fn is_value(self) -> (r: bool) {
        Le128Packed::is_value(self)
    }
}

/// Whether some hazard of `hazards` forbids freeing what `p` belongs to.
pub open spec fn protected<P: Prefix>(p: P, hazards: Seq<P>) -> bool {
    exists|j: int| 0 <= j < hazards.len() && conflict_spec(p@, #[trigger] hazards[j]@)
}

/// The retired entries of `retired` that `hazards` still protect (if
/// `keep`), or those they do not (otherwise), in order.
pub open spec fn retained<P: Prefix>(retired: Seq<(P, u64)>, hazards: Seq<P>, keep: bool) -> Seq<
    (P, u64),
>
    decreases retired.len(),
{
    if retired.len() == 0 {
        Seq::empty()
    } else {
        let prev = retained(retired.drop_last(), hazards, keep);
        if protected(retired.last().0, hazards) == keep {
            prev.push(retired.last())
        } else {
            prev
        }
    }
}

/// Split retired allocations (prefix, address) into those that a hazard of
/// `snapshot` still protects, kept in order, and those that may be freed,
/// in order. The snapshot is read four hazards at a time.
pub fn flush_partition<P: Prefix>(retired: &Vec<(P, u64)>, snapshot: &Vec<P>) -> (r: (
    Vec<(P, u64)>,
    Vec<(P, u64)>,
))
    requires
        snapshot@.len() % 4 == 0,
    ensures
        r.0@ == retained(retired@, snapshot@, true),
        r.1@ == retained(retired@, snapshot@, false),
{
    let mut kept: Vec<(P, u64)> = Vec::new();
    let mut freed: Vec<(P, u64)> = Vec::new();
    let mut i: usize = 0;
    while i < retired.len()
        invariant
            i <= retired@.len(),
            snapshot@.len() % 4 == 0,
            kept@ == retained(retired@.take(i as int), snapshot@, true),
            freed@ == retained(retired@.take(i as int), snapshot@, false),
        decreases retired@.len() - i,
    {
        let entry = retired[i];
        let prefix = entry.0;
        let mut hit = false;
        let mut c: usize = 0;
        while c < snapshot.len()
            invariant
                c <= snapshot@.len(),
                c % 4 == 0,
                snapshot@.len() % 4 == 0,
                hit <==> exists|j: int| 0 <= j < c && conflict_spec(prefix@, #[trigger] snapshot@[j]@),
            decreases snapshot@.len() - c,
        {
            let chunk = [snapshot[c], snapshot[c + 1], snapshot[c + 2], snapshot[c + 3]];
            let found = prefix.is_conflict(&chunk);
            proof {
                assert forall|k: int| 0 <= k < 4 implies #[trigger] chunk@[k] == snapshot@[c + k] by {
                    if k == 0 {
                    } else if k == 1 {
                    } else if k == 2 {
                    } else {
                    }
                }
                if found {
                    let k = choose|k: int| 0 <= k < 4 && conflict_spec(prefix@, #[trigger] chunk@[k]@);
                    assert(conflict_spec(prefix@, snapshot@[c + k]@));
                }
                if exists|j: int| 0 <= j < c + 4 && conflict_spec(prefix@, #[trigger] snapshot@[j]@) {
                    let j = choose|j: int| 0 <= j < c + 4 && conflict_spec(prefix@, #[trigger] snapshot@[j]@);
                    if j >= c {
                        assert(chunk@[j - c] == snapshot@[j]);
                    }
                }
            }
            hit = hit || found;
            c = c + 4;
        }
        proof {
            assert(c == snapshot@.len());
            let next = retired@.take(i + 1);
            assert(next.drop_last() =~= retired@.take(i as int));
            assert(next.last() == entry);
        }
        if hit {
            kept.push(entry);
        } else {
            freed.push(entry);
        }
        i = i + 1;
    }
    proof {
        assert(retired@.take(i as int) =~= retired@);
    }
    (kept, freed)
}

/// What a guard decides when it is dropped, given the number of retired
/// allocations, the reclaim threshold and its cycle counter: whether to
/// flush now, and the next cycle counter. Below the threshold nothing is
/// flushed and the cycle restarts; at or above it, a flush happens every
/// `threshold + 1` drops.
pub fn drop_decision(retired: usize, threshold: usize, cycle: usize) -> (r: (bool, usize))
    requires
        cycle <= threshold,
    ensures
        retired < threshold ==> r == (false, 0usize),
        retired >= threshold ==> r.0 == (cycle == 0) && r.1 == (if cycle == threshold {
            0
        } else {
            cycle + 1
        }),
        r.1 <= threshold,
{
    if retired < threshold {
        return (false, 0);
    }
    let flush = cycle == 0;
    let next = if cycle == threshold {
        0
    } else {
        cycle + 1
    };
    (flush, next)
}


/// The hazard announced by an operation on an integer key: the key bytes
/// read so far, at most seven of them.
pub fn hazard_integer(reader: &unsigned::Reader) -> (r: BePacked)
    requires
        reader.spec_len() % 8 == 0,
    ensures
        r@ == hazard_view(reader.key().take(
            if reader.key().len() <= 7 {
                reader.key().len() as int
            } else {
                7
            },
        )),
{
    let bits = reader.len().bits();
    let bits = if bits < 56 {
        bits
    } else {
        56
    };
    let r = BePacked::new_hazard(reader.buffer(), bits);
    proof {
        let m = if reader.key().len() <= 7 {
            reader.key().len() as int
        } else {
            7
        };
        assert(bits / 8 == m);
        assert(Seq::new((bits / 8) as nat, |i: int| be_byte(reader.spec_buffer(), i as nat))
            =~= reader.key().take(m));
    }
    r
}

/// The first sixteen bytes of `slice` as a little-endian 128-bit word,
/// padded with zero bytes past the end of `slice`.
pub fn read_u128(slice: &[u8]) -> (r: u128)
    ensures
        forall|i: nat| i < 16 ==> #[trigger] le_byte128(r, i) == padded_byte(slice@, i as int),
{
    let n = if slice.len() < 16 {
        slice.len()
    } else {
        16
    };
    let mut buffer: u128 = 0;
    let mut i: usize = 0;
    proof {
        lemma_le128_word_bits(0, 0, 0, 0, 0);
    }
    while i < n
        invariant
            i <= n <= 16,
            n <= slice@.len(),
            n == slice@.len() || n == 16,
            i < 16 ==> buffer >> (8 * i) as u128 == 0,
            forall|j: nat| j < i ==> #[trigger] le_byte128(buffer, j) == slice@[j as int],
        decreases n - i,
    {
        let old = buffer;
        let b = slice[i] as u128;
        let s = (i as u128) * 8;
        buffer = old | (b << s);
        proof {
            let ii = i as u128;
            assert(s == (8 * ii) as u128);
            lemma_le128_word_bits(0, old, ii, 0, b);
            let c = slice@[i as int];
            assert(((buffer >> (8 * ii) as u128) & 0xff) as u8 == c);
            assert forall|j: nat| j <= i implies #[trigger] le_byte128(buffer, j) == slice@[j as int] by {
                let t = (8 * j) as u128;
                if j == i {
                    assert(t == (8 * ii) as u128);
                    assert(le_byte128(buffer, j) == ((buffer >> t) & 0xff) as u8);
                }
                if j < i {
                    assert(le_byte128(old, j) == slice@[j as int]);
                    assert(t + 8 <= 8 * ii);
                    lemma_le128_word_bits(0, old, ii, t, b);
                }
            }
        }
        i = i + 1;
    }
    proof {
        assert forall|j: nat| j < 16 implies #[trigger] le_byte128(buffer, j) == padded_byte(
            slice@,
            j as int,
        ) by {
            if j >= n {
                let t = (8 * j) as u128;
                let nn = n as u128;
                lemma_le128_word_bits(0, buffer, nn, t, 0);
            }
        }
    }
    buffer
}

/// The hazard announced by an operation on a byte-string key: the key
/// bytes read so far (its terminator included), at most fifteen of them.
pub fn hazard_bytes<T: Terminate>(reader: &bytes::Reader<'_, T>) -> (r: Le128Packed)
    requires
        reader.spec_slice().len() < crate::len::UNBOUNDED,
    ensures
        r@ == hazard_view(reader.key().take(
            if reader.key().len() <= 15 {
                reader.key().len() as int
            } else {
                15
            },
        )),
{
    let prefix = read_u128(reader.as_slice());
    let len = reader.len().bytes();
    let m = if len < 15 {
        len
    } else {
        15
    };
    let r = Le128Packed::new_hazard(prefix, m * 8);
    proof {
        let key = reader.key();
        assert forall|i: int| 0 <= i < m implies le_byte128(prefix, i as nat) == key[i] by {
            assert(le_byte128(prefix, i as nat) == padded_byte(reader.spec_slice(), i));
        }
        assert(Seq::new(((m * 8) / 8) as nat, |i: int| le_byte128(prefix, i as nat)) =~= key.take(
            m as int,
        ));
    }
    r
}

/// The hazard announced by an operation on a key held in an array of eight
/// bytes: its first key bytes, at most seven of them.
pub fn hazard_slow(reader: &slow::Reader) -> (r: LePacked)
    ensures
        r@ == hazard_view(reader.key().take(
            if reader.key().len() <= 7 {
                reader.key().len() as int
            } else {
                7
            },
        )),
{
    let buffer = reader.buffer();
    let prefix = read_u64(buffer.as_slice());
    let len = reader.len().bytes();
    let m = if len < 7 {
        len
    } else {
        7
    };
    let r = LePacked::new_hazard(prefix, m * 8);
    proof {
        let key = reader.key();
        assert forall|i: int| 0 <= i < m implies le_byte(prefix, i as nat) == key[i] by {
            assert(le_byte(prefix, i as nat) == padded_byte(buffer@, i));
        }
        assert(Seq::new(((m * 8) / 8) as nat, |i: int| le_byte(prefix, i as nat)) =~= key.take(
            m as int,
        ));
    }
    r
}

} // verus!
