//! Shared helpers of the tree: structural modification outcomes,
//! uniqueness of key bytes, and byte search within a word.

use vstd::prelude::*;
use vstd::std_specs::bits::u64_trailing_zeros;
use vstd::std_specs::bits::axiom_u64_trailing_zeros;
use vstd::bits::lemma_u32_shr_is_div;
use vstd::arithmetic::power2::lemma2_to64;

use crate::bits::lemma_and_le_u64;

verus! {

/// Structural modification operation.
#[derive(Clone, Copy, Debug, PartialEq, Eq, Structural)]
pub enum Smo {
    /// A node is replaced by a newly allocated node.
    ReplaceNode,
    /// A node with no entries is removed.
    DeleteNode,
    /// A node with a single entry is merged into its parent edge.
    CompressEdge,
}

impl Smo {
    /// Whether this operation allocates a node.
    pub fn is_allocate(self) -> (r: bool)
        ensures
            r <==> self == Smo::ReplaceNode,
    {
        match self {
            Smo::ReplaceNode => true,
            _ => false,
        }
    }
}

/// Byte `i` of `x`, counting from the least significant byte.
pub open spec fn le_byte(x: u64, i: nat) -> u8 {
    ((x >> (8 * i) as u64) & 0xff) as u8
}

/// Whether `keys` holds no byte twice.
pub fn is_unique(keys: &[u8]) -> (r: bool)
    ensures
        r <==> keys@.no_duplicates(),
{
    // Bit `b` of `lo` (resp. `hi`) records key `b` (resp. `128 + b`).
    let mut lo: u128 = 0;
    let mut hi: u128 = 0;
    let mut i: usize = 0;
    assert forall|k: u8| #![trigger seen(0, 0, k)] !seen(0, 0, k) by {
        lemma_bitset_bits(0, 0, k);
    }
    while i < keys.len()
        invariant
            i <= keys.len(),
            keys@.take(i as int).no_duplicates(),
            forall|k: u8|
                #![trigger seen(lo, hi, k)]
                seen(lo, hi, k) <==> keys@.take(i as int).contains(k),
        decreases keys.len() - i,
    {
        let key = keys[i];
        let row = key / 128;
        let col = key % 128;
        let bit: u128 = 1u128 << col;
        let present = if row == 0 { lo & bit > 0 } else { hi & bit > 0 };
        assert(present == seen(lo, hi, key)) by {
            lemma_bit_test(lo, col);
            lemma_bit_test(hi, col);
        }
        if present {
            proof {
                let j = choose|j: int| 0 <= j < i && #[trigger] keys@.take(i as int)[j] == key;
                assert(keys@[j] == keys@[i as int]);
            }
            return false;
        }
        let ghost old_lo = lo;
        let ghost old_hi = hi;
        if row == 0 {
            lo = lo | bit;
        } else {
            hi = hi | bit;
        }
        proof {
            assert forall|k: u8| #[trigger] seen(lo, hi, k) <==> keys@.take(i + 1).contains(k) by {
                lemma_bit_set(old_lo, col, k % 128);
                lemma_bit_set(old_hi, col, k % 128);
                assert(seen(lo, hi, k) <==> (k == key || seen(old_lo, old_hi, k))) by {
                    if k < 128 {
                        assert(k % 128 == k);
                    } else {
                        assert((k - 128) as u128 == (k % 128) as u128);
                    }
                    if key < 128 {
                        assert(col == key);
                    } else {
                        assert(col == key - 128);
                    }
                }
                assert(keys@.take(i + 1) == keys@.take(i as int).push(key));
                if keys@.take(i as int).contains(k) {
                    let j = choose|j: int| 0 <= j < i && #[trigger] keys@.take(i as int)[j] == k;
                    assert(keys@.take(i + 1)[j] == k);
                    assert(keys@.take(i + 1).contains(k));
                }
                if k == key {
                    assert(keys@.take(i + 1)[i as int] == k);
                    assert(keys@.take(i + 1).contains(k));
                }
                if keys@.take(i + 1).contains(k) && k != key {
                    let j = choose|j: int| 0 <= j < i + 1 && #[trigger] keys@.take(i + 1)[j] == k;
                    assert(keys@.take(i as int)[j] == k);
                    assert(keys@.take(i as int).contains(k));
                }
            }
            assert(keys@.take(i + 1) == keys@.take(i as int).push(key));
            assert forall|a: int, b: int|
                0 <= a < i + 1 && 0 <= b < i + 1 && a != b implies #[trigger] keys@.take(i + 1)[a]
                != #[trigger] keys@.take(i + 1)[b] by {
                if a == i {
                    if keys@.take(i + 1)[b] == key {
                        assert(keys@.take(i as int)[b] == key);
                    }
                } else if b == i {
                    if keys@.take(i + 1)[a] == key {
                        assert(keys@.take(i as int)[a] == key);
                    }
                }
            }
        }
        i = i + 1;
    }
    assert(keys@.take(i as int) == keys@);
    true
}

/// Whether key byte `k` is recorded in the pair of bit sets `(lo, hi)`.
pub open spec fn seen(lo: u128, hi: u128, k: u8) -> bool {
    if k < 128 {
        (lo >> (k as u128)) & 1 == 1
    } else {
        (hi >> ((k - 128) as u128)) & 1 == 1
    }
}

/// Testing and setting bit `col` of a 128-bit set.
proof fn lemma_bitset_bits(x: u128, col: u8, k: u8)
    by (bit_vector)
    ensures
        (0u128 >> (k as u128)) & 1 == 0,
        k >= 128 ==> (0u128 >> ((k - 128) as u128)) & 1 == 0,
        col < 128 ==> ((x & (1u128 << col) > 0) == ((x >> (col as u128)) & 1 == 1)),
        col < 128 && k < 128 ==> (((x | (1u128 << col)) >> (k as u128)) & 1 == 1 <==> (k == col
            || (x >> (k as u128)) & 1 == 1)),
{
}

proof fn lemma_bit_test(x: u128, col: u8)
    requires
        col < 128,
    ensures
        (x & (1u128 << col) > 0) == ((x >> (col as u128)) & 1 == 1),
{
    lemma_bitset_bits(x, col, 0);
}

proof fn lemma_bit_set(x: u128, col: u8, k: u8)
    requires
        col < 128,
        k < 128,
    ensures
        ((x | (1u128 << col)) >> (k as u128)) & 1 == 1 <==> (k == col || (x >> (k as u128)) & 1
            == 1),
{
    lemma_bitset_bits(x, col, k);
}

/// Index of the lowest zero byte of `x`, or 8 if no byte is zero.
pub open spec fn first_zero_byte(x: u64) -> nat
    decreases 8nat,
{
    first_zero_byte_from(x, 0)
}

/// Index of the lowest zero byte of `x` at or above `i`, or 8.
pub open spec fn first_zero_byte_from(x: u64, i: nat) -> nat
    decreases 8 - i,
{
    if i >= 8 {
        8
    } else if le_byte(x, i) == 0 {
        i
    } else {
        first_zero_byte_from(x, i + 1)
    }
}

/// Compute the lowest byte index at which byte 0 appears in `array`.
/// If there is no zero, return 8.
pub fn find_zero(array: u64) -> (r: u8)
    ensures
        r == first_zero_byte(array),
{
    let high_if_zero_or_ge_0x80 = array.wrapping_sub(0x0101_0101_0101_0101);
    let high_if_lt_0x80 = !array;
    let high_if_zero = high_if_zero_or_ge_0x80 & high_if_lt_0x80 & 0x8080_8080_8080_8080;
    let tz = high_if_zero.trailing_zeros();
    proof {
        lemma_swar_bits(array, high_if_zero_or_ge_0x80, 0, 0);
        lemma_find_zero(array, high_if_zero);
    }
    (tz >> 3) as u8
}

/// The word `h` marks each zero byte of `x` below the lowest one by its top
/// bit, and marks no byte below that one. Byte `k` is taken to be the
/// lowest zero byte; `w` is a wrapping difference and `t` a bit position.
proof fn lemma_swar_bits(x: u64, w: u64, t: u64, k: u64)
    by (bit_vector)
    ensures
        w == (if x - 0x0101_0101_0101_0101u64 < 0 {
            (x - 0x0101_0101_0101_0101u64 + 0x1_0000_0000_0000_0000int) as u64
        } else {
            (x - 0x0101_0101_0101_0101u64) as u64
        }) ==> w == ((x + 0xFEFE_FEFE_FEFE_FEFFu64) as u64),
        ({
            let h = ((x + 0xFEFE_FEFE_FEFE_FEFFu64) as u64) & !x & 0x8080_8080_8080_8080u64;
            k < 8 && (k > 0 ==> (x >> 0u64) & 0xff != 0) && (k > 1 ==> (x >> 8u64) & 0xff != 0) && (
            k > 2 ==> (x >> 16u64) & 0xff != 0) && (k > 3 ==> (x >> 24u64) & 0xff != 0) && (k > 4
                ==> (x >> 32u64) & 0xff != 0) && (k > 5 ==> (x >> 40u64) & 0xff != 0) && (k > 6 ==> (x
                >> 48u64) & 0xff != 0) && (x >> (8 * k) as u64) & 0xff == 0 ==> h & !(
            0xffff_ffff_ffff_ffffu64 << (8 * k + 7) as u64) == 0 && (h >> (8 * k + 7) as u64) & 1
                == 1
        }),
        ((x >> 0u64) & 0xff != 0 && (x >> 8u64) & 0xff != 0 && (x >> 16u64) & 0xff != 0 && (x
            >> 24u64) & 0xff != 0 && (x >> 32u64) & 0xff != 0 && (x >> 40u64) & 0xff != 0 && (x
            >> 48u64) & 0xff != 0 && (x >> 56u64) & 0xff != 0) ==> ((x + 0xFEFE_FEFE_FEFE_FEFFu64)
            as u64) & !x & 0x8080_8080_8080_8080u64 == 0,
        k < 64 && (w >> k) & 1 == 1 ==> w != 0,
        t < k && k < 64 && w & !(0xffff_ffff_ffff_ffffu64 << k) == 0 ==> (w >> t) & 1 != 1,
{
}

proof fn lemma_trailing_zeros_exact(h: u64, k: u64)
    requires
        k < 64,
        h & !(0xffff_ffff_ffff_ffffu64 << k) == 0,
        (h >> k) & 1 == 1,
    ensures
        u64_trailing_zeros(h) == k,
        (u64_trailing_zeros(h) >> 3) as nat == k / 8,
{
    axiom_u64_trailing_zeros(h);
    let tz = u64_trailing_zeros(h) as u64;
    lemma_swar_bits(0, h, tz, k);
    if tz > k {
        assert((h >> k) & 1 == 0);
    }
    let t = u64_trailing_zeros(h);
    lemma_u32_shr_is_div(t, 3);
    lemma2_to64();
}

proof fn lemma_find_zero(x: u64, h: u64)
    requires
        h == ((x + 0xFEFE_FEFE_FEFE_FEFFu64) as u64) & !x & 0x8080_8080_8080_8080u64,
    ensures
        (u64_trailing_zeros(h) >> 3) as nat == first_zero_byte(x),
{
    reveal_with_fuel(first_zero_byte_from, 9);
    lemma_le_bytes(x);
    let k: u64 = if le_byte(x, 0) == 0 {
        0
    } else if le_byte(x, 1) == 0 {
        1
    } else if le_byte(x, 2) == 0 {
        2
    } else if le_byte(x, 3) == 0 {
        3
    } else if le_byte(x, 4) == 0 {
        4
    } else if le_byte(x, 5) == 0 {
        5
    } else if le_byte(x, 6) == 0 {
        6
    } else if le_byte(x, 7) == 0 {
        7
    } else {
        8
    };
    lemma_swar_bits(x, 0, 0, k);
    if k < 8 {
        lemma_trailing_zeros_exact(h, (8 * k + 7) as u64);
    } else {
        axiom_u64_trailing_zeros(h);
        lemma_u32_shr_is_div(64, 3);
        lemma2_to64();
    }
}

/// A byte of `x` is zero exactly when the corresponding shifted mask is zero.
pub proof fn lemma_le_bytes(x: u64)
    ensures
        (le_byte(x, 0) == 0) == ((x >> 0u64) & 0xff == 0),
        (le_byte(x, 1) == 0) == ((x >> 8u64) & 0xff == 0),
        (le_byte(x, 2) == 0) == ((x >> 16u64) & 0xff == 0),
        (le_byte(x, 3) == 0) == ((x >> 24u64) & 0xff == 0),
        (le_byte(x, 4) == 0) == ((x >> 32u64) & 0xff == 0),
        (le_byte(x, 5) == 0) == ((x >> 40u64) & 0xff == 0),
        (le_byte(x, 6) == 0) == ((x >> 48u64) & 0xff == 0),
        (le_byte(x, 7) == 0) == ((x >> 56u64) & 0xff == 0),
{
    lemma_and_le_u64(x >> 0u64, 0xff);
    lemma_and_le_u64(x >> 8u64, 0xff);
    lemma_and_le_u64(x >> 16u64, 0xff);
    lemma_and_le_u64(x >> 24u64, 0xff);
    lemma_and_le_u64(x >> 32u64, 0xff);
    lemma_and_le_u64(x >> 40u64, 0xff);
    lemma_and_le_u64(x >> 48u64, 0xff);
    lemma_and_le_u64(x >> 56u64, 0xff);
}

} // verus!
