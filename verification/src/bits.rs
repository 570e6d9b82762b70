//! Small facts about masking, shared by the packed layouts.

use vstd::prelude::*;

verus! {

/// A word masked by `m` is at most `m`.
pub proof fn lemma_and_le_u64(x: u64, m: u64)
    by (bit_vector)
    ensures
        x & m <= m,
{
}

/// A word masked by `m` is at most `m`.
pub proof fn lemma_and_le_u128(x: u128, m: u128)
    by (bit_vector)
    ensures
        x & m <= m,
{
}

/// A multiple of eight below 128 passes the mask of bits 3 to 6 unchanged.
pub proof fn lemma_eighths_usize(x: usize)
    by (bit_vector)
    ensures
        x <= 120 && x % 8 == 0 ==> x & 0b0111_1000 == x,
{
}

} // verus!
