//! Key lengths, counted in bytes ([`Byte`]) or in bits ([`Bit`]).
//!
//! Both types carry an upper bound `MAX` as a const parameter, and every
//! value stays within that bound (a type invariant).

use vstd::prelude::*;

verus! {

/// Upper bound of a byte length that no other bound limits: the largest
/// value every supported `usize` can hold (keys are at most 4 GiB long).
pub const UNBOUNDED: usize = 0xFFFF_FFFF;

/// Upper bound of the byte length of a slice edge (13 bits).
pub const SLICE_MAX: usize = 8191;

/// Key length in bytes, bounded above by `MAX`.
#[derive(Clone, Copy, Debug)]
pub struct Byte<const MAX: usize> {
    len: usize,
}

impl<const MAX: usize> View for Byte<MAX> {
    type V = nat;

    closed spec fn view(&self) -> nat {
        self.len as nat
    }
}

impl<const MAX: usize> Byte<MAX> {
    #[verifier::type_invariant]
    closed spec fn inv(self) -> bool {
        self.len <= MAX
    }

    /// Length of `len` bytes (any length fits an unbounded `Byte`).
    pub fn new(len: usize) -> (r: Self)
        requires
            len <= MAX,
        ensures
            r@ == len,
    {
        Byte { len }
    }

    /// Length `len`, which the caller guarantees is at most `MAX`.
    pub fn new_unchecked(len: usize) -> (r: Self)
        requires
            len <= MAX,
        ensures
            r@ == len,
    {
        Byte { len }
    }

    /// Convert a length with another bound, clamping it to `MAX`.
    pub fn clamp_from<const OTHER: usize>(len: Byte<OTHER>) -> (r: Self)
        ensures
            r@ == if len@ <= MAX { len@ } else { MAX as nat },
    {
        let bytes = len.bytes();
        if bytes <= MAX {
            Byte { len: bytes }
        } else {
            Byte { len: MAX }
        }
    }

    /// Length of an empty key.
    pub fn zero() -> (r: Self)
        ensures
            r@ == 0,
    {
        Byte { len: 0 }
    }

    /// Length of a key of a single byte.
    pub fn byte() -> (r: Self)
        requires
            1 <= MAX,
        ensures
            r@ == 1,
    {
        Byte { len: 1 }
    }

    /// The largest length.
    pub fn max() -> (r: Self)
        ensures
            r@ == MAX,
    {
        Byte { len: MAX }
    }

    /// One byte if `value`, else zero bytes.
    pub fn from_bool(value: bool) -> (r: Self)
        requires
            1 <= MAX,
        ensures
            r@ == (if value { 1nat } else { 0nat }),
    {
        if value {
            Byte { len: 1 }
        } else {
            Byte { len: 0 }
        }
    }

    /// Sum of three lengths, if it is at most `MAX`.
    pub fn try_add(parent: Self, byte: Self, child: Self) -> (r: Option<Self>)
        requires
            parent@ + byte@ + child@ <= usize::MAX,
        ensures
            r is Some <==> parent@ + byte@ + child@ <= MAX,
            r matches Some(sum) ==> sum@ == parent@ + byte@ + child@,
    {
        let sum = parent.len + byte.len + child.len;
        if sum <= MAX {
            Some(Byte { len: sum })
        } else {
            None
        }
    }

    /// The length in bits (eight per byte), wrapping on overflow.
    pub fn bits(self) -> (r: usize)
        ensures
            self@ * 8 <= usize::MAX ==> r == self@ * 8,
    {
        let r = self.len.wrapping_mul(8);
        proof {
            if self@ * 8 <= usize::MAX {
                vstd::arithmetic::div_mod::lemma_small_mod(
                    (self.len as nat * 8) as nat,
                    (usize::MAX as nat + 1) as nat,
                );
            }
        }
        r
    }

    /// The length in bytes.
    pub fn bytes(self) -> (r: usize)
        ensures
            r == self@,
            r <= MAX,
    {
        proof {
            use_type_invariant(&self);
        }
        self.len
    }

    /// Every length from zero up to and including this one.
    pub fn range_to(self) -> (r: Vec<Self>)
        ensures
            r.len() == self@ + 1,
            forall|i: int| 0 <= i < r.len() ==> #[trigger] r[i]@ == i,
    {
        proof {
            use_type_invariant(&self);
        }
        let mut out: Vec<Self> = Vec::new();
        let mut i: usize = 0;
        while i < self.len
            invariant
                i <= self.len,
                self.len <= MAX,
                out.len() == i,
                forall|j: int| 0 <= j < out.len() ==> #[trigger] out[j]@ == j,
            decreases self.len - i,
        {
            out.push(Byte { len: i });
            i = i + 1;
        }
        out.push(Byte { len: i });
        out
    }

    /// Sum of two lengths, which the caller guarantees is at most `MAX`.
    pub fn add(self, rhs: Self) -> (r: Self)
        requires
            self@ + rhs@ <= MAX,
        ensures
            r@ == self@ + rhs@,
    {
        Byte { len: self.len + rhs.len }
    }

    /// Add `rhs` in place; the sum must be at most `MAX`.
    pub fn add_assign(&mut self, rhs: Self)
        requires
            old(self)@ + rhs@ <= MAX,
        ensures
            final(self)@ == old(self)@ + rhs@,
    {
        self.len = self.len + rhs.len;
    }

    /// Difference of two lengths, where `rhs` is at most `self`.
    pub fn sub(self, rhs: Self) -> (r: Self)
        requires
            rhs@ <= self@,
        ensures
            r@ == self@ - rhs@,
    {
        proof {
            use_type_invariant(&self);
        }
        Byte { len: self.len - rhs.len }
    }

    /// Subtract `rhs` in place, where `rhs` is at most `self`.
    pub fn sub_assign(&mut self, rhs: Self)
        requires
            rhs@ <= old(self)@,
        ensures
            final(self)@ == old(self)@ - rhs@,
    {
        proof {
            use_type_invariant(&*self);
        }
        self.len = self.len - rhs.len;
    }
}

/// Key length in bits, bounded above by `MAX`.
#[derive(Clone, Copy, Debug)]
pub struct Bit<const MAX: u8> {
    len: u8,
}

impl<const MAX: u8> View for Bit<MAX> {
    type V = nat;

    closed spec fn view(&self) -> nat {
        self.len as nat
    }
}

/// `len` rounded down to a multiple of eight, within the six low bits.
pub open spec fn masked(len: u8) -> nat {
    (len as nat % 64) / 8 * 8
}

proof fn lemma_mask_u8(len: u8)
    ensures
        (len & 0b11_1000u8) as nat == masked(len),
        (len & 0b11_1000u8) <= len,
{
    assert((len & 0b11_1000u8) == (len % 64) / 8 * 8) by (bit_vector);
    assert((len & 0b11_1000u8) <= len) by (bit_vector);
}

impl<const MAX: u8> Bit<MAX> {
    #[verifier::type_invariant]
    closed spec fn inv(self) -> bool {
        self.len <= MAX
    }

    /// Keep bits 3..6 of `len`: a multiple of eight below 64.
    pub fn new_masked(len: u8) -> (r: Self)
        requires
            masked(len) <= MAX,
        ensures
            r@ == masked(len),
    {
        proof {
            lemma_mask_u8(len);
        }
        Bit { len: len & 0b11_1000 }
    }

    /// Length `len`, which the caller guarantees is at most `MAX`.
    pub fn new_unchecked(len: u8) -> (r: Self)
        requires
            len <= MAX,
        ensures
            r@ == len,
    {
        Bit { len }
    }

    /// Length of an empty key.
    pub fn zero() -> (r: Self)
        ensures
            r@ == 0,
    {
        Bit { len: 0 }
    }

    /// Length of a key of a single byte.
    pub fn byte() -> (r: Self)
        requires
            8 <= MAX,
        ensures
            r@ == 8,
    {
        Bit { len: 8 }
    }

    /// The largest length.
    pub fn max() -> (r: Self)
        ensures
            r@ == MAX,
    {
        Bit { len: MAX }
    }

    /// The smaller of `lo` and `hi`, within the bound of `lo`.
    pub fn min<const LO: u8, const HI: u8>(lo: Bit<LO>, hi: Bit<HI>) -> (r: Bit<LO>)
        requires
            LO <= HI,
        ensures
            r@ == if lo@ <= hi@ { lo@ } else { hi@ },
    {
        let lo = lo.into_u8();
        let hi = hi.into_u8();
        if lo <= hi {
            Bit { len: lo }
        } else {
            Bit { len: hi }
        }
    }

    /// Round down to a multiple of eight.
    pub fn align_down(self) -> (r: Self)
        ensures
            r@ == masked(self@ as u8),
            r@ <= self@,
    {
        proof {
            use_type_invariant(&self);
            lemma_mask_u8(self.len);
        }
        Bit { len: self.len & 0b11_1000 }
    }

    /// Sum of three lengths, if it is at most `MAX`.
    pub fn try_add(parent: Self, byte: Self, child: Self) -> (r: Option<Self>)
        requires
            parent@ + byte@ + child@ <= u8::MAX,
        ensures
            r is Some <==> parent@ + byte@ + child@ <= MAX,
            r matches Some(sum) ==> sum@ == parent@ + byte@ + child@,
    {
        let sum = parent.len + byte.len + child.len;
        if sum <= MAX {
            Some(Bit { len: sum })
        } else {
            None
        }
    }

    /// The raw number of bits.
    pub fn into_u8(self) -> (r: u8)
        ensures
            r == self@,
            r <= MAX,
    {
        proof {
            use_type_invariant(&self);
        }
        self.len
    }

    /// The length in bits.
    pub fn bits(self) -> (r: usize)
        ensures
            r == self@,
    {
        self.len as usize
    }

    /// The number of whole bytes.
    pub fn bytes(self) -> (r: usize)
        ensures
            r == self@ / 8,
            r <= MAX / 8,
    {
        proof {
            use_type_invariant(&self);
        }
        let len = self.len;
        assert((len >> 3u8) == len / 8) by (bit_vector);
        (len >> 3) as usize
    }

    /// Every multiple of eight from zero up to this length.
    pub fn range_to(self) -> (r: Vec<Self>)
        ensures
            r.len() == self@ / 8 + 1,
            forall|i: int| 0 <= i < r.len() ==> #[trigger] r[i]@ == 8 * i,
    {
        proof {
            use_type_invariant(&self);
        }
        let mut out: Vec<Self> = Vec::new();
        let mut i: u8 = 0;
        while self.len - i >= 8
            invariant
                i % 8 == 0,
                i <= self.len,
                self.len <= MAX,
                out.len() == i / 8,
                forall|j: int| 0 <= j < out.len() ==> #[trigger] out[j]@ == 8 * j,
            decreases self.len - i,
        {
            out.push(Bit { len: i });
            i = i + 8;
        }
        out.push(Bit { len: i });
        out
    }

    /// Sum of two lengths, which the caller guarantees is at most `MAX`.
    pub fn add(self, rhs: Self) -> (r: Self)
        requires
            self@ + rhs@ <= MAX,
        ensures
            r@ == self@ + rhs@,
    {
        Bit { len: self.len + rhs.len }
    }

    /// Add `rhs` in place; the sum must be at most `MAX`.
    pub fn add_assign(&mut self, rhs: Self)
        requires
            old(self)@ + rhs@ <= MAX,
        ensures
            final(self)@ == old(self)@ + rhs@,
    {
        self.len = self.len + rhs.len;
    }

    /// Difference of two lengths, where `rhs` is at most `self`.
    pub fn sub(self, rhs: Self) -> (r: Self)
        requires
            rhs@ <= self@,
        ensures
            r@ == self@ - rhs@,
    {
        proof {
            use_type_invariant(&self);
        }
        Bit { len: self.len - rhs.len }
    }

    /// Subtract `rhs` in place, where `rhs` is at most `self`.
    pub fn sub_assign(&mut self, rhs: Self)
        requires
            rhs@ <= old(self)@,
        ensures
            final(self)@ == old(self)@ - rhs@,
    {
        proof {
            use_type_invariant(&*self);
        }
        self.len = self.len - rhs.len;
    }

    /// Convert a length with another bound, clamping it to `MAX`.
    pub fn clamp_from<const OTHER: u8>(len: Bit<OTHER>) -> (r: Self)
        ensures
            r@ == if len@ <= MAX { len@ } else { MAX as nat },
    {
        let len = len.into_u8();
        if len <= MAX {
            Bit { len }
        } else {
            Bit { len: MAX }
        }
    }

    /// Whole bytes of `len`, clamped to the bytes of `MAX`, in bits.
    pub fn from_byte<const B: usize>(len: Byte<B>) -> (r: Self)
        ensures
            r@ == 8 * (if len@ <= MAX / 8 { len@ } else { MAX as nat / 8 }),
    {
        let bytes = len.bytes();
        let max = MAX;
        let max_bytes = max >> 3;
        assert(max >> 3u8 == max / 8) by (bit_vector);
        let clamped: u8 = if bytes <= max_bytes as usize { bytes as u8 } else { max_bytes };
        Bit { len: clamped * 8 }
    }

    /// Whole bytes of this length.
    pub fn into_byte<const B: usize>(self) -> (r: Byte<B>)
        requires
            self@ / 8 <= B,
        ensures
            r@ == self@ / 8,
    {
        Byte::new(self.bytes())
    }
}

/// A key length, counted in bytes or in bits.
pub trait Len: Sized {
    /// The length in bits.
    spec fn spec_bits(self) -> nat;

    /// The largest length, in bits.
    spec fn spec_max_bits() -> nat;

    /// Length of an empty key.
    fn zero() -> (r: Self)
        ensures
            r.spec_bits() == 0,
    ;

    /// Length of a key of a single byte.
    fn byte() -> (r: Self)
        requires
            8 <= Self::spec_max_bits(),
        ensures
            r.spec_bits() == 8,
    ;

    /// The number of whole bytes.
    fn bytes(self) -> (r: usize)
        ensures
            r == self.spec_bits() / 8,
    ;
}

impl<const MAX: usize> Len for Byte<MAX> {
    open spec fn spec_bits(self) -> nat {
        8 * self@
    }

    open spec fn spec_max_bits() -> nat {
        8 * MAX as nat
    }

    fn zero() -> (r: Self) {
        Byte::zero()
    }

    fn byte() -> (r: Self) {
        Byte::byte()
    }

    fn bytes(self) -> (r: usize) {
        Byte::bytes(self)
    }
}

impl<const MAX: u8> Len for Bit<MAX> {
    open spec fn spec_bits(self) -> nat {
        self@
    }

    open spec fn spec_max_bits() -> nat {
        MAX as nat
    }

    fn zero() -> (r: Self) {
        Bit::zero()
    }

    fn byte() -> (r: Self) {
        Bit::byte()
    }

    fn bytes(self) -> (r: usize) {
        Bit::bytes(self)
    }
}

} // verus!
