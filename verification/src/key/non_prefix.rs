//! Keys that the caller guarantees are not empty and not a prefix of any
//! other key of the same kind; only the first half can be checked.

use vstd::prelude::*;

verus! {

/// A borrowed key that is not empty, and (by the caller's guarantee) not a
/// prefix of any other such key.
#[derive(Clone, Copy, Debug)]
pub struct NonPrefixSlice<'a> {
    slice: &'a [u8],
}

impl<'a> NonPrefixSlice<'a> {
    #[verifier::type_invariant]
    closed spec fn inv(self) -> bool {
        self.slice@.len() > 0
    }

    /// The key bytes.
    pub closed spec fn spec_slice(&self) -> Seq<u8> {
        self.slice@
    }

    /// The key `slice`, which the caller guarantees is not empty and not a
    /// prefix of any other such key.
    pub fn new_unchecked(slice: &'a [u8]) -> (r: Self)
        requires
            slice@.len() > 0,
        ensures
            r.spec_slice() == slice@,
    {
        NonPrefixSlice { slice }
    }

    /// An owned copy of this key.
    pub fn to_non_prefix_vec(&self) -> (r: NonPrefixVec)
        ensures
            r.spec_vec() == self.spec_slice(),
    {
        proof {
            use_type_invariant(self);
        }
        NonPrefixVec { vec: vstd::slice::slice_to_vec(self.slice) }
    }

    /// Number of key bytes, never zero.
    pub fn len(&self) -> (r: usize)
        ensures
            r == self.spec_slice().len(),
            r > 0,
    {
        proof {
            use_type_invariant(self);
        }
        self.slice.len()
    }

    /// The key bytes.
    pub fn as_slice(&self) -> (r: &'a [u8])
        ensures
            r@ == self.spec_slice(),
    {
        self.slice
    }
}

/// An owned key that is not empty, and (by the caller's guarantee) not a
/// prefix of any other such key.
#[derive(Debug)]
pub struct NonPrefixVec {
    vec: Vec<u8>,
}

impl NonPrefixVec {
    #[verifier::type_invariant]
    closed spec fn inv(self) -> bool {
        self.vec@.len() > 0
    }

    /// The key bytes.
    pub closed spec fn spec_vec(&self) -> Seq<u8> {
        self.vec@
    }

    /// The key `vec`, which the caller guarantees is not empty and not a
    /// prefix of any other such key.
    pub fn new_unchecked(vec: Vec<u8>) -> (r: Self)
        requires
            vec@.len() > 0,
        ensures
            r.spec_vec() == vec@,
    {
        NonPrefixVec { vec }
    }

    /// The borrowed key.
    pub fn as_non_prefix_slice(&self) -> (r: NonPrefixSlice<'_>)
        ensures
            r.spec_slice() == self.spec_vec(),
    {
        proof {
            use_type_invariant(self);
        }
        NonPrefixSlice { slice: self.vec.as_slice() }
    }

    /// The key bytes, given back.
    pub fn into_vec(self) -> (r: Vec<u8>)
        ensures
            r@ == self.spec_vec(),
    {
        self.vec
    }
}

impl Clone for NonPrefixVec {
    fn clone(&self) -> (r: Self)
        ensures
            r.spec_vec() == self.spec_vec(),
    {
        proof {
            use_type_invariant(self);
        }
        NonPrefixVec { vec: vstd::slice::slice_to_vec(self.vec.as_slice()) }
    }
}

} // verus!
