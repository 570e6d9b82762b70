//! Keys that are not empty and hold no null byte: a null terminator
//! appended to each gives them the prefix property.

use vstd::prelude::*;

use crate::key::bytes;

verus! {

/// Whether `s` is not empty and holds no null byte.
pub open spec fn is_non_null(s: Seq<u8>) -> bool {
    s.len() > 0 && !s.contains(0)
}

/// Whether `key` is not empty and holds no null byte.
pub fn check_non_null(key: &[u8]) -> (r: bool)
    ensures
        r == is_non_null(key@),
{
    if key.len() == 0 {
        return false;
    }
    let mut i: usize = 0;
    while i < key.len()
        invariant
            i <= key@.len(),
            forall|j: int| 0 <= j < i ==> key@[j] != 0,
        decreases key@.len() - i,
    {
        if key[i] == 0 {
            return false;
        }
        i = i + 1;
    }
    true
}

/// A borrowed key that is not empty and holds no null byte.
#[derive(Clone, Copy, Debug)]
pub struct NonNullSlice<'a> {
    slice: &'a [u8],
}

impl<'a> NonNullSlice<'a> {
    #[verifier::type_invariant]
    closed spec fn inv(self) -> bool {
        is_non_null(self.slice@)
    }

    /// The key bytes.
    pub closed spec fn spec_slice(&self) -> Seq<u8> {
        self.slice@
    }

    /// The key `slice`, if it is not empty and holds no null byte.
    pub fn new(slice: &'a [u8]) -> (r: Option<Self>)
        ensures
            r is Some <==> is_non_null(slice@),
            r matches Some(key) ==> key.spec_slice() == slice@,
    {
        if check_non_null(slice) {
            Some(NonNullSlice { slice })
        } else {
            None
        }
    }

    /// The key `slice`, which the caller guarantees is not empty and holds
    /// no null byte.
    pub fn new_unchecked(slice: &'a [u8]) -> (r: Self)
        requires
            is_non_null(slice@),
        ensures
            r.spec_slice() == slice@,
    {
        NonNullSlice { slice }
    }

    /// An owned copy of this key.
    pub fn to_non_null_vec(&self) -> (r: NonNullVec)
        ensures
            r.spec_vec() == self.spec_slice(),
    {
        proof {
            use_type_invariant(self);
        }
        NonNullVec { vec: vstd::slice::slice_to_vec(self.slice) }
    }

    /// Number of key bytes, never zero.
    pub fn len(&self) -> (r: usize)
        ensures
            r == self.spec_slice().len(),
            r > 0,
    {
        proof {
            use_type_invariant(self);
        }
        self.slice.len()
    }

    /// The key bytes.
    pub fn as_slice(&self) -> (r: &'a [u8])
        ensures
            r@ == self.spec_slice(),
            is_non_null(r@),
    {
        proof {
            use_type_invariant(self);
        }
        self.slice
    }

    /// A reader over this key, followed by its implicit terminator.
    pub fn reader(&self) -> (r: bytes::Reader<'a, bool>)
        ensures
            r.spec_slice() == self.spec_slice(),
            r.spec_terminated(),
    {
        bytes::Reader::new(self.slice, true)
    }
}

/// An owned key that is not empty and holds no null byte.
#[derive(Debug)]
pub struct NonNullVec {
    vec: Vec<u8>,
}

impl NonNullVec {
    #[verifier::type_invariant]
    closed spec fn inv(self) -> bool {
        is_non_null(self.vec@)
    }

    /// The key bytes.
    pub closed spec fn spec_vec(&self) -> Seq<u8> {
        self.vec@
    }

    /// The key `vec`, if it is not empty and holds no null byte; otherwise
    /// `vec` back.
    pub fn new(vec: Vec<u8>) -> (r: Result<Self, Vec<u8>>)
        ensures
            r is Ok <==> is_non_null(vec@),
            r matches Ok(key) ==> key.spec_vec() == vec@,
            r matches Err(back) ==> back@ == vec@,
    {
        if check_non_null(vec.as_slice()) {
            Ok(NonNullVec { vec })
        } else {
            Err(vec)
        }
    }

    /// The key `vec`, which the caller guarantees is not empty and holds no
    /// null byte.
    pub fn new_unchecked(vec: Vec<u8>) -> (r: Self)
        requires
            is_non_null(vec@),
        ensures
            r.spec_vec() == vec@,
    {
        NonNullVec { vec }
    }

    /// The borrowed key.
    pub fn as_non_null_slice(&self) -> (r: NonNullSlice<'_>)
        ensures
            r.spec_slice() == self.spec_vec(),
    {
        proof {
            use_type_invariant(self);
        }
        NonNullSlice { slice: self.vec.as_slice() }
    }

    /// The key bytes, given back.
    pub fn into_vec(self) -> (r: Vec<u8>)
        ensures
            r@ == self.spec_vec(),
    {
        self.vec
    }
}

impl Clone for NonNullVec {
    fn clone(&self) -> (r: Self)
        ensures
            r.spec_vec() == self.spec_vec(),
    {
        proof {
            use_type_invariant(self);
        }
        NonNullVec { vec: vstd::slice::slice_to_vec(self.vec.as_slice()) }
    }
}

} // verus!
