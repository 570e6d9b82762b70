//! Keys of at least two bytes that end with their only null byte, which
//! gives them the prefix property.

use vstd::prelude::*;

use crate::key::bytes;

verus! {

/// Whether `s` has at least two bytes and ends with its only null byte.
pub open spec fn is_null_terminated(s: Seq<u8>) -> bool {
    &&& s.len() > 1
    &&& s.last() == 0
    &&& forall|i: int| 0 <= i < s.len() - 1 ==> s[i] != 0
}

/// Whether `key` has at least two bytes and ends with its only null byte.
pub fn check_null_terminated(key: &[u8]) -> (r: bool)
    ensures
        r == is_null_terminated(key@),
{
    let n = key.len();
    if n <= 1 {
        return false;
    }
    let mut i: usize = 0;
    while i < n - 1
        invariant
            n == key@.len(),
            n > 1,
            i <= n - 1,
            forall|j: int| 0 <= j < i ==> key@[j] != 0,
        decreases n - 1 - i,
    {
        if key[i] == 0 {
            return false;
        }
        i = i + 1;
    }
    key[n - 1] == 0
}

/// A borrowed key that ends with its only null byte.
#[derive(Clone, Copy, Debug)]
pub struct NullTerminatedSlice<'a> {
    slice: &'a [u8],
}

impl<'a> NullTerminatedSlice<'a> {
    #[verifier::type_invariant]
    closed spec fn inv(self) -> bool {
        is_null_terminated(self.slice@)
    }

    /// The key bytes, the terminator included.
    pub closed spec fn spec_slice(&self) -> Seq<u8> {
        self.slice@
    }

    /// The key `slice`, if it has at least two bytes and ends with its only
    /// null byte.
    pub fn new(slice: &'a [u8]) -> (r: Option<Self>)
        ensures
            r is Some <==> is_null_terminated(slice@),
            r matches Some(key) ==> key.spec_slice() == slice@,
    {
        if check_null_terminated(slice) {
            Some(NullTerminatedSlice { slice })
        } else {
            None
        }
    }

    /// The key `slice`, which the caller guarantees has at least two bytes
    /// and ends with its only null byte.
    pub fn new_unchecked(slice: &'a [u8]) -> (r: Self)
        requires
            is_null_terminated(slice@),
        ensures
            r.spec_slice() == slice@,
    {
        NullTerminatedSlice { slice }
    }

    /// An owned copy of this key.
    pub fn to_null_terminated_vec(&self) -> (r: NullTerminatedVec)
        ensures
            r.spec_vec() == self.spec_slice(),
    {
        proof {
            use_type_invariant(self);
        }
        NullTerminatedVec { vec: vstd::slice::slice_to_vec(self.slice) }
    }

    /// Number of key bytes, the terminator included.
    pub fn len(&self) -> (r: usize)
        ensures
            r == self.spec_slice().len(),
            r > 1,
    {
        proof {
            use_type_invariant(self);
        }
        self.slice.len()
    }

    /// The key bytes, the terminator included.
    pub fn as_slice(&self) -> (r: &'a [u8])
        ensures
            r@ == self.spec_slice(),
            is_null_terminated(r@),
    {
        proof {
            use_type_invariant(self);
        }
        self.slice
    }

    /// A reader over this key; its terminator is one of its bytes.
    pub fn reader(&self) -> (r: bytes::Reader<'a, ()>)
        ensures
            r.spec_slice() == self.spec_slice(),
            !r.spec_terminated(),
    {
        bytes::Reader::new(self.slice, false)
    }
}

/// An owned key that ends with its only null byte.
#[derive(Debug)]
pub struct NullTerminatedVec {
    vec: Vec<u8>,
}

impl NullTerminatedVec {
    #[verifier::type_invariant]
    closed spec fn inv(self) -> bool {
        is_null_terminated(self.vec@)
    }

    /// The key bytes, the terminator included.
    pub closed spec fn spec_vec(&self) -> Seq<u8> {
        self.vec@
    }

    /// The key `vec`, if it has at least two bytes and ends with its only
    /// null byte; otherwise `vec` back.
    pub fn new(vec: Vec<u8>) -> (r: Result<Self, Vec<u8>>)
        ensures
            r is Ok <==> is_null_terminated(vec@),
            r matches Ok(key) ==> key.spec_vec() == vec@,
            r matches Err(back) ==> back@ == vec@,
    {
        if check_null_terminated(vec.as_slice()) {
            Ok(NullTerminatedVec { vec })
        } else {
            Err(vec)
        }
    }

    /// The key `vec`, which the caller guarantees has at least two bytes
    /// and ends with its only null byte.
    pub fn new_unchecked(vec: Vec<u8>) -> (r: Self)
        requires
            is_null_terminated(vec@),
        ensures
            r.spec_vec() == vec@,
    {
        NullTerminatedVec { vec }
    }

    /// The borrowed key.
    pub fn as_null_terminated_slice(&self) -> (r: NullTerminatedSlice<'_>)
        ensures
            r.spec_slice() == self.spec_vec(),
    {
        proof {
            use_type_invariant(self);
        }
        NullTerminatedSlice { slice: self.vec.as_slice() }
    }

    /// The key bytes, given back.
    pub fn into_vec(self) -> (r: Vec<u8>)
        ensures
            r@ == self.spec_vec(),
    {
        self.vec
    }
}

impl Clone for NullTerminatedVec {
    fn clone(&self) -> (r: Self)
        ensures
            r.spec_vec() == self.spec_vec(),
    {
        proof {
            use_type_invariant(self);
        }
        NullTerminatedVec { vec: vstd::slice::slice_to_vec(self.vec.as_slice()) }
    }
}

} // verus!
