//! Dynamically sized keys whose bytes satisfy an [`Invariant`] that gives
//! them the prefix property.

use core::marker::PhantomData;
use vstd::prelude::*;

use crate::key::bytes;
use crate::key::Invariant;

verus! {

/// A borrowed key whose bytes satisfy the invariant `I`.
pub struct Slice<'a, I: Invariant> {
    raw: &'a [u8],
    invariant: PhantomData<I>,
}

impl<'a, I: Invariant> Slice<'a, I> {
    #[verifier::type_invariant]
    closed spec fn inv(self) -> bool {
        I::spec_validate(self.raw@) is Ok
    }

    /// The key bytes.
    pub closed spec fn spec_raw(&self) -> Seq<u8> {
        self.raw@
    }

    /// The key `key`, if it satisfies the invariant; otherwise why not.
    pub fn new(key: &'a [u8]) -> (r: Result<Self, I::Error>)
        ensures
            r is Ok <==> I::spec_validate(key@) is Ok,
            r matches Ok(slice) ==> slice.spec_raw() == key@,
            r matches Err(error) ==> I::spec_validate(key@) == Err::<(), I::Error>(error),
    {
        match I::validate(key) {
            Ok(()) => Ok(Slice { raw: key, invariant: PhantomData }),
            Err(error) => Err(error),
        }
    }

    /// The key `key`, which the caller guarantees satisfies the invariant.
    pub fn new_unchecked(key: &'a [u8]) -> (r: Self)
        requires
            I::spec_validate(key@) is Ok,
        ensures
            r.spec_raw() == key@,
    {
        Slice { raw: key, invariant: PhantomData }
    }

    /// Number of key bytes, which must not be zero.
    pub fn len(&self) -> (r: usize)
        requires
            self.spec_raw().len() > 0,
        ensures
            r == self.spec_raw().len(),
            r > 0,
    {
        self.raw.len()
    }

    /// The key bytes.
    pub fn as_raw(&self) -> (r: &'a [u8])
        ensures
            r@ == self.spec_raw(),
            I::spec_validate(r@) is Ok,
    {
        proof {
            use_type_invariant(self);
        }
        self.raw
    }

    /// A reader over this key, with its terminator if the invariant appends
    /// one.
    pub fn reader(&self) -> (r: bytes::Reader<'a, I::Terminate>)
        ensures
            r.spec_slice() == self.spec_raw(),
            r.spec_terminated() == <I::Terminate as crate::key::Terminate>::spec_can(),
    {
        bytes::Reader::new(self.raw, true)
    }

    /// An owned copy of this key.
    pub fn to_owned(&self) -> (r: BoxedSlice<I>)
        ensures
            r.spec_raw() == self.spec_raw(),
    {
        proof {
            use_type_invariant(self);
        }
        BoxedSlice { raw: vstd::slice::slice_to_vec(self.raw), invariant: PhantomData }
    }
}

/// An owned key whose bytes satisfy the invariant `I`.
pub struct BoxedSlice<I: Invariant> {
    raw: Vec<u8>,
    invariant: PhantomData<I>,
}

impl<I: Invariant> BoxedSlice<I> {
    #[verifier::type_invariant]
    closed spec fn inv(self) -> bool {
        I::spec_validate(self.raw@) is Ok
    }

    /// The key bytes.
    pub closed spec fn spec_raw(&self) -> Seq<u8> {
        self.raw@
    }

    /// The key `raw`, if it satisfies the invariant; otherwise `raw` back
    /// and why not.
    pub fn new(raw: Vec<u8>) -> (r: Result<Self, (Vec<u8>, I::Error)>)
        ensures
            r is Ok <==> I::spec_validate(raw@) is Ok,
            r matches Ok(key) ==> key.spec_raw() == raw@,
            r matches Err((back, error)) ==> back@ == raw@ && I::spec_validate(raw@) == Err::<
                (),
                I::Error,
            >(error),
    {
        match I::validate(raw.as_slice()) {
            Ok(()) => Ok(BoxedSlice { raw, invariant: PhantomData }),
            Err(error) => Err((raw, error)),
        }
    }

    /// The key `raw`, which the caller guarantees satisfies the invariant.
    pub fn new_unchecked(raw: Vec<u8>) -> (r: Self)
        requires
            I::spec_validate(raw@) is Ok,
        ensures
            r.spec_raw() == raw@,
    {
        BoxedSlice { raw, invariant: PhantomData }
    }

    /// The borrowed key.
    pub fn as_slice(&self) -> (r: Slice<'_, I>)
        ensures
            r.spec_raw() == self.spec_raw(),
    {
        proof {
            use_type_invariant(self);
        }
        Slice { raw: self.raw.as_slice(), invariant: PhantomData }
    }

    /// The key bytes, given back.
    pub fn into_raw(self) -> (r: Vec<u8>)
        ensures
            r@ == self.spec_raw(),
    {
        self.raw
    }
}

} // verus!
