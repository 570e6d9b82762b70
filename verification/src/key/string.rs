//! String keys that are not empty and hold no null byte in their UTF-8
//! encoding.

use vstd::prelude::*;
use vstd::string::StringSliceAdditionalSpecFns;
use vstd::utf8::encode_utf8;

use crate::key::non_null::check_non_null;
use crate::key::non_null::is_non_null;
use crate::key::bytes;

verus! {

/// A borrowed string key that is not empty and holds no null byte.
#[derive(Clone, Copy, Debug)]
pub struct NonNullStr<'a> {
    text: &'a str,
}

impl<'a> NonNullStr<'a> {
    #[verifier::type_invariant]
    closed spec fn inv(self) -> bool {
        is_non_null(encode_utf8(self.text@))
    }

    /// The characters of the key.
    pub closed spec fn spec_chars(&self) -> Seq<char> {
        self.text@
    }

    /// The UTF-8 bytes of the key.
    pub open spec fn spec_bytes(&self) -> Seq<u8> {
        encode_utf8(self.spec_chars())
    }

    /// The key `text`, if it is not empty and holds no null byte.
    pub fn new(text: &'a str) -> (r: Option<Self>)
        ensures
            r is Some <==> is_non_null(text.spec_bytes()),
            r matches Some(key) ==> key.spec_chars() == text@,
    {
        if check_non_null(text.as_bytes()) {
            Some(NonNullStr { text })
        } else {
            None
        }
    }

    /// The key `text`, which the caller guarantees is not empty and holds no
    /// null byte.
    pub fn new_unchecked(text: &'a str) -> (r: Self)
        requires
            is_non_null(text.spec_bytes()),
        ensures
            r.spec_chars() == text@,
    {
        NonNullStr { text }
    }

    /// An owned copy of this key.
    pub fn to_non_null_string(&self) -> (r: NonNullString)
        ensures
            r.spec_chars() == self.spec_chars(),
    {
        proof {
            use_type_invariant(self);
        }
        NonNullString { text: self.text.to_owned() }
    }

    /// Number of bytes of the key, never zero.
    pub fn len(&self) -> (r: usize)
        ensures
            r == self.spec_bytes().len(),
            r > 0,
    {
        proof {
            use_type_invariant(self);
        }
        self.text.as_bytes().len()
    }

    /// The key text.
    pub fn as_str(&self) -> (r: &'a str)
        ensures
            r@ == self.spec_chars(),
    {
        self.text
    }

    /// A reader over the bytes of this key, followed by its implicit
    /// terminator.
    pub fn reader(&self) -> (r: bytes::Reader<'a, bool>)
        ensures
            r.spec_slice() == self.spec_bytes(),
            r.spec_terminated(),
    {
        bytes::Reader::new(self.text.as_bytes(), true)
    }
}

/// An owned string key that is not empty and holds no null byte.
#[derive(Debug)]
pub struct NonNullString {
    text: String,
}

impl NonNullString {
    #[verifier::type_invariant]
    closed spec fn inv(self) -> bool {
        is_non_null(encode_utf8(self.text@))
    }

    /// The characters of the key.
    pub closed spec fn spec_chars(&self) -> Seq<char> {
        self.text@
    }

    /// The UTF-8 bytes of the key.
    pub open spec fn spec_bytes(&self) -> Seq<u8> {
        encode_utf8(self.spec_chars())
    }

    /// The key `text`, if it is not empty and holds no null byte; otherwise
    /// `text` back.
    pub fn new(text: String) -> (r: Result<Self, String>)
        ensures
            r is Ok <==> is_non_null(encode_utf8(text@)),
            r matches Ok(key) ==> key.spec_chars() == text@,
            r matches Err(back) ==> back@ == text@,
    {
        if check_non_null(text.as_str().as_bytes()) {
            Ok(NonNullString { text })
        } else {
            Err(text)
        }
    }

    /// The key `text`, which the caller guarantees is not empty and holds
    /// no null byte.
    pub fn new_unchecked(text: String) -> (r: Self)
        requires
            is_non_null(encode_utf8(text@)),
        ensures
            r.spec_chars() == text@,
    {
        NonNullString { text }
    }

    /// The borrowed key.
    pub fn as_non_null_str(&self) -> (r: NonNullStr<'_>)
        ensures
            r.spec_chars() == self.spec_chars(),
    {
        proof {
            use_type_invariant(self);
        }
        NonNullStr { text: self.text.as_str() }
    }

    /// The key text, given back.
    pub fn into_string(self) -> (r: String)
        ensures
            r@ == self.spec_chars(),
    {
        self.text
    }
}

impl Clone for NonNullString {
    fn clone(&self) -> (r: Self)
        ensures
            r.spec_chars() == self.spec_chars(),
    {
        proof {
            use_type_invariant(self);
        }
        NonNullString { text: self.text.as_str().to_owned() }
    }
}

} // verus!
