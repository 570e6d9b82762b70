//! Readers over byte array keys (`[u8; N]`), whose fixed length gives them
//! the prefix property.

use vstd::prelude::*;

use crate::edge::Le;
use crate::key::lcp_len;
use crate::key::padded_byte;
use crate::key::bytes;
use crate::len::Bit;
use crate::len::Byte;
use crate::len::UNBOUNDED;
use crate::raw::le_byte;

verus! {

/// Reader over a prefix of a byte array key of `N` bytes.
#[derive(Clone, Copy, Debug)]
pub struct Reader<'k, const N: usize> {
    inner: bytes::Reader<'k, ()>,
}

impl<'k, const N: usize> Reader<'k, N> {
    #[verifier::type_invariant]
    closed spec fn inv(self) -> bool {
        !self.inner.spec_terminated()
    }

    /// The bytes this reader stands for.
    pub closed spec fn key(self) -> Seq<u8> {
        self.inner.key()
    }

    /// A reader standing for `prefix`, for scan operations. `prefix` need
    /// not satisfy any property: it may be empty, or a prefix of a key.
    pub fn new_prefix(prefix: &'k [u8]) -> (r: Self)
        ensures
            r.key() == prefix@,
    {
        Reader { inner: bytes::Reader::new_prefix(prefix) }
    }

    /// A reader over the whole key `array`.
    pub fn from_array(array: &'k [u8; N]) -> (r: Self)
        ensures
            r.key() == array@,
    {
        Reader { inner: bytes::Reader::new_prefix(array.as_slice()) }
    }

    /// Number of bytes.
    pub fn len(&self) -> (r: Byte<UNBOUNDED>)
        requires
            self.key().len() < UNBOUNDED,
        ensures
            r@ == self.key().len(),
    {
        proof {
            use_type_invariant(self);
        }
        self.inner.len()
    }

    /// Byte `index`, or `None` past the end.
    pub fn get_byte(&self, index: usize) -> (r: Option<u8>)
        ensures
            r == (if index < self.key().len() {
                Some(self.key()[index as int])
            } else {
                None
            }),
    {
        proof {
            use_type_invariant(self);
        }
        self.inner.get_byte(index)
    }

    /// Edge metadata holding the first `min(len, self.len())` bits.
    pub fn get_edge(&self, len: Bit<56>) -> (r: Le)
        requires
            len@ % 8 == 0,
            self.key().len() < UNBOUNDED,
        ensures
            r@.bytes == self.key().take(if len@ / 8 <= self.key().len() {
                (len@ / 8) as int
            } else {
                self.key().len() as int
            }),
            !r@.value,
            !r@.frozen,
    {
        proof {
            use_type_invariant(self);
        }
        self.inner.get_edge(len)
    }

    /// Number of leading bytes on which the packed word of `edge` and this
    /// reader (padded with zero bytes) agree, at most 8.
    pub fn match_prefix(&self, edge: Le) -> (r: Byte<UNBOUNDED>)
        ensures
            r@ <= 8,
            forall|i: int|
                0 <= i < r@ ==> le_byte(edge.into_raw_spec(), i as nat) == padded_byte(
                    self.key(),
                    i,
                ),
            r@ < 8 ==> le_byte(edge.into_raw_spec(), r@) != padded_byte(self.key(), r@ as int),
    {
        proof {
            use_type_invariant(self);
        }
        self.inner.match_prefix(edge)
    }

    /// The first `end` bytes of this reader.
    pub fn prefix(self, end: Byte<UNBOUNDED>) -> (r: Self)
        requires
            end@ <= self.key().len(),
        ensures
            r.key() == self.key().take(end@ as int),
    {
        proof {
            use_type_invariant(&self);
        }
        Reader { inner: self.inner.prefix(end) }
    }

    /// This reader without its first `start` bytes.
    pub fn suffix(self, start: Byte<UNBOUNDED>) -> (r: Self)
        requires
            start@ <= self.key().len(),
        ensures
            r.key() == self.key().skip(start@ as int),
    {
        proof {
            use_type_invariant(&self);
        }
        Reader { inner: self.inner.suffix(start) }
    }

    /// The longest common prefix of the two readers.
    pub fn common_prefix(self, other: Self) -> (r: Self)
        ensures
            r.key() == self.key().take(lcp_len(self.key(), other.key()) as int),
    {
        proof {
            use_type_invariant(&self);
            use_type_invariant(&other);
        }
        Reader { inner: self.inner.common_prefix(other.inner) }
    }
}

} // verus!
