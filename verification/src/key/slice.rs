//! Readers over keys held as borrowed byte slices, whose edges refer into
//! the key instead of copying its bytes ([`Slice`]).

use vstd::prelude::*;

use crate::edge::Slice;
use crate::key::common_prefix;
use crate::key::lcp_len;
use crate::key::bytes;
use crate::len::Byte;
use crate::len::SLICE_MAX;
use crate::len::UNBOUNDED;

verus! {

/// Reader over a borrowed key; only readers of keys with an implicit
/// terminator (`TERMINATE`) can be terminated.
#[derive(Clone, Copy, Debug)]
pub struct Reader<'k, const TERMINATE: bool> {
    inner: bytes::Reader<'k, bool>,
}

impl<'k, const TERMINATE: bool> Reader<'k, TERMINATE> {
    #[verifier::type_invariant]
    closed spec fn inv(self) -> bool {
        self.inner.spec_terminated() ==> TERMINATE
    }

    /// The slice of key bytes.
    pub closed spec fn spec_slice(self) -> Seq<u8> {
        self.inner.spec_slice()
    }

    /// Whether the logical terminator follows the slice.
    pub closed spec fn spec_terminated(self) -> bool {
        self.inner.spec_terminated()
    }

    /// The bytes this reader stands for.
    pub open spec fn key(self) -> Seq<u8> {
        bytes::reader_key(self.spec_slice(), self.spec_terminated())
    }

    /// A reader standing for `prefix`, for scan operations. `prefix` need
    /// not satisfy any property.
    pub fn new_prefix(prefix: &'k [u8]) -> (r: Self)
        ensures
            r.spec_slice() == prefix@,
            !r.spec_terminated(),
    {
        Reader { inner: bytes::Reader::new(prefix, false) }
    }

    /// A reader over the whole key `key`, terminated if keys of this kind
    /// carry an implicit terminator.
    pub fn from_key(key: &'k [u8]) -> (r: Self)
        ensures
            r.spec_slice() == key@,
            r.spec_terminated() == TERMINATE,
    {
        Reader { inner: bytes::Reader::new(key, TERMINATE) }
    }

    /// Number of bytes, the terminator included.
    pub fn len(&self) -> (r: Byte<UNBOUNDED>)
        requires
            self.spec_slice().len() < UNBOUNDED,
        ensures
            r@ == self.key().len(),
    {
        self.inner.len()
    }

    /// Byte `index`, the terminator included, or `None` past the end.
    pub fn get_byte(&self, index: usize) -> (r: Option<u8>)
        ensures
            r == (if index < self.key().len() {
                Some(self.key()[index as int])
            } else {
                None
            }),
    {
        self.inner.get_byte(index)
    }

    /// An edge referring to the first `min(len, slice length)` bytes of
    /// this reader's slice, ending with the terminator if `len` reaches
    /// exactly one past the slice and the reader is terminated.
    pub fn get_edge(&self, len: Byte<SLICE_MAX>) -> (r: Slice<'k, TERMINATE>)
        ensures
            r.key() == self.spec_slice(),
            r.start() == 0,
            r.stored() == self.spec_slice().take(
                if len@ <= self.spec_slice().len() {
                    len@ as int
                } else {
                    self.spec_slice().len() as int
                },
            ),
            r.has_terminator() == (self.spec_terminated() && len@ == self.spec_slice().len() + 1),
            !r@.value,
            !r@.frozen,
    {
        proof {
            use_type_invariant(self);
        }
        let slice = self.inner.as_slice();
        let n = slice.len();
        let bytes = len.bytes();
        let min = if bytes < n {
            bytes
        } else {
            n
        };
        let edge = Slice::new(slice, 0, Byte::new(min));
        let terminate = self.inner.is_terminated() && bytes > n && bytes - n == 1;
        proof {
            assert(slice@.subrange(0, min as int) =~= slice@.take(min as int));
        }
        edge.with_terminate(terminate)
    }

    /// Number of leading bytes on which this reader and the edge `meta`
    /// agree, the terminator included when both slices are equal and both
    /// end with one.
    pub fn match_prefix(&self, meta: Slice<'_, TERMINATE>) -> (r: Byte<UNBOUNDED>)
        requires
            self.spec_slice().len() < UNBOUNDED,
        ensures
            r@ == lcp_len(self.spec_slice(), meta.stored()) + (if self.spec_terminated()
                && meta.has_terminator() && self.spec_slice() == meta.stored() {
                1nat
            } else {
                0nat
            }),
    {
        let slice = self.inner.as_slice();
        let other = meta.as_slice();
        let index = common_prefix(slice, other);
        proof {
            crate::key::lemma_lcp_len(slice@, other@);
        }
        let same = index == slice.len() && index == other.len();
        proof {
            if same {
                assert(slice@ =~= other@);
            }
        }
        let terminate = self.inner.is_terminated() && same && meta.is_terminate();
        if terminate {
            Byte::new(index + 1)
        } else {
            Byte::new(index)
        }
    }

    /// The first `end` bytes of this reader.
    pub fn prefix(self, end: Byte<UNBOUNDED>) -> (r: Self)
        requires
            end@ <= self.key().len(),
        ensures
            r.key() == self.key().take(end@ as int),
    {
        proof {
            use_type_invariant(&self);
        }
        Reader { inner: self.inner.prefix(end) }
    }

    /// This reader without its first `start` bytes.
    pub fn suffix(self, start: Byte<UNBOUNDED>) -> (r: Self)
        requires
            start@ <= self.key().len(),
        ensures
            r.key() == self.key().skip(start@ as int),
    {
        proof {
            use_type_invariant(&self);
        }
        Reader { inner: self.inner.suffix(start) }
    }

    /// The longest common prefix of the two slices, terminated only if both
    /// readers are terminated and their slices are equal.
    pub fn common_prefix(self, other: Self) -> (r: Self)
        ensures
            r.spec_slice() == self.spec_slice().take(
                lcp_len(self.spec_slice(), other.spec_slice()) as int,
            ),
            r.spec_terminated() == (self.spec_terminated() && other.spec_terminated()
                && self.spec_slice() == other.spec_slice()),
    {
        proof {
            use_type_invariant(&self);
        }
        Reader { inner: self.inner.common_prefix(other.inner) }
    }
}

/// Tracks the length of a key being rebuilt from slice edges, and the last
/// edge, whose bytes end the key.
pub struct Writer<'k, const TERMINATE: bool> {
    last: Slice<'k, TERMINATE>,
    len: Byte<UNBOUNDED>,
}

impl<'k, const TERMINATE: bool> Writer<'k, TERMINATE> {
    /// The length of the key so far.
    pub closed spec fn spec_len(&self) -> nat {
        self.len@
    }

    /// The last edge.
    pub closed spec fn spec_last(&self) -> Slice<'k, TERMINATE> {
        self.last
    }

    /// A writer for `prefix` followed by `key`, and its length.
    pub fn new(prefix: Reader<'_, TERMINATE>, key: Slice<'k, TERMINATE>) -> (r: (
        Self,
        Byte<UNBOUNDED>,
    ))
        requires
            prefix.spec_slice().len() + SLICE_MAX < UNBOUNDED,
        ensures
            r.0.spec_len() == prefix.key().len() + key@.bytes.len(),
            r.1@ == r.0.spec_len(),
            r.0.spec_last() == key,
    {
        let len = Byte::new(prefix.len().bytes() + key.len().bytes());
        (Writer { last: key, len }, len)
    }

    /// Replace the bytes from `start` on with a node byte followed by the
    /// bytes of `edge`; returns the new length.
    pub fn replace(&mut self, start: Byte<UNBOUNDED>, edge: Slice<'k, TERMINATE>) -> (r: Byte<
        UNBOUNDED,
    >)
        requires
            start@ + 1 + SLICE_MAX < UNBOUNDED,
        ensures
            final(self).spec_len() == start@ + 1 + edge@.bytes.len(),
            final(self).spec_last() == edge,
            r@ == final(self).spec_len(),
    {
        let len = Byte::new(start.bytes() + 1 + edge.len().bytes());
        self.len = len;
        self.last = edge;
        len
    }
}

} // verus!
