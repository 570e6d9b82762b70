//! [`Slice`] stores edge metadata that refers to a stretch of a key held
//! elsewhere, instead of copying the key bytes into the edge.
//!
//! The edge refers to `len` bytes of `key` starting at `start`. Edges of
//! keys that carry an implicit terminator (`TERMINATE`) may also end with a
//! logical zero byte that is not stored in the key.

use core::cmp::Ordering;
use vstd::prelude::*;

use crate::edge::compress_view;
use crate::edge::expand_view;
use crate::edge::MetaView;
use crate::len::Byte;
use crate::len::SLICE_MAX;

verus! {

/// Edge metadata referring to the bytes `key[start..start + len]`.
#[derive(Clone, Copy, Debug)]
pub struct Slice<'a, const TERMINATE: bool> {
    key: &'a [u8],
    start: usize,
    len: usize,
    value: bool,
    frozen: bool,
    terminate: bool,
}

/// Order of two slice edges: their stored bytes lexicographically, then an
/// edge without a terminator before one with it.
pub open spec fn slice_order(a: Seq<u8>, ta: bool, b: Seq<u8>, tb: bool) -> Ordering {
    match crate::edge::lex_order(a, b) {
        Ordering::Equal => if ta == tb {
            Ordering::Equal
        } else if !ta {
            Ordering::Less
        } else {
            Ordering::Greater
        },
        other => other,
    }
}

impl<'a, const TERMINATE: bool> View for Slice<'a, TERMINATE> {
    type V = MetaView;

    closed spec fn view(&self) -> MetaView {
        MetaView {
            bytes: self.stored() + if self.terminate {
                seq![0u8]
            } else {
                Seq::empty()
            },
            value: self.value,
            frozen: self.frozen,
        }
    }
}

impl<'a, const TERMINATE: bool> Slice<'a, TERMINATE> {
    #[verifier::type_invariant]
    closed spec fn inv(self) -> bool {
        &&& self.start + self.len <= self.key@.len()
        &&& self.key@.len() <= usize::MAX
        &&& self.len + (if self.terminate { 1int } else { 0int }) <= SLICE_MAX
        &&& self.terminate ==> TERMINATE
    }

    /// The key bytes stored in the key this edge refers to.
    pub closed spec fn stored(self) -> Seq<u8> {
        self.key@.subrange(self.start as int, self.start + self.len)
    }

    /// The key this edge refers into.
    pub closed spec fn key(self) -> Seq<u8> {
        self.key@
    }

    /// Offset of the first stored byte within the key.
    pub closed spec fn start(self) -> nat {
        self.start as nat
    }

    /// Whether the edge ends with an implicit terminator byte.
    pub closed spec fn has_terminator(self) -> bool {
        self.terminate
    }

    /// An edge referring to `len` bytes of `key` from `start`, with no flags.
    pub fn new(key: &'a [u8], start: usize, len: Byte<SLICE_MAX>) -> (r: Self)
        requires
            start + len@ <= key@.len(),
        ensures
            r.key() == key@,
            r.start() == start,
            r.stored() == key@.subrange(start as int, start + len@),
            !r.has_terminator(),
            !r@.value,
            !r@.frozen,
    {
        let _ = key.len();
        Slice { key, start, len: len.bytes(), value: false, frozen: false, terminate: false }
    }

    /// The null edge: no bytes and no flags.
    pub fn null() -> (r: Self)
        ensures
            r@.bytes.len() == 0,
            !r@.value,
            !r@.frozen,
    {
        let key: &[u8] = &[];
        Slice { key, start: 0, len: 0, value: false, frozen: false, terminate: false }
    }

    /// Set or clear the terminator (always clear for keys without one).
    pub fn with_terminate(self, terminate: bool) -> (r: Self)
        requires
            terminate ==> self.stored().len() < SLICE_MAX,
        ensures
            r.key() == self.key(),
            r.start() == self.start(),
            r.stored() == self.stored(),
            r.has_terminator() == (TERMINATE && terminate),
            r@.value == self@.value,
            r@.frozen == self@.frozen,
    {
        proof {
            use_type_invariant(&self);
        }
        Slice { terminate: TERMINATE && terminate, ..self }
    }

    /// The stored key bytes.
    pub fn as_slice(&self) -> (r: &'a [u8])
        ensures
            r@ == self.stored(),
    {
        proof {
            use_type_invariant(self);
        }
        &self.key[self.start..self.start + self.len]
    }

    /// Offset of the first stored byte within the key.
    pub fn as_ptr(&self) -> (r: usize)
        ensures
            r == self.start(),
    {
        self.start
    }

    /// Number of stored key bytes.
    pub fn len_slice(&self) -> (r: Byte<SLICE_MAX>)
        ensures
            r@ == self.stored().len(),
    {
        proof {
            use_type_invariant(self);
        }
        Byte::new_unchecked(self.len)
    }

    /// The key bytes of this edge, including the terminator.
    pub fn into_iter(self) -> (r: Vec<u8>)
        ensures
            r@ == self@.bytes,
    {
        let mut out = vstd::slice::slice_to_vec(self.as_slice());
        if self.terminate {
            out.push(0);
        }
        out
    }

    /// Whether the child is a value.
    pub fn is_value(self) -> (r: bool)
        ensures
            r == self@.value,
    {
        self.value
    }

    /// Whether the edge is frozen.
    pub fn is_frozen(self) -> (r: bool)
        ensures
            r == self@.frozen,
    {
        self.frozen
    }

    /// Whether the edge ends with an implicit terminator byte.
    pub fn is_terminate(self) -> (r: bool)
        ensures
            r == self.has_terminator(),
    {
        self.terminate
    }

    /// Set or clear the frozen flag.
    pub fn with_frozen(self, frozen: bool) -> (r: Self)
        ensures
            r@ == (MetaView { frozen, ..self@ }),
            r.key() == self.key(),
            r.start() == self.start(),
            r.stored() == self.stored(),
            r.has_terminator() == self.has_terminator(),
    {
        proof {
            use_type_invariant(&self);
        }
        Slice { frozen, ..self }
    }

    /// Set or clear the value flag.
    pub fn with_value(self, value: bool) -> (r: Self)
        ensures
            r@ == (MetaView { value, ..self@ }),
            r.key() == self.key(),
            r.start() == self.start(),
            r.stored() == self.stored(),
            r.has_terminator() == self.has_terminator(),
    {
        proof {
            use_type_invariant(&self);
        }
        Slice { value, ..self }
    }

    /// Length of the key bytes, including the terminator.
    pub fn len(self) -> (r: Byte<SLICE_MAX>)
        ensures
            r@ == self@.bytes.len(),
    {
        proof {
            use_type_invariant(&self);
        }
        let stored = self.len_slice();
        stored.add(Byte::from_bool(self.terminate))
    }

    /// Try to join `self`, `byte` and `child` into one edge.
    ///
    /// `child` must refer to the same key, right after `self` and `byte`
    /// (or right after `self` when `byte` is the terminator). Returns `None`
    /// if the joined edge does not fit in [`SLICE_MAX`] bytes.
    pub fn try_compress(self, byte: u8, child: Self) -> (r: Option<Self>)
        requires
            !self@.frozen,
            !self@.value,
            !self.has_terminator(),
            child.key() == self.key(),
            TERMINATE && byte == 0 ==> {
                &&& child.start() == self.start() + self.stored().len()
                &&& child.stored().len() == 0
                &&& !child.has_terminator()
                &&& self.stored().len() < SLICE_MAX
            },
            !(TERMINATE && byte == 0) ==> {
                &&& child.start() == self.start() + self.stored().len() + 1
                &&& self.key()[(self.start() + self.stored().len()) as int] == byte
            },
        ensures
            r is Some <==> self.stored().len() + (if TERMINATE && byte == 0 {
                0int
            } else {
                1int
            }) + child.stored().len() + (if child.has_terminator() {
                1int
            } else {
                0int
            }) <= SLICE_MAX,
            r matches Some(joined) ==> joined@ == compress_view(self@, byte, child@),
    {
        proof {
            use_type_invariant(&self);
            use_type_invariant(&child);
        }
        let len_parent = self.len_slice();
        let len_byte = Byte::from_bool(!(TERMINATE && byte == 0));
        let len_child = child.len_slice();
        let len_total = match Byte::try_add(len_parent, len_byte, len_child) {
            Some(len) => len,
            None => return None,
        };
        let terminate = (TERMINATE && byte == 0) || child.terminate;
        if terminate && len_total.bytes() >= SLICE_MAX {
            return None;
        }
        let start = child.start - (len_parent.bytes() + len_byte.bytes());
        let joined = Slice {
            key: child.key,
            start,
            len: len_total.bytes(),
            value: child.value,
            frozen: child.frozen,
            terminate,
        };
        proof {
            let want = compress_view(self@, byte, child@);
            if TERMINATE && byte == 0 {
                assert(joined.stored() =~= self.stored());
            } else {
                assert(joined.stored() =~= self.stored().push(byte) + child.stored());
            }
            assert(joined@.bytes =~= want.bytes);
        }
        Some(joined)
    }

    /// Try to split this edge at byte `index`.
    ///
    /// Returns `None` if `index` is not below the edge length.
    pub fn try_expand(self, index: Byte<SLICE_MAX>) -> (r: Option<(Self, u8, Self)>)
        ensures
            r is Some <==> index@ < self@.bytes.len(),
            r matches Some((parent, byte, child)) ==> {
                &&& (parent@, byte, child@) == expand_view(self@, index@)
                &&& parent.key() == self.key()
                &&& child.key() == self.key()
                &&& parent.start() == self.start()
                &&& !parent.has_terminator()
            },
    {
        proof {
            use_type_invariant(&self);
        }
        let len = self.len();
        if index.bytes() >= len.bytes() {
            return None;
        }
        let len_parent = index.bytes();
        let len_slice = self.len;
        let len_middle = if len_parent + 1 < len_slice { len_parent + 1 } else { len_slice };
        let parent = Slice {
            key: self.key,
            start: self.start,
            len: len_parent,
            value: false,
            frozen: false,
            terminate: false,
        };
        let byte = if len_parent < len_slice {
            self.key[self.start + len_parent]
        } else {
            0
        };
        let child = Slice {
            key: self.key,
            start: self.start + len_middle,
            len: len_slice - len_middle,
            value: self.value,
            frozen: self.frozen,
            terminate: self.terminate && len_parent < len_slice,
        };
        proof {
            let want = expand_view(self@, index@);
            assert(parent@.bytes =~= want.0.bytes);
            assert(child@.bytes =~= want.2.bytes);
        }
        Some((parent, byte, child))
    }

    /// Whether two edges hold the same stored bytes and terminator.
    pub fn eq(&self, other: &Self) -> (r: bool)
        ensures
            r <==> self.stored() == other.stored() && self.has_terminator()
                == other.has_terminator(),
    {
        let a = self.as_slice();
        let b = other.as_slice();
        crate::edge::equal_bytes(a, b) && self.terminate == other.terminate
    }

    /// Compare two edges: stored bytes first, then the terminator.
    pub fn compare(&self, other: &Self) -> (r: Ordering)
        ensures
            r == slice_order(
                self.stored(),
                self.has_terminator(),
                other.stored(),
                other.has_terminator(),
            ),
    {
        let a = self.as_slice();
        let b = other.as_slice();
        match crate::edge::compare_bytes(a, b) {
            Ordering::Equal => if self.terminate == other.terminate {
                Ordering::Equal
            } else if !self.terminate {
                Ordering::Less
            } else {
                Ordering::Greater
            },
            other => other,
        }
    }
}

} // verus!
