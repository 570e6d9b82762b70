//! Readers and writers for keys held as byte slices, with edges that store
//! up to seven key bytes inline ([`Le`]).

use vstd::prelude::*;
use vstd::slice::slice_subrange;
use vstd::std_specs::bits::u64_trailing_zeros;

use crate::edge::Le;
use crate::key::common_prefix;
use crate::key::lcp_len;
use crate::key::lemma_trailing_zero_bytes;
use crate::key::lemma_xor_byte;
use crate::key::padded_byte;
use crate::key::read_u64;
use crate::key::Terminate;
use crate::len::Bit;
use crate::len::Byte;
use crate::len::UNBOUNDED;
use crate::raw::le_byte;

verus! {

/// The bytes a reader stands for: its slice, then the terminator `0` if
/// it has one.
pub open spec fn reader_key(slice: Seq<u8>, terminated: bool) -> Seq<u8> {
    if terminated {
        slice.push(0)
    } else {
        slice
    }
}

/// Number of leading bytes, from byte `i` on and at most 8 in all, on which
/// the word `raw` and `s` (padded with zero bytes) agree.
pub open spec fn word_match_from(raw: u64, s: Seq<u8>, i: nat) -> nat
    decreases 8 - i,
{
    if i >= 8 {
        8
    } else if le_byte(raw, i) != padded_byte(s, i as int) {
        i
    } else {
        word_match_from(raw, s, i + 1)
    }
}

/// Number of leading bytes on which the word `raw` and `s` (padded with
/// zero bytes) agree, at most 8.
pub open spec fn word_match_len(raw: u64, s: Seq<u8>) -> nat {
    word_match_from(raw, s, 0)
}

/// A count with the characteristic property of `word_match_from` is its
/// value.
proof fn lemma_word_match_from(raw: u64, s: Seq<u8>, i: nat, r: nat)
    requires
        i <= r <= 8,
        forall|j: int| i <= j < r ==> le_byte(raw, j as nat) == padded_byte(s, j),
        r < 8 ==> le_byte(raw, r) != padded_byte(s, r as int),
    ensures
        word_match_from(raw, s, i) == r,
    decreases 8 - i,
{
    if i < r {
        lemma_word_match_from(raw, s, i + 1, r);
    }
}

/// `word_match_from` counts at least up to `k` when the word and `s` agree
/// on every byte from `i` up to `k`.
pub proof fn lemma_word_match_at_least(raw: u64, s: Seq<u8>, i: nat, k: nat)
    requires
        i <= k <= 8,
        forall|j: int| i <= j < k ==> le_byte(raw, j as nat) == padded_byte(s, j),
    ensures
        word_match_from(raw, s, i) >= k,
    decreases 8 - i,
{
    if i < 8 && le_byte(raw, i) == padded_byte(s, i as int) {
        let k1: nat = if k > i + 1 {
            k
        } else {
            i + 1
        };
        lemma_word_match_at_least(raw, s, i + 1, k1);
    }
}

/// `word_match_from` stops at or before byte `k` when the word and `s`
/// differ there.
pub proof fn lemma_word_match_at_most(raw: u64, s: Seq<u8>, i: nat, k: nat)
    requires
        i <= k < 8,
        le_byte(raw, k) != padded_byte(s, k as int),
    ensures
        word_match_from(raw, s, i) <= k,
    decreases 8 - i,
{
    if i < k {
        lemma_word_match_at_most(raw, s, i + 1, k);
    }
}

/// Reader over a key held as a byte slice, possibly followed by a logical
/// terminator.
#[derive(Clone, Copy, Debug)]
pub struct Reader<'k, T: Terminate> {
    slice: &'k [u8],
    terminate: T,
}

impl<'k, T: Terminate> Default for Reader<'k, T> {
    /// The reader of the empty prefix, as [`Reader::new_prefix`] of no
    /// bytes gives.
    fn default() -> (r: Self)
        ensures
            r.spec_slice() == Seq::<u8>::empty(),
            !r.spec_terminated(),
    {
        let empty: &'k [u8] = &[];
        Reader::new_prefix(empty)
    }
}

impl<'k, T: Terminate> Reader<'k, T> {
    /// The slice of key bytes.
    pub closed spec fn spec_slice(self) -> Seq<u8> {
        self.slice@
    }

    /// Whether the logical terminator follows the slice.
    pub closed spec fn spec_terminated(self) -> bool {
        self.terminate.spec_get()
    }

    /// The bytes this reader stands for.
    pub open spec fn key(self) -> Seq<u8> {
        reader_key(self.spec_slice(), self.spec_terminated())
    }

    /// A reader over `slice`, with a terminator if `terminate` is set and
    /// `T` can record one.
    pub fn new(slice: &'k [u8], terminate: bool) -> (r: Self)
        ensures
            r.spec_slice() == slice@,
            r.spec_terminated() == (terminate && T::spec_can()),
    {
        Reader { slice, terminate: T::new(terminate) }
    }

    /// A reader standing for `prefix`, for scan operations. `prefix` need
    /// not satisfy any property.
    pub fn new_prefix(prefix: &'k [u8]) -> (r: Self)
        ensures
            r.spec_slice() == prefix@,
            !r.spec_terminated(),
    {
        Reader { slice: prefix, terminate: T::new(false) }
    }

    /// A copy of this reader.
    pub fn copied(&self) -> (r: Self)
        ensures
            r.spec_slice() == self.spec_slice(),
            r.spec_terminated() == self.spec_terminated(),
    {
        Reader { slice: self.slice, terminate: T::new(self.terminate.get()) }
    }

    /// The slice of key bytes.
    pub fn as_slice(&self) -> (r: &'k [u8])
        ensures
            r@ == self.spec_slice(),
    {
        self.slice
    }

    /// Whether the logical terminator follows the slice.
    pub fn is_terminated(&self) -> (r: bool)
        ensures
            r == self.spec_terminated(),
    {
        self.terminate.get()
    }

    /// Number of bytes, the terminator included.
    pub fn len(&self) -> (r: Byte<UNBOUNDED>)
        requires
            self.spec_slice().len() < UNBOUNDED,
        ensures
            r@ == self.key().len(),
    {
        let n = self.slice.len() + if self.terminate.get() {
            1
        } else {
            0
        };
        Byte::new(n)
    }

    /// Byte `index`, the terminator included, or `None` past the end.
    pub fn get_byte(&self, index: usize) -> (r: Option<u8>)
        ensures
            r == (if index < self.key().len() {
                Some(self.key()[index as int])
            } else {
                None
            }),
    {
        if index < self.slice.len() {
            return Some(self.slice[index]);
        }
        if self.terminate.get() && index == self.slice.len() {
            Some(0)
        } else {
            None
        }
    }

    /// The reader without the last byte of its slice (its terminator is
    /// kept), and that byte; `None` if the slice is empty.
    pub fn split_last(&self) -> (r: Option<(Self, u8)>)
        ensures
            r is None <==> self.spec_slice().len() == 0,
            r matches Some((rest, byte)) ==> {
                &&& rest.spec_slice() == self.spec_slice().drop_last()
                &&& rest.spec_terminated() == self.spec_terminated()
                &&& byte == self.spec_slice().last()
            },
    {
        let n = self.slice.len();
        if n == 0 {
            return None;
        }
        let byte = self.slice[n - 1];
        let slice = slice_subrange(self.slice, 0, n - 1);
        Some((Reader { slice, terminate: T::new(self.terminate.get()) }, byte))
    }

    /// Edge metadata holding the first `min(len, self.len())` bits of this
    /// reader (at most seven bytes).
    pub fn get_edge(&self, len: Bit<56>) -> (r: Le)
        requires
            len@ % 8 == 0,
            self.spec_slice().len() < UNBOUNDED,
        ensures
            r@.bytes == self.key().take(if len@ / 8 <= self.key().len() {
                (len@ / 8) as int
            } else {
                self.key().len() as int
            }),
            !r@.value,
            !r@.frozen,
    {
        let own = self.len().bytes();
        let bytes = len.bytes();
        let min = if own < bytes {
            own
        } else {
            bytes
        };
        let edge_len = Bit::<56>::new_unchecked((min * 8) as u8);
        let word = read_u64(self.slice);
        let r = Le::new(word, edge_len);
        proof {
            let key = self.key();
            let m = min as int;
            assert(r@.bytes.len() == m);
            assert forall|i: int| 0 <= i < m implies r@.bytes[i] == key.take(m)[i] by {
                assert(r@.bytes[i] == le_byte(word, i as nat));
                assert(le_byte(word, i as nat) == padded_byte(self.slice@, i));
            }
            assert(r@.bytes =~= key.take(m));
        }
        r
    }

    /// `Some(edge length)` if every key byte of `edge` matches this reader's
    /// slice (padded with zero bytes), else `None`.
    pub fn match_exact(&self, edge: Le) -> (r: Option<Bit<56>>)
        ensures
            r is Some <==> forall|i: int|
                0 <= i < edge@.bytes.len() ==> edge@.bytes[i] == padded_byte(self.spec_slice(), i),
            r matches Some(len) ==> len@ == 8 * edge@.bytes.len(),
    {
        let len_edge = edge.len();
        let raw = edge.into_raw();
        let word = read_u64(self.slice);
        let x = raw ^ word;
        let tz = x.trailing_zeros();
        let len_match = tz as u8;
        proof {
            lemma_trailing_zero_bytes(x);
            let k = edge@.bytes.len();
            let t = tz >> 3;
            let kk = k as u32;
            assert(k <= 7);
            assert(tz <= 64);
            assert((tz >= 8 * kk) <==> (t >= kk)) by (bit_vector)
                requires
                    tz <= 64,
                    kk <= 7,
                    t == tz >> 3,
            ;
            assert forall|i: int| 0 <= i < k implies edge@.bytes[i] == le_byte(raw, i as nat) by {}
            if t >= k {
                assert forall|i: int| 0 <= i < k implies edge@.bytes[i] == padded_byte(
                    self.spec_slice(),
                    i,
                ) by {
                    assert(le_byte(x, i as nat) == 0);
                    lemma_xor_byte(raw, word, i as nat);
                }
            } else {
                lemma_xor_byte(raw, word, t as nat);
                assert(edge@.bytes[t as int] != padded_byte(self.spec_slice(), t as int));
            }
        }
        if len_match >= len_edge.into_u8() {
            Some(len_edge)
        } else {
            None
        }
    }

    /// Number of leading bytes on which the packed word of `edge` and this
    /// reader's slice (padded with zero bytes) agree, at most 8.
    pub fn match_prefix(&self, edge: Le) -> (r: Byte<UNBOUNDED>)
        ensures
            r@ <= 8,
            forall|i: int|
                0 <= i < r@ ==> le_byte(edge.into_raw_spec(), i as nat) == padded_byte(
                    self.spec_slice(),
                    i,
                ),
            r@ < 8 ==> le_byte(edge.into_raw_spec(), r@) != padded_byte(
                self.spec_slice(),
                r@ as int,
            ),
            r@ == word_match_len(edge.into_raw_spec(), self.spec_slice()),
    {
        let raw = edge.into_raw();
        let word = read_u64(self.slice);
        let x = raw ^ word;
        let tz = x.trailing_zeros();
        proof {
            lemma_trailing_zero_bytes(x);
            let t = tz >> 3;
            assert forall|i: int| 0 <= i < t implies le_byte(raw, i as nat) == padded_byte(
                self.spec_slice(),
                i,
            ) by {
                assert(le_byte(x, i as nat) == 0);
                lemma_xor_byte(raw, word, i as nat);
            }
            if t < 8 {
                lemma_xor_byte(raw, word, t as nat);
                assert(le_byte(x, t as nat) != 0);
                assert(le_byte(word, t as nat) == padded_byte(self.spec_slice(), t as int));
                assert(le_byte(raw, t as nat) != padded_byte(self.spec_slice(), t as int));
            }
            lemma_word_match_from(raw, self.spec_slice(), 0, t as nat);
        }
        Byte::new((tz >> 3) as usize)
    }

    /// The first `end` bytes of this reader.
    pub fn prefix(self, end: Byte<UNBOUNDED>) -> (r: Self)
        requires
            end@ <= self.key().len(),
        ensures
            r.key() == self.key().take(end@ as int),
            r.spec_slice() == (if end@ <= self.spec_slice().len() {
                self.spec_slice().take(end@ as int)
            } else {
                self.spec_slice()
            }),
            r.spec_terminated() == (self.spec_terminated() && end@ > self.spec_slice().len()),
    {
        let e = end.bytes();
        let n = self.slice.len();
        let slice = if e <= n {
            slice_subrange(self.slice, 0, e)
        } else {
            self.slice
        };
        let r = Reader { slice, terminate: T::new(self.terminate.get() && e > n) };
        proof {
            let k = end@ as int;
            assert(k == e);
            if e <= n {
                assert(r.spec_slice() =~= self.spec_slice().take(k));
            }
            if self.spec_terminated() && e > n {
                assert(self.key().take(k) =~= self.key());
            } else {
                assert(self.key().take(k) =~= self.spec_slice().take(k));
                assert(r.key() =~= self.spec_slice().take(k));
            }
        }
        r
    }

    /// This reader without its first `start` bytes.
    pub fn suffix(self, start: Byte<UNBOUNDED>) -> (r: Self)
        requires
            start@ <= self.key().len(),
        ensures
            r.key() == self.key().skip(start@ as int),
            r.spec_slice() == (if start@ <= self.spec_slice().len() {
                self.spec_slice().skip(start@ as int)
            } else {
                Seq::empty()
            }),
            r.spec_terminated() == (self.spec_terminated() && start@ <= self.spec_slice().len()),
    {
        let start = start.bytes();
        let n = self.slice.len();
        let slice = if start <= n {
            slice_subrange(self.slice, start, n)
        } else {
            slice_subrange(self.slice, 0, 0)
        };
        let r = Reader { slice, terminate: T::new(self.terminate.get() && start <= n) };
        proof {
            if start <= n {
                assert(slice@ =~= self.slice@.skip(start as int));
            } else {
                assert(slice@ =~= Seq::<u8>::empty());
            }
            if start <= n {
                if self.spec_terminated() {
                    assert(self.key().skip(start as int) =~= self.spec_slice().skip(
                        start as int,
                    ).push(0));
                } else {
                    assert(self.key().skip(start as int) =~= self.spec_slice().skip(start as int));
                }
            } else {
                assert(self.key().skip(start as int) =~= Seq::<u8>::empty());
            }
        }
        r
    }

    /// The longest common prefix of the two slices, terminated only if both
    /// readers are terminated and their slices are equal.
    pub fn common_prefix(self, other: Self) -> (r: Self)
        ensures
            r.spec_slice() == self.spec_slice().take(
                lcp_len(self.spec_slice(), other.spec_slice()) as int,
            ),
            r.spec_terminated() == (self.spec_terminated() && other.spec_terminated()
                && self.spec_slice() == other.spec_slice()),
    {
        let index = common_prefix(self.slice, other.slice);
        let same = index == self.slice.len() && index == other.slice.len();
        proof {
            crate::key::lemma_lcp_len(self.slice@, other.slice@);
            if same {
                assert(self.slice@ =~= other.slice@);
            }
        }
        let slice = slice_subrange(self.slice, 0, index);
        Reader {
            slice,
            terminate: T::new(self.terminate.get() && other.terminate.get() && same),
        }
    }
}

impl<'k> Reader<'k, ()> {
    /// The reader without the last two bytes of its slice, terminated, and
    /// the second-to-last byte; `None` if the slice is shorter than two.
    ///
    /// The last byte is taken to be the key's own terminator `0`.
    pub fn split_second_last(&self) -> (r: Option<(Reader<'k, bool>, u8)>)
        ensures
            r is None <==> self.spec_slice().len() < 2,
            r matches Some((rest, byte)) ==> {
                &&& rest.spec_slice() == self.spec_slice().take(self.spec_slice().len() - 2)
                &&& rest.spec_terminated()
                &&& byte == self.spec_slice()[self.spec_slice().len() - 2]
            },
    {
        let n = self.slice.len();
        if n < 2 {
            return None;
        }
        let byte = self.slice[n - 2];
        let slice = slice_subrange(self.slice, 0, n - 2);
        Some((Reader { slice, terminate: true }, byte))
    }
}

/// Builds a key byte by byte while the tree is walked.
pub struct Writer {
    bytes: Vec<u8>,
}

impl Writer {
    /// The bytes written so far.
    pub closed spec fn spec_bytes(&self) -> Seq<u8> {
        self.bytes@
    }

    /// A writer holding the bytes of `prefix` followed by those of `edge`
    /// (or by the terminator, if `prefix` is terminated), and its length.
    pub fn new<T: Terminate>(prefix: Reader<'_, T>, edge: Le) -> (r: (Self, Byte<UNBOUNDED>))
        requires
            prefix.spec_slice().len() + 8 < UNBOUNDED,
        ensures
            r.0.spec_bytes() == (if prefix.spec_terminated() {
                prefix.spec_slice().push(0)
            } else {
                prefix.spec_slice() + edge@.bytes
            }),
            r.1@ == prefix.key().len() + edge@.bytes.len(),
    {
        let len = prefix.len().bytes() + edge.len().bytes();
        let mut bytes: Vec<u8> = Vec::new();
        let slice = prefix.as_slice();
        let mut i: usize = 0;
        while i < slice.len()
            invariant
                i <= slice@.len(),
                bytes@ == slice@.take(i as int),
            decreases slice@.len() - i,
        {
            bytes.push(slice[i]);
            i = i + 1;
            proof {
                assert(bytes@ =~= slice@.take(i as int));
            }
        }
        proof {
            assert(slice@.take(i as int) =~= slice@);
        }
        if prefix.is_terminated() {
            bytes.push(0);
        } else {
            let mut tail = edge.into_iter();
            bytes.append(&mut tail);
        }
        (Writer { bytes }, Byte::new(len))
    }

    /// Replace the bytes from `start` on with `node` followed by the bytes of
    /// `edge`; returns the new length.
    pub fn replace(&mut self, start: Byte<UNBOUNDED>, node: u8, edge: Le) -> (r: Byte<UNBOUNDED>)
        requires
            start@ <= old(self).spec_bytes().len(),
            start@ + 8 < UNBOUNDED,
        ensures
            final(self).spec_bytes() == old(self).spec_bytes().take(start@ as int).push(node)
                + edge@.bytes,
            r@ == final(self).spec_bytes().len(),
    {
        let start = start.bytes();
        self.bytes.truncate(start);
        self.bytes.push(node);
        let mut tail = edge.into_iter();
        self.bytes.append(&mut tail);
        Byte::new(self.bytes.len())
    }

    /// The bytes written so far.
    pub fn as_slice(&self) -> (r: &[u8])
        ensures
            r@ == self.spec_bytes(),
    {
        self.bytes.as_slice()
    }
}

} // verus!
