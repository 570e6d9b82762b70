//! A simple reader over integer keys, held as eight big-endian bytes in an
//! array: the baseline that the word-based integer reader is measured
//! against.

use vstd::prelude::*;
use vstd::string::StringSliceAdditionalSpecFns;

use crate::edge::be::be_byte;
use crate::edge::be::lemma_be_word_bits;
use crate::edge::Le;
use crate::key::lcp_len;
use crate::key::lemma_lcp_len;
use crate::key::lemma_lcp_len_unique;
use crate::key::padded_byte;
use crate::key::read_u64;
use crate::len::Bit;
use crate::len::Byte;
use crate::raw::le_byte;

verus! {

/// Byte `i` of `key`, or zero past its end.
fn padded(key: &[u8], i: usize) -> (r: u8)
    ensures
        r == padded_byte(key@, i as int),
{
    if i < key.len() {
        key[i]
    } else {
        0
    }
}

/// Byte `i` of `buffer` if `i < n`, else zero.
pub open spec fn kept(buffer: Seq<u8>, n: nat, i: int) -> u8 {
    if i < n {
        buffer[i]
    } else {
        0
    }
}

/// Reader over up to eight key bytes held in an array; the bytes of the
/// array past the length are carried along but are not part of the key.
#[derive(Clone, Copy, Debug)]
pub struct Reader {
    buffer: [u8; 8],
    len: Byte<8>,
}

impl Reader {
    /// The eight bytes of the array.
    pub closed spec fn spec_buffer(self) -> Seq<u8> {
        self.buffer@
    }

    /// Number of key bytes.
    pub closed spec fn spec_len(self) -> nat {
        self.len@
    }

    /// The key bytes this reader stands for.
    pub open spec fn key(self) -> Seq<u8> {
        self.spec_buffer().take(self.spec_len() as int)
    }

    /// A reader over the first `len` bytes of `key`, padded with zero bytes.
    fn new(key: &[u8], len: Byte<8>) -> (r: Self)
        ensures
            r.spec_buffer() == Seq::new(8, |i: int| padded_byte(key@, i)),
            r.spec_len() == len@,
    {
        let buffer = [
            padded(key, 0),
            padded(key, 1),
            padded(key, 2),
            padded(key, 3),
            padded(key, 4),
            padded(key, 5),
            padded(key, 6),
            padded(key, 7),
        ];
        let r = Reader { buffer, len };
        assert(r.spec_buffer() =~= Seq::new(8, |i: int| padded_byte(key@, i)));
        r
    }

    /// A reader over the eight big-endian bytes of `key`.
    pub fn from_u64(key: u64) -> (r: Self)
        ensures
            r.spec_buffer() == Seq::new(8, |i: int| be_byte(key, i as nat)),
            r.spec_len() == 8,
            r.key() == Seq::new(8, |i: int| be_byte(key, i as nat)),
    {
        let buffer = [
            (key >> 56) as u8,
            (key >> 48) as u8,
            (key >> 40) as u8,
            (key >> 32) as u8,
            (key >> 24) as u8,
            (key >> 16) as u8,
            (key >> 8) as u8,
            key as u8,
        ];
        let r = Reader { buffer, len: Byte::new(8) };
        proof {
            lemma_be_word_bits(key, 0, 0, 56, false);
            lemma_be_word_bits(key, 0, 0, 48, false);
            lemma_be_word_bits(key, 0, 0, 40, false);
            lemma_be_word_bits(key, 0, 0, 32, false);
            lemma_be_word_bits(key, 0, 0, 24, false);
            lemma_be_word_bits(key, 0, 0, 16, false);
            lemma_be_word_bits(key, 0, 0, 8, false);
            lemma_be_word_bits(key, 0, 0, 0, false);
            let want = Seq::new(8, |i: int| be_byte(key, i as nat));
            assert(r.spec_buffer() =~= want);
            assert(r.key() =~= want);
        }
        r
    }

    /// A reader over the first (at most eight) bytes of `key`.
    pub fn from_slice(key: &[u8]) -> (r: Self)
        ensures
            r.spec_buffer() == Seq::new(8, |i: int| padded_byte(key@, i)),
            r.spec_len() == if key@.len() < 8 {
                key@.len()
            } else {
                8
            },
    {
        let n = if key.len() < 8 {
            key.len()
        } else {
            8
        };
        Reader::new(key, Byte::new(n))
    }

    /// A reader over the first (at most eight) bytes of the string `key`.
    pub fn from_str(key: &str) -> (r: Self)
        ensures
            r.spec_buffer() == Seq::new(8, |i: int| padded_byte(key.spec_bytes(), i)),
            r.spec_len() == if key.spec_bytes().len() < 8 {
                key.spec_bytes().len()
            } else {
                8
            },
    {
        Reader::from_slice(key.as_bytes())
    }

    /// A reader over the first (at most eight) bytes of the array `key`.
    pub fn from_array<const N: usize>(key: &[u8; N]) -> (r: Self)
        ensures
            r.spec_buffer() == Seq::new(8, |i: int| padded_byte(key@, i)),
            r.spec_len() == if N < 8 {
                N as nat
            } else {
                8
            },
    {
        Reader::from_slice(key.as_slice())
    }

    /// The eight bytes of the array, those past the key included.
    pub fn buffer(&self) -> (r: [u8; 8])
        ensures
            r@ == self.spec_buffer(),
    {
        self.buffer
    }

    /// Number of key bytes.
    pub fn len(&self) -> (r: Byte<8>)
        ensures
            r@ == self.spec_len(),
            r@ <= 8,
            self.key().len() == r@,
    {
        let _ = self.len.bytes();
        self.len
    }

    /// Edge metadata holding the first `min(len, self.len())` bits of the
    /// key (at most seven bytes).
    pub fn get_edge(&self, len: Bit<56>) -> (r: Le)
        requires
            len@ % 8 == 0,
        ensures
            r@.bytes == self.key().take(if len@ / 8 <= self.spec_len() {
                (len@ / 8) as int
            } else {
                self.spec_len() as int
            }),
            !r@.value,
            !r@.frozen,
    {
        let own = self.len().bytes();
        let bytes = len.bytes();
        let edge_len = if bytes <= own {
            len
        } else {
            Bit::from_byte(self.len)
        };
        let word = read_u64(self.buffer.as_slice());
        let r = Le::new(word, edge_len);
        proof {
            let m = if bytes <= own {
                bytes as int
            } else {
                own as int
            };
            assert(r@.bytes.len() == m);
            assert forall|i: int| 0 <= i < m implies r@.bytes[i] == self.key().take(m)[i] by {
                assert(r@.bytes[i] == le_byte(word, i as nat));
                assert(le_byte(word, i as nat) == padded_byte(self.buffer@, i));
            }
            assert(r@.bytes =~= self.key().take(m));
        }
        r
    }

    /// Key byte `index / 8`, or `None` past the end of the key.
    pub fn get_byte(&self, index: Bit<56>) -> (r: Option<u8>)
        ensures
            r == (if index@ / 8 < self.spec_len() {
                Some(self.key()[(index@ / 8) as int])
            } else {
                None
            }),
    {
        let index = index.bytes();
        if index < self.len().bytes() {
            Some(self.buffer[index])
        } else {
            None
        }
    }

    /// Length of the match between the key and the bytes of `edge`: the
    /// first position (below both lengths) where they differ, or the key
    /// length if they agree there; in bits, at most seven bytes.
    pub fn match_prefix(&self, edge: Le) -> (r: Bit<56>)
        ensures
            ({
                let m = if self.spec_len() <= edge@.bytes.len() {
                    self.spec_len()
                } else {
                    edge@.bytes.len()
                };
                let l = lcp_len(self.key(), edge@.bytes);
                let n = if l < m {
                    l
                } else {
                    self.spec_len()
                };
                r@ == 8 * (if n <= 7 {
                    n
                } else {
                    7
                })
            }),
    {
        let bytes = edge.into_iter();
        let own = self.len().bytes();
        let m = if own <= bytes.len() {
            own
        } else {
            bytes.len()
        };
        let mut i: usize = 0;
        while i < m
            invariant
                i <= m,
                m <= own,
                m <= bytes@.len(),
                own == self.spec_len(),
                own <= 8,
                m == own || m == bytes@.len(),
                bytes@ == edge@.bytes,
                forall|j: int| 0 <= j < i ==> self.key()[j] == bytes@[j],
            decreases m - i,
        {
            proof {
                assert(self.key()[i as int] == self.spec_buffer()[i as int]);
            }
            if self.buffer[i] != bytes[i] {
                proof {
                    lemma_lcp_len_unique(self.key(), edge@.bytes, i as nat);
                }
                return Bit::from_byte(Byte::<8>::new(i));
            }
            i = i + 1;
        }
        proof {
            lemma_lcp_len_unique(self.key(), edge@.bytes, m as nat);
        }
        Bit::from_byte(Byte::<8>::new(own))
    }

    /// The first `end` bytes of the array, the rest zeroed.
    pub fn prefix(self, end: Byte<8>) -> (r: Self)
        ensures
            r.spec_buffer() == Seq::new(8, |i: int| kept(self.spec_buffer(), end@, i)),
            r.spec_len() == end@,
    {
        let e = end.bytes();
        let mut buffer = [0u8; 8];
        let mut i: usize = 0;
        while i < e
            invariant
                i <= e <= 8,
                e == end@,
                forall|j: int| 0 <= j < i ==> buffer@[j] == self.buffer@[j],
                forall|j: int| i <= j < 8 ==> buffer@[j] == 0,
            decreases e - i,
        {
            buffer[i] = self.buffer[i];
            i = i + 1;
        }
        let r = Reader { buffer, len: end };
        assert(r.spec_buffer() =~= Seq::new(8, |i: int| kept(self.spec_buffer(), end@, i)));
        r
    }

    /// The key without its first `start` bytes, moved to the front of a
    /// zeroed array.
    pub fn suffix(self, start: Byte<8>) -> (r: Self)
        requires
            start@ <= self.spec_len(),
        ensures
            r.spec_len() == self.spec_len() - start@,
            r.spec_buffer() == Seq::new(
                8,
                |i: int| kept(self.spec_buffer().skip(start@ as int), r.spec_len(), i),
            ),
            r.key() == self.key().skip(start@ as int),
    {
        let _ = self.len.bytes();
        let s = start.bytes();
        let len = self.len.sub(start);
        let n = len.bytes();
        let mut buffer = [0u8; 8];
        let mut i: usize = 0;
        while i < n
            invariant
                i <= n,
                s + n <= 8,
                n == self.spec_len() - start@,
                s == start@,
                forall|j: int| 0 <= j < i ==> buffer@[j] == self.buffer@[s + j],
                forall|j: int| i <= j < 8 ==> buffer@[j] == 0,
            decreases n - i,
        {
            buffer[i] = self.buffer[s + i];
            i = i + 1;
        }
        let r = Reader { buffer, len };
        proof {
            assert(r.spec_buffer() =~= Seq::new(
                8,
                |i: int| kept(self.spec_buffer().skip(start@ as int), r.spec_len(), i),
            ));
            assert(r.key() =~= self.key().skip(start@ as int));
        }
        r
    }

    /// The longest common prefix of the two keys, its bytes at the front of
    /// a zeroed array.
    pub fn common_prefix(self, other: Self) -> (r: Self)
        ensures
            r.spec_len() == lcp_len(self.key(), other.key()),
            r.spec_buffer() == Seq::new(8, |i: int| kept(self.spec_buffer(), r.spec_len(), i)),
            r.key() == self.key().take(r.spec_len() as int),
    {
        let a = self.len().bytes();
        let b = other.len().bytes();
        let m = if a < b {
            a
        } else {
            b
        };
        let mut i: usize = 0;
        while i < m
            invariant
                i <= m <= 8,
                m == a || m == b,
                m <= a,
                m <= b,
                a == self.spec_len(),
                b == other.spec_len(),
                self.spec_buffer().len() == 8,
                other.spec_buffer().len() == 8,
                self.key().len() == a,
                other.key().len() == b,
                a <= 8,
                b <= 8,
                forall|j: int| 0 <= j < i ==> self.key()[j] == other.key()[j],
            decreases m - i,
        {
            proof {
                assert(self.key()[i as int] == self.spec_buffer()[i as int]);
                assert(other.key()[i as int] == other.spec_buffer()[i as int]);
            }
            if self.buffer[i] != other.buffer[i] {
                proof {
                    lemma_lcp_len_unique(self.key(), other.key(), i as nat);
                }
                let r = self.prefix(Byte::new(i));
                assert(r.key() =~= self.key().take(r.spec_len() as int));
                return r;
            }
            i = i + 1;
        }
        proof {
            lemma_lcp_len_unique(self.key(), other.key(), m as nat);
        }
        let r = self.prefix(Byte::new(m));
        assert(r.key() =~= self.key().take(r.spec_len() as int));
        r
    }
}

/// Key bytes under construction: eight bytes, filled from the front.
#[derive(Clone, Copy, Debug)]
pub struct Writer {
    bytes: [u8; 8],
}

impl View for Writer {
    type V = Seq<u8>;

    closed spec fn view(&self) -> Seq<u8> {
        self.bytes@
    }
}

/// `bytes` with `edge` written from position `at` on, as far as it fits.
pub open spec fn overwrite(bytes: Seq<u8>, at: int, edge: Seq<u8>) -> Seq<u8> {
    Seq::new(
        bytes.len(),
        |i: int|
            if at <= i < at + edge.len() {
                edge[i - at]
            } else {
                bytes[i]
            },
    )
}

impl Writer {
    /// The eight bytes written so far.
    pub fn as_slice(&self) -> (r: &[u8])
        ensures
            r@ == self@,
    {
        self.bytes.as_slice()
    }

    /// The key bytes of `prefix`, followed by those of `edge` as far as
    /// they fit in eight bytes; and the length of the whole.
    pub fn new(prefix: Reader, edge: Le) -> (r: (Self, Byte<8>))
        requires
            prefix.spec_len() + edge@.bytes.len() <= 8,
        ensures
            r.0@ == overwrite(
                Seq::new(8, |i: int| kept(prefix.spec_buffer(), prefix.spec_len(), i)),
                prefix.spec_len() as int,
                edge@.bytes,
            ),
            r.1@ == prefix.spec_len() + edge@.bytes.len(),
    {
        let n = prefix.len();
        let len = n.add(edge.len().into_byte());
        let start = prefix.prefix(n);
        let mut writer = Writer { bytes: start.buffer };
        writer.write_edge(n.bytes(), edge);
        proof {
            assert(start.spec_buffer() =~= Seq::new(
                8,
                |i: int| kept(prefix.spec_buffer(), prefix.spec_len(), i),
            ));
        }
        (writer, len)
    }

    /// Write `node` at position `start` and the bytes of `edge` after it, as
    /// far as they fit; returns the length up to the end of `edge`.
    pub fn replace(&mut self, start: Byte<8>, node: u8, edge: Le) -> (r: Byte<8>)
        requires
            start@ + 1 + edge@.bytes.len() <= 8,
        ensures
            final(self)@ == overwrite(old(self)@.update(start@ as int, node), start@ + 1 as int, edge@.bytes),
            r@ == start@ + 1 + edge@.bytes.len(),
    {
        let s = start.bytes();
        self.bytes[s] = node;
        self.write_edge(s + 1, edge);
        start.add(Byte::byte()).add(edge.len().into_byte())
    }

    /// Write the bytes of `edge` from position `at` on, as far as they fit.
    fn write_edge(&mut self, at: usize, edge: Le)
        requires
            at <= 8,
        ensures
            final(self)@ == overwrite(old(self)@, at as int, edge@.bytes.take(
                if at + edge@.bytes.len() <= 8 {
                    edge@.bytes.len() as int
                } else {
                    8 - at
                },
            )),
    {
        let bytes = edge.into_iter();
        let n = if at + bytes.len() <= 8 {
            bytes.len()
        } else {
            8 - at
        };
        let ghost before = self@;
        let ghost want = edge@.bytes.take(n as int);
        let mut i: usize = 0;
        while i < n
            invariant
                i <= n,
                at + n <= 8,
                n <= bytes@.len(),
                bytes@ == edge@.bytes,
                want == edge@.bytes.take(n as int),
                self@.len() == 8,
                forall|j: int| 0 <= j < 8 && !(at <= j < at + i) ==> self@[j] == before[j],
                forall|j: int| at <= j < at + i ==> self@[j] == want[j - at],
            decreases n - i,
        {
            self.bytes[at + i] = bytes[i];
            i = i + 1;
        }
        assert(self@ =~= overwrite(before, at as int, want));
    }
}

} // verus!
