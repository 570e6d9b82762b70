//! Readers over unsigned integer keys (`u64`): the key bytes are the
//! integer's big-endian bytes, so keys order as the integers do, and edges
//! store their bytes from the most significant end ([`Be`]).

use vstd::prelude::*;
use vstd::std_specs::bits::axiom_u64_leading_zeros;
use vstd::std_specs::bits::u64_leading_zeros;

use crate::edge::be::be_byte;
use crate::edge::Be;
use crate::len::masked;
use crate::len::Bit;
use crate::len::Byte;
use crate::len::UNBOUNDED;

verus! {

/// The first `len / 8` big-endian bytes of `buffer`.
pub open spec fn int_key(buffer: u64, len: nat) -> Seq<u8> {
    Seq::new(len / 8, |i: int| be_byte(buffer, i as nat))
}

/// The eight bits of `x` starting `bit` bits below its most significant
/// bit.
pub open spec fn byte_at_bit(x: u64, bit: nat) -> u8 {
    ((x >> (56 - bit) as u64) & 0xff) as u8
}

/// Whole leading bytes of `x` that are zero: the index of its first
/// nonzero big-endian byte, or 8.
pub proof fn lemma_leading_zero_bytes(x: u64)
    ensures
        0 <= u64_leading_zeros(x) <= 64,
        forall|i: nat| i < u64_leading_zeros(x) / 8 ==> #[trigger] be_byte(x, i) == 0,
        u64_leading_zeros(x) / 8 < 8 ==> be_byte(x, (u64_leading_zeros(x) / 8) as nat) != 0,
{
    axiom_u64_leading_zeros(x);
    let l = u64_leading_zeros(x);
    assert forall|i: nat| i < l / 8 implies #[trigger] be_byte(x, i) == 0 by {
        let s = (56 - 8 * i) as u64;
        assert(64 - l <= s);
        assert((x >> s) & 1 == 0 && (x >> (s + 1) as u64) & 1 == 0 && (x >> (s + 2) as u64) & 1
            == 0 && (x >> (s + 3) as u64) & 1 == 0 && (x >> (s + 4) as u64) & 1 == 0 && (x >> (s
            + 5) as u64) & 1 == 0 && (x >> (s + 6) as u64) & 1 == 0 && (x >> (s + 7) as u64) & 1
            == 0);
        lemma_be64_word_bits(x, 0, 0, s, 0, 0);
    }
    if l / 8 < 8 {
        let t = (l / 8) as u64;
        let s = (56 - 8 * t) as u64;
        let b = (63 - l) as u64;
        assert((x >> b) & 1 != 0);
        assert(s <= b < s + 8);
        lemma_be64_word_bits(x, 0, 0, s, b, 0);
    }
}

/// Big-endian byte `i` of `a ^ b` is zero exactly when bytes `i` of `a`
/// and `b` agree.
pub proof fn lemma_xor_be_byte(a: u64, b: u64, i: nat)
    requires
        i < 8,
    ensures
        (be_byte(a ^ b, i) == 0) <==> (be_byte(a, i) == be_byte(b, i)),
{
    let s = (56 - 8 * i) as u64;
    lemma_be64_word_bits(a, b, 0, s, 0, 0);
}

/// Bit-level facts about the bytes of 64-bit big-endian words.
proof fn lemma_be64_word_bits(x: u64, y: u64, b: u64, s: u64, t: u64, f: u64)
    by (bit_vector)
    ensures
        s <= 56 && (x >> s) & 1 == 0 && (x >> (s + 1) as u64) & 1 == 0 && (x >> (s + 2) as u64) & 1
            == 0 && (x >> (s + 3) as u64) & 1 == 0 && (x >> (s + 4) as u64) & 1 == 0 && (x >> (s
            + 5) as u64) & 1 == 0 && (x >> (s + 6) as u64) & 1 == 0 && (x >> (s + 7) as u64) & 1
            == 0 ==> ((x >> s) & 0xff) as u8 == 0,
        s <= 56 && s <= t && t < s + 8 && (x >> t) & 1 != 0 ==> ((x >> s) & 0xff) as u8 != 0,
        s <= 56 ==> ((((x ^ y) >> s) & 0xff == 0) <==> ((x >> s) & 0xff == (y >> s) & 0xff)),
        (((x ^ y) >> s) & 0xff) as u8 == 0 <==> ((x ^ y) >> s) & 0xff == 0,
        ((x >> s) & 0xff) as u8 == ((y >> s) & 0xff) as u8 <==> (x >> s) & 0xff == (y >> s) & 0xff,
        0u64 & (0xffff_ffff_ffff_ffffu64 >> 0u64) == 0,
        b < 8 && f < 256 && s == (56 - 8 * b) as u64 && y & (0xffff_ffff_ffff_ffffu64 >> (8 * b)
            as u64) == 0 ==> ({
            let buffer = y | (f << s);
            ((buffer >> s) & 0xff) == f && (b < 7 ==> buffer & (0xffff_ffff_ffff_ffffu64 >> (8 * (b
                + 1)) as u64) == 0)
        }),
        f < 256 && s + 8 <= t && t <= 56 ==> ((y | (f << s)) >> t) & 0xff == (y >> t) & 0xff,
        b < 64 && t <= 56 && t == s + b ==> (((y << b) >> t) & 0xff) == ((y >> s) & 0xff),
{
}

/// Reader over a prefix of an integer key: the most significant `len` bits
/// of `buffer` (bits below may hold anything).
#[derive(Clone, Copy, Debug)]
pub struct Reader {
    buffer: u64,
    len: Bit<64>,
}

impl Reader {
    /// The integer holding the key bits.
    pub closed spec fn spec_buffer(self) -> u64 {
        self.buffer
    }

    /// The key length, in bits.
    pub closed spec fn spec_len(self) -> nat {
        self.len@
    }

    /// The whole key bytes this reader stands for.
    pub open spec fn key(self) -> Seq<u8> {
        int_key(self.spec_buffer(), self.spec_len())
    }

    /// A reader over the whole key `value`.
    pub fn from_u64(value: u64) -> (r: Self)
        ensures
            r.spec_buffer() == value,
            r.spec_len() == 64,
    {
        Reader { buffer: value, len: Bit::max() }
    }

    /// A reader over the whole key `value` of 16 bits, held in the most
    /// significant bits.
    pub fn from_u16(value: u16) -> (r: Self)
        ensures
            r.spec_buffer() == (value as u64) << 48u64,
            r.spec_len() == 16,
    {
        Reader { buffer: (value as u64) << 48u64, len: Bit::new_unchecked(16) }
    }

    /// A reader over the whole key `value` of 32 bits, held in the most
    /// significant bits.
    pub fn from_u32(value: u32) -> (r: Self)
        ensures
            r.spec_buffer() == (value as u64) << 32u64,
            r.spec_len() == 32,
    {
        Reader { buffer: (value as u64) << 32u64, len: Bit::new_unchecked(32) }
    }

    /// A reader standing for the first eight bytes of `prefix` (for scan
    /// operations): its big-endian integer, padded with zero bytes.
    pub fn from_prefix(prefix: &[u8]) -> (r: Self)
        requires
            prefix@.len() <= UNBOUNDED,
        ensures
            r.spec_len() == 8 * (if prefix@.len() <= 8 {
                prefix@.len()
            } else {
                8
            }),
            r.key() == prefix@.take(if prefix@.len() <= 8 {
                prefix@.len() as int
            } else {
                8
            }),
    {
        let n = if prefix.len() < 8 {
            prefix.len()
        } else {
            8
        };
        let mut buffer: u64 = 0;
        let mut i: usize = 0;
        proof {
            lemma_be64_word_bits(0, 0, 0, 0, 0, 0);
        }
        while i < n
            invariant
                i <= n <= 8,
                n <= prefix@.len(),
                forall|j: nat| j < i ==> #[trigger] be_byte(buffer, j) == prefix@[j as int],
                i < 8 ==> buffer & (0xffff_ffff_ffff_ffffu64 >> (8 * i) as u64) == 0,
            decreases n - i,
        {
            let old = buffer;
            let b = prefix[i] as u64;
            let s = 56 - (i as u64) * 8;
            buffer = old | (b << s);
            proof {
                let ii = i as u64;
                assert(s == (56 - 8 * ii) as u64);
                lemma_be64_word_bits(0, old, ii, s, 0, b);
                let c = prefix@[i as int];
                assert(((buffer >> s) & 0xff) as u8 == c);
                assert forall|j: nat| j <= i implies #[trigger] be_byte(buffer, j)
                    == prefix@[j as int] by {
                    let t = (56 - 8 * j) as u64;
                    if j == i {
                        assert(t == s);
                    } else {
                        assert(be_byte(old, j) == prefix@[j as int]);
                        assert(t >= s + 8);
                        lemma_be64_word_bits(0, old, 0, s, t, b);
                    }
                }
            }
            i = i + 1;
        }
        let len = Bit::<64>::from_byte(Byte::<UNBOUNDED>::new(n));
        let r = Reader { buffer, len };
        proof {
            assert(r.key() =~= prefix@.take(n as int));
        }
        r
    }

    /// The integer holding the key bits.
    pub fn buffer(&self) -> (r: u64)
        ensures
            r == self.spec_buffer(),
    {
        self.buffer
    }

    /// The key length, in bits.
    pub fn len(&self) -> (r: Bit<64>)
        ensures
            r@ == self.spec_len(),
    {
        self.len
    }

    /// The byte starting `index` bits below the most significant bit, if
    /// `index` is below the key length.
    pub fn get_byte(&self, index: Bit<56>) -> (r: Option<u8>)
        ensures
            r == (if index@ < self.spec_len() {
                Some(byte_at_bit(self.spec_buffer(), index@))
            } else {
                None
            }),
            index@ % 8 == 0 && index@ + 8 <= self.spec_len() ==> r == Some(
                self.key()[(index@ / 8) as int],
            ),
    {
        let bits = index.into_u8();
        if (bits as usize) < self.len.bits() {
            let shift = (56 - bits) as u64;
            let byte = ((self.buffer >> shift) & 0xff) as u8;
            proof {
                if index@ % 8 == 0 && index@ + 8 <= self.spec_len() {
                    let q = index@ / 8;
                    assert(8 * q == index@);
                    assert(q < self.spec_len() / 8) by (nonlinear_arith)
                        requires
                            8 * q == index@,
                            index@ + 8 <= self.spec_len(),
                    ;
                    assert(self.key()[q as int] == be_byte(self.buffer, q));
                }
            }
            Some(byte)
        } else {
            None
        }
    }

    /// Edge metadata holding the first `min(len, self.len())` bits.
    pub fn get_edge(&self, len: Bit<56>) -> (r: Be)
        requires
            len@ % 8 == 0,
            self.spec_len() % 8 == 0,
        ensures
            r@.bytes == self.key().take(if len@ <= self.spec_len() {
                (len@ / 8) as int
            } else {
                (self.spec_len() / 8) as int
            }),
            !r@.value,
            !r@.frozen,
    {
        let min = Bit::<56>::min::<56, 64>(len, self.len);
        let r = Be::new(self.buffer, min);
        proof {
            let m = if len@ <= self.spec_len() {
                (len@ / 8) as int
            } else {
                (self.spec_len() / 8) as int
            };
            assert(r@.bytes =~= self.key().take(m));
        }
        r
    }

    /// `Some(edge length)` if every key byte of `edge` matches this reader's
    /// integer, else `None`.
    pub fn match_exact(&self, edge: Be) -> (r: Option<Bit<56>>)
        ensures
            r is Some <==> forall|i: int|
                0 <= i < edge@.bytes.len() ==> edge@.bytes[i] == be_byte(
                    self.spec_buffer(),
                    i as nat,
                ),
            r matches Some(len) ==> len@ == 8 * edge@.bytes.len(),
    {
        let len_edge = edge.len();
        let edge_bits = len_edge.into_u8();
        let raw = edge.into_raw();
        let x = raw ^ self.buffer;
        let lz = x.leading_zeros();
        let len_match = lz as u8;
        proof {
            lemma_leading_zero_bytes(x);
            let k = edge@.bytes.len();
            let t = u64_leading_zeros(x) / 8;
            assert(k <= 7);
            assert((lz >= 8 * k) <==> (t >= k));
            assert forall|i: int| 0 <= i < k implies edge@.bytes[i] == be_byte(raw, i as nat) by {}
            if t >= k {
                assert forall|i: int| 0 <= i < k implies edge@.bytes[i] == be_byte(
                    self.spec_buffer(),
                    i as nat,
                ) by {
                    assert(be_byte(x, i as nat) == 0);
                    lemma_xor_be_byte(raw, self.buffer, i as nat);
                }
            } else {
                lemma_xor_be_byte(raw, self.buffer, t as nat);
                assert(edge@.bytes[t] != be_byte(self.spec_buffer(), t as nat));
            }
        }
        if len_match >= edge_bits {
            Some(len_edge)
        } else {
            None
        }
    }

    /// Number of leading bits on which the packed word of `edge` and this
    /// reader's integer agree, at most 56.
    pub fn match_prefix(&self, edge: Be) -> (r: Bit<56>)
        ensures
            r@ == (if u64_leading_zeros(edge.into_raw_spec() ^ self.spec_buffer()) <= 56 {
                u64_leading_zeros(edge.into_raw_spec() ^ self.spec_buffer()) as nat
            } else {
                56
            }),
    {
        let raw = edge.into_raw();
        let lz = (raw ^ self.buffer).leading_zeros();
        let len = if lz <= 56 {
            lz as u8
        } else {
            56
        };
        Bit::new_unchecked(len)
    }

    /// The first `end` bits of this reader.
    pub fn prefix(self, end: Bit<64>) -> (r: Self)
        requires
            end@ <= self.spec_len(),
        ensures
            r.spec_buffer() == self.spec_buffer(),
            r.spec_len() == end@,
            r.key() == self.key().take((end@ / 8) as int),
    {
        let r = Reader { buffer: self.buffer, len: end };
        proof {
            assert(r.key() =~= self.key().take((end@ / 8) as int));
        }
        r
    }

    /// This reader without its first `start` bits.
    pub fn suffix(self, start: Bit<64>) -> (r: Self)
        requires
            start@ <= self.spec_len(),
        ensures
            r.spec_buffer() == (if start@ < 64 {
                self.spec_buffer() << (start@ as u64)
            } else {
                0
            }),
            r.spec_len() == self.spec_len() - start@,
            start@ % 8 == 0 ==> r.key() == self.key().skip((start@ / 8) as int),
    {
        let s = start.into_u8();
        let total = self.len.into_u8();
        let old = self.buffer;
        let buffer = if s < 64 {
            old << s
        } else {
            0
        };
        let len = self.len.sub(start);
        let r = Reader { buffer, len };
        proof {
            if start@ % 8 == 0 {
                let q = start@ / 8;
                assert forall|i: int| 0 <= i < r.key().len() implies r.key()[i] == self.key()[i
                    + q] by {
                    let a = (56 - 8 * i) as u64;
                    let b = (56 - 8 * (i + q)) as u64;
                    let ss = s as u64;
                    assert(8 * (i + 1) <= r.spec_len()) by (nonlinear_arith)
                        requires
                            0 <= i < r.spec_len() / 8,
                    ;
                    assert(s < total);
                    assert(buffer == old << ss);
                    lemma_be64_word_bits(0, old, ss, b, a, 0);
                }
                assert(r.key() =~= self.key().skip(q as int));
            }
        }
        r
    }

    /// The common prefix of the two readers, in whole bytes: their shared
    /// leading bits, at most the shorter length, rounded down to a byte
    /// (within the six low bits of the count).
    pub fn common_prefix(self, other: Self) -> (r: Self)
        ensures
            r.spec_buffer() == self.spec_buffer(),
            r.spec_len() == masked(
                (if u64_leading_zeros(self.spec_buffer() ^ other.spec_buffer()) <= min_len(
                    self.spec_len(),
                    other.spec_len(),
                ) {
                    u64_leading_zeros(self.spec_buffer() ^ other.spec_buffer()) as nat
                } else {
                    min_len(self.spec_len(), other.spec_len())
                }) as u8,
            ),
    {
        let max = Bit::<64>::min::<64, 64>(self.len, other.len).into_u8();
        let lz = (self.buffer ^ other.buffer).leading_zeros();
        proof {
            axiom_u64_leading_zeros(self.buffer ^ other.buffer);
        }
        let m: u8 = if lz <= max as u32 {
            lz as u8
        } else {
            max
        };
        Reader { buffer: self.buffer, len: Bit::new_masked(m) }
    }

    /// The reader without its last byte, and the least significant byte of
    /// its integer; `None` if it is shorter than a byte.
    pub fn split_last(self) -> (r: Option<(Self, u8)>)
        ensures
            r is None <==> self.spec_len() < 8,
            r matches Some((rest, byte)) ==> {
                &&& rest.spec_buffer() == self.spec_buffer()
                &&& rest.spec_len() == self.spec_len() - 8
                &&& byte == self.spec_buffer() as u8
            },
    {
        let len = self.len.into_u8();
        if len < 8 {
            return None;
        }
        Some((Reader { buffer: self.buffer, len: Bit::new_unchecked(len - 8) }, self.buffer as u8))
    }
}

/// The top `bits` bits of `x` (all of it from 64 bits on).
pub open spec fn top_bits(x: u64, bits: u64) -> u64 {
    if bits >= 64 {
        x
    } else {
        x & !(0xffff_ffff_ffff_ffffu64 >> bits)
    }
}

/// `x` shifted right by `bits` (zero from 64 bits on).
pub open spec fn shr_bits(x: u64, bits: u64) -> u64 {
    if bits >= 64 {
        0
    } else {
        x >> bits
    }
}

/// Bit-level facts about the word a [`Writer`] starts from: the top `p`
/// bits of `x` followed by `y`. A byte is taken `k` bits above the least
/// significant bit.
#[verifier::rlimit(100)]
proof fn lemma_writer_join_bits(x: u64, y: u64, p: u64, k: u64)
    by (bit_vector)
    ensures
        x & !0u64 == x,
        p <= 64 && k + p >= 64 && k <= 56 ==> ((top_bits(x, p) | shr_bits(y, p)) >> k) & 0xff == (x
            >> k) & 0xff,
        p <= 56 && k + p <= 56 ==> ((top_bits(x, p) | shr_bits(y, p)) >> k) & 0xff == (y >> (k + p))
            & 0xff,
{
}

/// Bit-level facts about the word a [`Writer`] replaces from bit `p` on:
/// the top `p` bits of `x`, the byte `node` and `y`. A byte is taken `k`
/// bits above the least significant bit.
#[verifier::rlimit(100)]
proof fn lemma_writer_replace_bits(x: u64, y: u64, p: u64, k: u64, node: u64)
    by (bit_vector)
    ensures
        ({
            let value = top_bits(x, p) | ((node << 56u64) >> p) | shr_bits(y, (8 + p) as u64);
            &&& p <= 56 && k + p >= 64 && k <= 56 ==> (value >> k) & 0xff == (x >> k) & 0xff
            &&& p <= 56 && k + p == 56 && node < 256 ==> (value >> k) & 0xff == node
            &&& p <= 48 && k + p + 8 <= 56 ==> (value >> k) & 0xff == (y >> (k + p + 8)) & 0xff
        }),
{
}

/// The top `bits` bits of `x`.
fn most_significant(x: u64, bits: u8) -> (r: u64)
    ensures
        r == top_bits(x, bits as u64),
{
    let mask = if bits >= 64 {
        0
    } else {
        u64::MAX >> bits
    };
    proof {
        lemma_writer_join_bits(x, 0, 0, 0);
    }
    x & !mask
}

/// `x` shifted right by `bits`, zero from 64 bits on.
fn unbounded_shr(x: u64, bits: u8) -> (r: u64)
    ensures
        r == shr_bits(x, bits as u64),
{
    if bits >= 64 {
        0
    } else {
        x >> bits
    }
}

/// Key bytes of an integer key under construction, as the big-endian
/// bytes of the integer; bytes past the length written may hold anything.
#[derive(Clone, Copy, Debug)]
pub struct Writer {
    value: u64,
}

impl View for Writer {
    type V = u64;

    closed spec fn view(&self) -> u64 {
        self.value
    }
}

impl Writer {
    /// The key bytes of `prefix` followed by the key bytes of `edge`, and
    /// their length.
    pub fn new(prefix: Reader, edge: Be) -> (r: (Self, Bit<64>))
        requires
            prefix.spec_len() + 8 * edge@.bytes.len() <= 64,
        ensures
            r.1@ == prefix.spec_len() + 8 * edge@.bytes.len(),
            r.0@ == top_bits(prefix.spec_buffer(), prefix.spec_len() as u64) | shr_bits(
                edge.into_raw_spec(),
                prefix.spec_len() as u64,
            ),
            prefix.spec_len() % 8 == 0 ==> int_key(r.0@, r.1@) == prefix.key() + edge@.bytes,
    {
        let p = prefix.len();
        let edge_len = Bit::<64>::clamp_from(edge.len());
        let len = p.add(edge_len);
        let raw = edge.into_raw();
        let value = most_significant(prefix.buffer(), p.into_u8()) | unbounded_shr(raw, p.into_u8());
        proof {
            let pl = p@ as u64;
            if p@ % 8 == 0 {
                let want = prefix.key() + edge@.bytes;
                let got = int_key(value, len@);
                assert(got.len() == want.len()) by (nonlinear_arith)
                    requires
                        got.len() == len@ / 8,
                        want.len() == p@ / 8 + edge@.bytes.len(),
                        len@ == p@ + 8 * edge@.bytes.len(),
                        p@ % 8 == 0,
                ;
                assert forall|i: int| 0 <= i < got.len() implies got[i] == want[i] by {
                    let k = (56 - 8 * i) as u64;
                    if i < p@ / 8 {
                        lemma_writer_join_bits(prefix.spec_buffer(), raw, pl, k);
                    } else {
                        lemma_writer_join_bits(prefix.spec_buffer(), raw, pl, k);
                        assert((k + pl) as u64 == (56 - 8 * (i - p@ / 8)) as u64);
                    }
                }
                assert(got =~= want);
            }
        }
        (Writer { value }, len)
    }

    /// Write `node` from bit `start` on and the key bytes of `edge` after
    /// it; returns the length up to the end of `edge`.
    pub fn replace(&mut self, start: Bit<64>, node: u8, edge: Be) -> (r: Bit<64>)
        requires
            start@ + 8 + 8 * edge@.bytes.len() <= 64,
        ensures
            final(self)@ == top_bits(old(self)@, start@ as u64) | (((node as u64) << 56u64) >> (
            start@ as u64)) | shr_bits(edge.into_raw_spec(), (8 + start@) as u64),
            r@ == start@ + 8 + 8 * edge@.bytes.len(),
            start@ % 8 == 0 ==> int_key(final(self)@, r@) == int_key(old(self)@, start@).push(node)
                + edge@.bytes,
    {
        let s = start.into_u8();
        let raw = edge.into_raw();
        let old = self.value;
        let value = most_significant(old, s) | (((node as u64) << 56) >> s) | unbounded_shr(raw, 8 + s);
        self.value = value;
        let edge_len = Bit::<64>::clamp_from(edge.len());
        let r = start.add(Bit::byte()).add(edge_len);
        proof {
            let sl = s as u64;
            if start@ % 8 == 0 {
                let q = start@ / 8;
                let want = int_key(old, start@).push(node) + edge@.bytes;
                let got = int_key(value, r@);
                assert(got.len() == want.len()) by (nonlinear_arith)
                    requires
                        got.len() == r@ / 8,
                        want.len() == start@ / 8 + 1 + edge@.bytes.len(),
                        r@ == start@ + 8 + 8 * edge@.bytes.len(),
                        start@ % 8 == 0,
                ;
                assert forall|i: int| 0 <= i < got.len() implies got[i] == want[i] by {
                    let k = (56 - 8 * i) as u64;
                    lemma_writer_replace_bits(old, raw, sl, k, node as u64);
                    if i > q {
                        assert((k + sl + 8) as u64 == (56 - 8 * (i - q - 1)) as u64);
                    }
                }
                assert(got =~= want);
            }
        }
        r
    }

    /// The 16-bit key whose big-endian bytes are the first two written.
    pub fn into_u16(&self) -> (r: u16)
        ensures
            r == (self@ >> 48u64) as u16,
    {
        (self.value >> 48u64) as u16
    }

    /// The 32-bit key whose big-endian bytes are the first four written.
    pub fn into_u32(&self) -> (r: u32)
        ensures
            r == (self@ >> 32u64) as u32,
    {
        (self.value >> 32u64) as u32
    }

    /// The integer whose big-endian bytes are the key bytes written.
    pub fn into_u64(&self) -> (r: u64)
        ensures
            r == self@,
    {
        self.value
    }
}

/// The smaller of two lengths.
pub open spec fn min_len(a: nat, b: nat) -> nat {
    if a <= b {
        a
    } else {
        b
    }
}

} // verus!
