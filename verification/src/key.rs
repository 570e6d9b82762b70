//! Keys: byte sequences ordered lexicographically, none of which is a
//! prefix of another.
//!
//! A reader walks a key from the front. It is a slice of the key's bytes,
//! possibly followed by a logical terminator byte `0` that does not appear
//! in the slice itself: keys without null bytes get one appended, which
//! gives them the prefix property without changing their order.

pub mod array;
pub mod bytes;
pub mod dynamic;
pub mod unsigned;
pub mod non_null;
pub mod non_prefix;
pub mod null_terminated;
pub mod slice;
pub mod slow;
pub mod string;

use vstd::prelude::*;
use vstd::std_specs::bits::axiom_u64_trailing_zeros;
use vstd::std_specs::bits::u64_trailing_zeros;

use crate::raw::le_byte;

verus! {

/// Byte `i` of `s`, or zero past its end.
pub open spec fn padded_byte(s: Seq<u8>, i: int) -> u8 {
    if 0 <= i < s.len() {
        s[i]
    } else {
        0
    }
}

/// Length of the longest common prefix of `a` and `b`.
pub open spec fn lcp_len(a: Seq<u8>, b: Seq<u8>) -> nat
    decreases a.len(),
{
    if a.len() == 0 || b.len() == 0 || a[0] != b[0] {
        0
    } else {
        1 + lcp_len(a.drop_first(), b.drop_first())
    }
}

/// `lcp_len` is the number of leading bytes on which `a` and `b` agree.
pub proof fn lemma_lcp_len(a: Seq<u8>, b: Seq<u8>)
    ensures
        lcp_len(a, b) <= a.len(),
        lcp_len(a, b) <= b.len(),
        forall|i: int| 0 <= i < lcp_len(a, b) ==> a[i] == b[i],
        lcp_len(a, b) < a.len() && lcp_len(a, b) < b.len() ==> a[lcp_len(a, b) as int] != b[lcp_len(
            a,
            b,
        ) as int],
    decreases a.len(),
{
    if !(a.len() == 0 || b.len() == 0 || a[0] != b[0]) {
        lemma_lcp_len(a.drop_first(), b.drop_first());
        assert forall|i: int| 0 <= i < lcp_len(a, b) implies a[i] == b[i] by {
            if i > 0 {
                assert(a[i] == a.drop_first()[i - 1]);
                assert(b[i] == b.drop_first()[i - 1]);
            }
        }
    }
}

/// A count with the characteristic property of `lcp_len` is `lcp_len`.
pub proof fn lemma_lcp_len_unique(a: Seq<u8>, b: Seq<u8>, n: nat)
    requires
        n <= a.len(),
        n <= b.len(),
        forall|i: int| 0 <= i < n ==> a[i] == b[i],
        n < a.len() && n < b.len() ==> a[n as int] != b[n as int],
    ensures
        lcp_len(a, b) == n,
{
    lemma_lcp_len(a, b);
    let m = lcp_len(a, b);
    if m < n {
        assert(a[m as int] == b[m as int]);
    } else if n < m {
        assert(a[n as int] == b[n as int]);
    }
}

/// Length of the longest common prefix of `left` and `right`.
pub fn common_prefix(left: &[u8], right: &[u8]) -> (r: usize)
    ensures
        r == lcp_len(left@, right@),
{
    let n = if left.len() < right.len() {
        left.len()
    } else {
        right.len()
    };
    let mut i: usize = 0;
    while i < n
        invariant
            i <= n,
            n <= left@.len(),
            n <= right@.len(),
            n == left@.len() || n == right@.len(),
            forall|j: int| 0 <= j < i ==> left@[j] == right@[j],
        decreases n - i,
    {
        if left[i] != right[i] {
            proof {
                lemma_lcp_len_unique(left@, right@, i as nat);
            }
            return i;
        }
        i = i + 1;
    }
    proof {
        lemma_lcp_len_unique(left@, right@, n as nat);
    }
    n
}

/// The first eight bytes of `slice` as a little-endian word, padded with
/// zero bytes past the end of `slice`.
pub fn read_u64(slice: &[u8]) -> (r: u64)
    ensures
        forall|i: nat| i < 8 ==> #[trigger] le_byte(r, i) == padded_byte(slice@, i as int),
{
    let n = if slice.len() < 8 {
        slice.len()
    } else {
        8
    };
    let mut buffer: u64 = 0;
    let mut i: usize = 0;
    proof {
        lemma_le64_word_bits(0, 0, 0, 0, 0, 0);
    }
    while i < n
        invariant
            i <= n <= 8,
            n <= slice@.len(),
            n == slice@.len() || n == 8,
            i < 8 ==> buffer >> (8 * i) as u64 == 0,
            forall|j: nat| j < i ==> #[trigger] le_byte(buffer, j) == slice@[j as int],
        decreases n - i,
    {
        let old = buffer;
        let b = slice[i] as u64;
        let s = (i as u64) * 8;
        buffer = old | (b << s);
        proof {
            let ii = i as u64;
            assert(s == (8 * ii) as u64);
            lemma_le64_word_bits(0, old, ii, 0, b, 0);
            let c = slice@[i as int];
            assert(((buffer >> (8 * ii) as u64) & 0xff) as u8 == c);
            assert forall|j: nat| j <= i implies #[trigger] le_byte(buffer, j) == slice@[j as int] by {
                let t = (8 * j) as u64;
                if j == i {
                    assert(t == (8 * ii) as u64);
                    assert(le_byte(buffer, j) == ((buffer >> t) & 0xff) as u8);
                }
                if j < i {
                    assert(le_byte(old, j) == slice@[j as int]);
                    assert(t + 8 <= 8 * ii);
                    lemma_le64_word_bits(0, old, ii, t, b, 0);
                }
            }
        }
        i = i + 1;
    }
    proof {
        assert forall|j: nat| j < 8 implies #[trigger] le_byte(buffer, j) == padded_byte(
            slice@,
            j as int,
        ) by {
            if j >= n {
                let t = (8 * j) as u64;
                let nn = n as u64;
                lemma_le64_word_bits(0, buffer, nn, t, 0, 0);
            }
        }
    }
    buffer
}

/// Number of whole low bytes of `x` that are zero: the index of its first
/// nonzero byte, or 8.
pub proof fn lemma_trailing_zero_bytes(x: u64)
    ensures
        (u64_trailing_zeros(x) >> 3) <= 8,
        forall|i: nat| i < (u64_trailing_zeros(x) >> 3) ==> #[trigger] le_byte(x, i) == 0,
        (u64_trailing_zeros(x) >> 3) < 8 ==> le_byte(x, (u64_trailing_zeros(x) >> 3) as nat) != 0,
{
    axiom_u64_trailing_zeros(x);
    let t = u64_trailing_zeros(x) as u64;
    lemma_le64_word_bits(x, 0, 0, 0, 0, t);
    assert(u64_trailing_zeros(x) >> 3 == t >> 3u64);
    assert forall|i: nat| i < (u64_trailing_zeros(x) >> 3) implies #[trigger] le_byte(x, i) == 0 by {
        let s = (8 * i) as u64;
        assert(s + 8 <= t);
        assert((x >> s) & 1 == 0 && (x >> (s + 1) as u64) & 1 == 0 && (x >> (s + 2) as u64) & 1
            == 0 && (x >> (s + 3) as u64) & 1 == 0 && (x >> (s + 4) as u64) & 1 == 0 && (x >> (s
            + 5) as u64) & 1 == 0 && (x >> (s + 6) as u64) & 1 == 0 && (x >> (s + 7) as u64) & 1
            == 0);
        lemma_le64_word_bits(x, 0, 0, s, 0, t);
    }
    if (t >> 3u64) < 8 {
        let s = (8 * (t >> 3u64)) as u64;
        lemma_le64_word_bits(x, 0, 0, s, 0, t);
    }
}

/// Byte `i` of `a ^ b` is zero exactly when bytes `i` of `a` and `b` agree.
pub proof fn lemma_xor_byte(a: u64, b: u64, i: nat)
    requires
        i < 8,
    ensures
        (le_byte(a ^ b, i) == 0) <==> (le_byte(a, i) == le_byte(b, i)),
{
    let s = (8 * i) as u64;
    lemma_le64_word_bits(a, b, 0, s, 0, 0);
}

/// Bit-level facts about the bytes of 64-bit little-endian words.
proof fn lemma_le64_word_bits(x: u64, y: u64, b: u64, s: u64, f: u64, t: u64)
    by (bit_vector)
    ensures
        0u64 >> 0u64 == 0,
        b < 8 && f < 256 && y >> (8 * b) as u64 == 0 ==> ({
            let buffer = y | (f << (8 * b) as u64);
            (buffer >> (8 * b) as u64) & 0xff == f && (b < 7 ==> buffer >> (8 * (b + 1)) as u64 == 0)
        }),
        b < 8 && f < 256 && s + 8 <= 8 * b ==> ((y | (f << (8 * b) as u64)) >> s) & 0xff == (y >> s)
            & 0xff,
        b < 8 && y >> (8 * b) as u64 == 0 && 8 * b <= s && s < 64 ==> (y >> s) & 0xff == 0,
        t <= 64 ==> (t >> 3u64) <= 8 && (t >> 3u64) * 8 <= t,
        (t >> 3u64) < 8 ==> t < 64,
        s < 64 && (x >> s) & 1 == 0 && (x >> (s + 1) as u64) & 1 == 0 && (x >> (s + 2) as u64) & 1
            == 0 && (x >> (s + 3) as u64) & 1 == 0 && (x >> (s + 4) as u64) & 1 == 0 && (x >> (s
            + 5) as u64) & 1 == 0 && (x >> (s + 6) as u64) & 1 == 0 && (x >> (s + 7) as u64) & 1
            == 0 ==> ((x >> s) & 0xff) as u8 == 0,
        t < 64 && (x >> t) & 1 == 1 && s == 8 * (t >> 3u64) ==> ((x >> s) & 0xff) as u8 != 0,
        s <= 56 ==> ((((x ^ y) >> s) & 0xff == 0) <==> ((x >> s) & 0xff == (y >> s) & 0xff)),
        (((x ^ y) >> s) & 0xff) as u8 == 0 <==> ((x ^ y) >> s) & 0xff == 0,
        ((x >> s) & 0xff) as u8 == ((y >> s) & 0xff) as u8 <==> (x >> s) & 0xff == (y >> s) & 0xff,
{
}

/// First index of `byte` in `key`, if any.
pub open spec fn position(key: Seq<u8>, byte: u8) -> Option<nat>
    decreases key.len(),
{
    if key.len() == 0 {
        None
    } else if key[0] == byte {
        Some(0)
    } else {
        match position(key.drop_first(), byte) {
            Some(i) => Some(i + 1),
            None => None,
        }
    }
}

/// `position` finds the first occurrence, and `None` means none.
pub proof fn lemma_position(key: Seq<u8>, byte: u8)
    ensures
        match position(key, byte) {
            Some(i) => i < key.len() && key[i as int] == byte && forall|j: int|
                0 <= j < i ==> key[j] != byte,
            None => !key.contains(byte),
        },
    decreases key.len(),
{
    if key.len() > 0 && key[0] != byte {
        lemma_position(key.drop_first(), byte);
        match position(key.drop_first(), byte) {
            Some(i) => {
                assert forall|j: int| 0 <= j < i + 1 implies key[j] != byte by {
                    if j > 0 {
                        assert(key[j] == key.drop_first()[j - 1]);
                    }
                }
            },
            None => {
                if key.contains(byte) {
                    let j = choose|j: int| 0 <= j < key.len() && key[j] == byte;
                    assert(key.drop_first()[j - 1] == byte);
                }
            },
        }
    }
}

/// The first index of `byte` in `key`, if any.
pub fn find_position(key: &[u8], byte: u8) -> (r: Option<usize>)
    ensures
        r matches Some(i) ==> position(key@, byte) == Some(i as nat),
        r is None <==> position(key@, byte) is None,
{
    proof {
        lemma_position(key@, byte);
    }
    let mut i: usize = 0;
    while i < key.len()
        invariant
            i <= key@.len(),
            forall|j: int| 0 <= j < i ==> key@[j] != byte,
            match position(key@, byte) {
                Some(p) => p < key@.len() && key@[p as int] == byte && forall|j: int|
                    0 <= j < p ==> key@[j] != byte,
                None => !key@.contains(byte),
            },
        decreases key@.len() - i,
    {
        if key[i] == byte {
            return Some(i);
        }
        i = i + 1;
    }
    None
}


/// Marks the only types that can say whether a reader is terminated.
pub trait Seal {
}

impl Seal for () {
}

impl Seal for bool {
}

/// Whether a reader carries a logical terminator byte `0` after its slice.
///
/// `()` never does; `bool` records it.
pub trait Terminate: Seal + Sized {
    /// Whether this type can record a terminator at all.
    spec fn spec_can() -> bool;

    /// Whether the terminator is present.
    spec fn spec_get(self) -> bool;

    /// Record `terminate`, if this type can.
    fn new(terminate: bool) -> (r: Self)
        ensures
            r.spec_get() == (terminate && Self::spec_can()),
    ;

    /// Whether the terminator is present.
    fn get(&self) -> (r: bool)
        ensures
            r == self.spec_get(),
            r ==> Self::spec_can(),
    ;

    /// Number of bytes that a compressed edge ending in `byte` may keep: a
    /// terminating byte `0` is not stored in an edge.
    fn try_compress(byte: u8) -> (r: usize)
        ensures
            r == (if Self::spec_can() && byte == 0 {
                0usize
            } else {
                1usize
            }),
    ;

    /// The key bytes of `slice` without its terminator, if this type
    /// records one.
    fn trim(slice: &[u8]) -> (r: &[u8])
        requires
            Self::spec_can() ==> slice@.len() > 0,
        ensures
            r@ == (if Self::spec_can() {
                slice@.drop_last()
            } else {
                slice@
            }),
    ;
}

impl Terminate for () {
    open spec fn spec_can() -> bool {
        false
    }

    open spec fn spec_get(self) -> bool {
        false
    }

    fn new(terminate: bool) -> (r: Self) {
    }

    fn get(&self) -> (r: bool) {
        false
    }

    fn try_compress(byte: u8) -> (r: usize) {
        1
    }

    fn trim(slice: &[u8]) -> (r: &[u8]) {
        slice
    }
}

impl Terminate for bool {
    open spec fn spec_can() -> bool {
        true
    }

    open spec fn spec_get(self) -> bool {
        self
    }

    fn new(terminate: bool) -> (r: Self) {
        terminate
    }

    fn get(&self) -> (r: bool) {
        *self
    }

    fn try_compress(byte: u8) -> (r: usize) {
        if byte > 0 {
            1
        } else {
            0
        }
    }

    fn trim(slice: &[u8]) -> (r: &[u8]) {
        let (rest, _last) = slice.split_at(slice.len() - 1);
        rest
    }
}


/// A property of byte strings that is enough for the prefix property: of
/// two distinct keys that have it, neither is a prefix of the other (once
/// the invariant's terminator, if any, is appended).
pub trait Invariant {
    /// Why a key does not have the property.
    type Error;

    /// How readers of such keys record a terminator.
    type Terminate: Terminate;

    /// The outcome of validating `key`.
    spec fn spec_validate(key: Seq<u8>) -> Result<(), Self::Error>;

    /// `Ok(())` if and only if `key` has the property.
    fn validate(key: &[u8]) -> (r: Result<(), Self::Error>)
        ensures
            r == Self::spec_validate(key@),
    ;
}

/// Keys without null bytes: a null terminator appended to each keeps the
/// prefix property and the order of keys.
#[derive(Clone, Copy, Debug, PartialEq, Eq, Structural)]
pub struct NonNull;

/// Index at which a null byte was found in a key.
#[derive(Clone, Copy, Debug, PartialEq, Eq, Structural)]
pub struct NonNullError {
    /// Index of the first null byte.
    pub index: usize,
}

impl Invariant for NonNull {
    type Error = NonNullError;

    type Terminate = bool;

    open spec fn spec_validate(key: Seq<u8>) -> Result<(), NonNullError> {
        match position(key, 0) {
            Some(i) => Err(NonNullError { index: i as usize }),
            None => Ok(()),
        }
    }

    fn validate(key: &[u8]) -> (r: Result<(), NonNullError>) {
        match find_position(key, 0) {
            Some(index) => Err(NonNullError { index }),
            None => Ok(()),
        }
    }
}

/// Keys that hold the byte `TERMINATOR` exactly once, at the end: no such
/// key is a prefix of another.
#[derive(Clone, Copy, Debug)]
pub struct Terminated<const TERMINATOR: u8>;

/// Why a key does not end with its only terminator byte.
#[derive(Clone, Copy, Debug, PartialEq, Eq, Structural)]
pub enum TerminatedError {
    /// The terminator byte is missing.
    Missing,
    /// The terminator byte occurs before the end of the key, first at this
    /// index.
    Internal(usize),
}

impl<const TERMINATOR: u8> Invariant for Terminated<TERMINATOR> {
    type Error = TerminatedError;

    type Terminate = ();

    open spec fn spec_validate(key: Seq<u8>) -> Result<(), TerminatedError> {
        match position(key, TERMINATOR) {
            None => Err(TerminatedError::Missing),
            Some(i) => if i + 1 < key.len() {
                Err(TerminatedError::Internal(i as usize))
            } else {
                Ok(())
            },
        }
    }

    fn validate(key: &[u8]) -> (r: Result<(), TerminatedError>) {
        match find_position(key, TERMINATOR) {
            None => Err(TerminatedError::Missing),
            Some(index) => if index < key.len() - 1 {
                Err(TerminatedError::Internal(index))
            } else {
                Ok(())
            },
        }
    }
}

/// Of two keys without null bytes, each with a null terminator appended,
/// neither is a proper prefix of the other.
pub proof fn law_non_null_prefix_free(a: Seq<u8>, b: Seq<u8>, n: int)
    requires
        NonNull::spec_validate(a) is Ok,
        NonNull::spec_validate(b) is Ok,
        0 <= n <= b.len() + 1,
        a.push(0) == b.push(0).take(n),
    ensures
        a == b,
{
    lemma_position(a, 0);
    lemma_position(b, 0);
    let ta = a.push(0);
    let tb = b.push(0);
    assert(ta.len() == n);
    if n <= b.len() {
        assert(ta[n - 1] == 0);
        assert(tb[n - 1] == b[n - 1]);
        assert(b.contains(0));
    } else {
        assert(a.len() == b.len());
        assert forall|i: int| 0 <= i < a.len() implies a[i] == b[i] by {
            assert(ta[i] == tb[i]);
        }
        assert(a =~= b);
    }
}

/// Of two keys that each hold the terminator exactly once, at the end,
/// neither is a proper prefix of the other.
pub proof fn law_terminated_prefix_free<const TERMINATOR: u8>(a: Seq<u8>, b: Seq<u8>, n: int)
    requires
        Terminated::<TERMINATOR>::spec_validate(a) is Ok,
        Terminated::<TERMINATOR>::spec_validate(b) is Ok,
        0 <= n <= b.len(),
        a == b.take(n),
    ensures
        a == b,
{
    lemma_position(a, TERMINATOR);
    lemma_position(b, TERMINATOR);
    let i = position(a, TERMINATOR)->0;
    let j = position(b, TERMINATOR)->0;
    assert(i + 1 == a.len());
    assert(j + 1 == b.len());
    assert(a[i as int] == b[i as int]);
    if i < j {
        assert(b[i as int] == TERMINATOR);
    }
    assert(a.len() == b.len());
    assert(a =~= b);
}

} // verus!
