//! The header of a node that holds at most 3 key-edge pairs, packed in a word.
//!
//! Layout:
//! - bits 0..8, 16..24, 32..40: key bytes of slots 0, 1 and 2
//! - bits 8..16, 24..32, 40..48: zero
//! - bit 48: frozen flag
//! - bits 49..56: zero
//! - bits 56..59: number of slots in use
//! - bits 59..64: zero

use vstd::arithmetic::power2::lemma2_to64;
use vstd::bits::lemma_u8_shl_is_mul;
use vstd::bits::lemma_u8_shr_is_div;
use vstd::prelude::*;

use crate::node::get_or_insert_spec;
use crate::node::get_spec;
use crate::node::header_wf;
use crate::node::is_max_entry;
use crate::node::is_min_entry;
use crate::node::lemma_max_of_keys;
use crate::node::lemma_min_of_keys;
use crate::node::max_entry;
use crate::node::min_entry;
use crate::node::keys_spec;
use crate::node::HeaderView;
use crate::node::KeyIndex;
use crate::raw::find_zero;
use crate::raw::first_zero_byte;
use crate::raw::first_zero_byte_from;
use crate::raw::le_byte;
use crate::raw::lemma_le_bytes;

verus! {

/// Capacity of the header.
pub const NODE3_CAPACITY: u8 = 3;

/// Key byte of slot `j` of the word `raw`.
pub open spec fn h3_slot(raw: u64, j: nat) -> u8 {
    le_byte(raw, 2 * j)
}

/// Number of slots in use.
pub open spec fn h3_len(raw: u64) -> nat {
    (raw >> 56u64) as nat
}

/// What the word `raw` means.
pub open spec fn h3_view(raw: u64) -> HeaderView {
    HeaderView {
        keys: Seq::new(h3_len(raw), |j: int| h3_slot(raw, j as nat)),
        frozen: (raw >> 48u64) & 1 == 1,
    }
}

/// Whether `raw` is a well-formed header word: padding is zero, unused
/// slots are zero, and the key bytes in use are distinct.
pub open spec fn h3_wf(raw: u64) -> bool {
    &&& raw >> 56u64 <= 3
    &&& raw & 0x00FE_FF00_FF00_FF00 == 0
    &&& (raw & 0x0000_00FF_00FF_00FF) >> (16 * (raw >> 56u64)) as u64 == 0
    &&& h3_view(raw).keys.no_duplicates()
}

/// Bit-level facts about one header word `raw`.
proof fn lemma_h3_word_bits(raw: u64, keys: u64, l: u64, s: u64, key: u8)
    by (bit_vector)
    ensures
        (((raw >> s) & 0xff) as u8 == key) <==> ((raw >> s) & 0xff == key as u64),
        ((raw >> s) as u8) == (((raw >> s) & 0xff) as u8),
        0u64 >> 56u64 == 0 && 0u64 & 0x00FE_FF00_FF00_FF00 == 0 && (0u64 & 0x0000_00FF_00FF_00FF)
            >> 0u64 == 0 && (0u64 >> 48u64) & 1 != 1,
        l <= 3 && keys >> (16 * l) as u64 == 0 && keys & 0x0000_FF00_FF00_FF00 == 0 ==> ({
            let r = keys | (l << 56u64);
            r >> 56u64 <= 3 && r & 0x00FE_FF00_FF00_FF00 == 0 && (r & 0x0000_00FF_00FF_00FF) >> (16
                * (r >> 56u64)) as u64 == 0 && (r >> 48u64) & 1 != 1
        }),
        (raw & 0x0001_0000_0000_0000 > 0) == ((raw >> 48u64) & 1 == 1),
        ({
            let new = raw | 0x0001_0000_0000_0000;
            new >> 56u64 == raw >> 56u64 && new & 0x00FE_FF00_FF00_FF00 == raw
                & 0x00FE_FF00_FF00_FF00 && new & 0x0000_00FF_00FF_00FF == raw & 0x0000_00FF_00FF_00FF
                && (new >> 48u64) & 1 == 1 && (new >> 0u64) & 0xff == (raw >> 0u64) & 0xff && (new
                >> 16u64) & 0xff == (raw >> 16u64) & 0xff && (new >> 32u64) & 0xff == (raw >> 32u64)
                & 0xff
        }),
{
}

/// Bit-level facts about searching, extending and building a header word.
#[verifier::rlimit(100)]
proof fn lemma_h3_update_bits(raw: u64, k: u64, l: u64, a: u64, b: u64, c: u64)
    by (bit_vector)
    ensures
        k < 256 ==> ({
            let x = (raw ^ (k | (k << 16u64) | (k << 32u64))) | 0x0000_FF00_FF00_FF00;
            ((x >> 0u64) & 0xff == 0) == ((raw >> 0u64) & 0xff == k) && (x >> 8u64) & 0xff != 0 && ((x
                >> 16u64) & 0xff == 0) == ((raw >> 16u64) & 0xff == k) && (x >> 24u64) & 0xff != 0 && ((
            x >> 32u64) & 0xff == 0) == ((raw >> 32u64) & 0xff == k) && (x >> 40u64) & 0xff != 0
        }),
        l <= 2 && k < 256 && raw >> 56u64 == l ==> (raw | (k << (16 * l) as u64)) >> 56u64 == l,
        (raw | a) >> 56u64 <= 2 ==> (raw | a) < 0x0300_0000_0000_0000,
        l <= 2 && k < 256 && raw >> 56u64 == l && raw & 0x00FE_FF00_FF00_FF00 == 0 && (raw
            & 0x0000_00FF_00FF_00FF) >> (16 * l) as u64 == 0 ==> ({
            let value = ((raw | (k << (16 * l) as u64)) + 0x0100_0000_0000_0000) as u64;
            value >> 56u64 == l + 1 && value & 0x00FE_FF00_FF00_FF00 == 0 && (value
                & 0x0000_00FF_00FF_00FF) >> (16 * (l + 1)) as u64 == 0 && (value >> 48u64) & 1 == (
            raw >> 48u64) & 1 && (value >> (16 * l) as u64) & 0xff == k && (l != 0 ==> (value
                >> 0u64) & 0xff == (raw >> 0u64) & 0xff) && (l != 1 ==> (value >> 16u64) & 0xff == (
            raw >> 16u64) & 0xff) && (l != 2 ==> (value >> 32u64) & 0xff == (raw >> 32u64) & 0xff)
        }),
        l <= 3 && a < 256 && b < 256 && c < 256 && (l < 1 ==> a == 0) && (l < 2 ==> b == 0) && (l
            < 3 ==> c == 0) ==> ({
            let buffer = a | (b << 16u64) | (c << 32u64);
            buffer >> (16 * l) as u64 == 0 && buffer & 0x0000_FF00_FF00_FF00 == 0
        }),
        l <= 3 && a < 256 && b < 256 && c < 256 ==> ({
            let raw = (a | (b << 16u64) | (c << 32u64)) | (l << 56u64);
            raw >> 56u64 == l && (raw >> 0u64) & 0xff == a && (raw >> 16u64) & 0xff == b && (raw
                >> 32u64) & 0xff == c
        }),
{
}

proof fn lemma_byte_eq(raw: u64, s: u64, key: u8)
    ensures
        (((raw >> s) & 0xff) as u8 == key) <==> ((raw >> s) & 0xff == key as u64),
{
    lemma_h3_word_bits(raw, 0, 0, s, key);
}

/// Header value of a node with at most 3 key-edge pairs.
#[derive(Clone, Copy, Debug)]
pub struct Header3 {
    raw: u64,
}

impl View for Header3 {
    type V = HeaderView;

    closed spec fn view(&self) -> HeaderView {
        h3_view(self.raw)
    }
}

impl Header3 {
    #[verifier::type_invariant]
    closed spec fn inv(self) -> bool {
        h3_wf(self.raw)
    }

    /// The empty header: no slots in use, not frozen.
    pub fn empty() -> (r: Self)
        ensures
            r@.keys.len() == 0,
            !r@.frozen,
    {
        proof {
            lemma_h3_word_bits(0, 0, 0, 0, 0);
        }
        assert(h3_view(0).keys =~= Seq::<u8>::empty());
        Header3 { raw: 0 }
    }

    /// A header holding `len` key bytes packed in `keys` (slot `j` in bits
    /// `16 * j..16 * j + 8`), not frozen.
    pub fn new(keys: u64, len: u8) -> (r: Self)
        requires
            len <= 3,
            keys >> (16 * len) as u64 == 0,
            keys & 0x0000_FF00_FF00_FF00 == 0,
            h3_view(keys | ((len as u64) << 56u64)).keys.no_duplicates(),
        ensures
            r@ == h3_view(keys | ((len as u64) << 56u64)),
            !r@.frozen,
    {
        let raw = keys | ((len as u64) << 56);
        proof {
            let l = len as u64;
            lemma_h3_word_bits(0, keys, l, 0, 0);
        }
        Header3 { raw }
    }

    /// Whether the header is frozen.
    pub fn is_frozen(self) -> (r: bool)
        ensures
            r == self@.frozen,
    {
        let raw = self.raw;
        proof {
            lemma_h3_word_bits(raw, 0, 0, 0, 0);
        }
        raw & 0x0001_0000_0000_0000 > 0
    }

    /// The same header with the frozen flag set.
    pub fn freeze(self) -> (r: Self)
        ensures
            r@ == (HeaderView { frozen: true, ..self@ }),
    {
        proof {
            use_type_invariant(&self);
        }
        let raw = self.raw;
        let new = raw | 0x0001_0000_0000_0000;
        proof {
            lemma_h3_word_bits(raw, 0, 0, 0, 0);
            assert(h3_view(new).keys =~= h3_view(raw).keys);
        }
        Header3 { raw: new }
    }

    /// Number of slots in use.
    pub fn len(self) -> (r: u8)
        ensures
            r == self@.keys.len(),
            r <= 3,
    {
        proof {
            use_type_invariant(&self);
        }
        (self.raw >> 56) as u8
    }

    /// The first slot whose key byte is `key`, counting unused slots (which
    /// hold zero); a result of at least `len` means `key` is absent.
    pub fn get(self, key: u8) -> (r: u8)
        ensures
            (r < self@.keys.len()) <==> self@.keys.contains(key),
            r < self@.keys.len() ==> self@.keys[r as int] == key,
    {
        proof {
            use_type_invariant(&self);
        }
        let raw = self.raw;
        let k = key as u64;
        let broadcast = k | (k << 16) | (k << 32);
        let x = (raw ^ broadcast) | 0x0000_FF00_FF00_FF00;
        let zero = find_zero(x);
        proof {
            reveal_with_fuel(first_zero_byte_from, 9);
            lemma_le_bytes(x);
            lemma_byte_eq(raw, 0, key);
            lemma_byte_eq(raw, 16, key);
            lemma_byte_eq(raw, 32, key);
            lemma_h3_update_bits(raw, k, 0, 0, 0, 0);
            let v = h3_view(raw);
            assert(h3_slot(raw, 0) == le_byte(raw, 0));
            assert(h3_slot(raw, 1) == le_byte(raw, 2));
            assert(h3_slot(raw, 2) == le_byte(raw, 4));
            let f = first_zero_byte(x);
            assert(f == zero);
            assert(f != 1 && f != 3 && f != 5);
            if f == 0 {
                assert(h3_slot(raw, 0) == key);
            } else if f == 2 {
                assert(h3_slot(raw, 1) == key);
            } else if f == 4 {
                assert(h3_slot(raw, 2) == key);
            } else {
                assert(f >= 6);
            }
            if f / 2 < v.keys.len() {
                assert(v.keys[(f / 2) as int] == h3_slot(raw, f / 2));
                assert(v.keys[(f / 2) as int] == key);
            }
            if v.keys.contains(key) {
                let j = choose|j: int| 0 <= j < v.keys.len() && v.keys[j] == key;
                assert(v.keys[j] == h3_slot(raw, j as nat));
                if j == 0 {
                    assert(h3_slot(raw, 0) == key);
                    assert(f == 0);
                } else if j == 1 {
                    assert(h3_slot(raw, 1) == key);
                    assert(f <= 2);
                } else {
                    assert(h3_slot(raw, 2) == key);
                    assert(f <= 4);
                }
            }
        }
        proof {
            lemma_u8_shr_is_div(zero, 1);
            lemma2_to64();
        }
        zero >> 1
    }

    /// Look up `key`, or insert it into the next slot: `Ok(slot)` if present,
    /// `Err(Some(header))` with the new header if it can be inserted, and
    /// `Err(None)` if the header is full or frozen.
    pub fn get_or_insert(self, key: u8) -> (r: Result<u8, Option<Self>>)
        ensures
            ({
                let (index, view) = get_or_insert_spec(self@, 3, key);
                match r {
                    Ok(i) => self@.keys.contains(key) && index == Some(i),
                    Err(None) => index is None,
                    Err(Some(new)) => !self@.keys.contains(key) && index == Some(
                        self@.keys.len() as u8,
                    ) && new@ == view,
                }
            }),
    {
        proof {
            use_type_invariant(&self);
        }
        let index = self.get(key);
        let len = self.len();
        if index < len {
            proof {
                crate::node::lemma_get_present(self@, 3, index as int);
            }
            return Ok(index);
        }
        if len >= NODE3_CAPACITY || self.is_frozen() {
            return Err(None);
        }
        let raw = self.raw;
        proof {
            lemma2_to64();
            lemma_u8_shl_is_mul(len, 4);
        }
        let shift = len << 4;
        let k = (key as u64) << shift;
        proof {
            let l = len as u64;
            let kk = key as u64;
            lemma_h3_update_bits(raw, kk, l, k, 0, 0);
        }
        let value = (raw | k) + 0x0100_0000_0000_0000;
        proof {
            let l = len as u64;
            let kk = key as u64;
            lemma_h3_update_bits(raw, kk, l, 0, 0, 0);
            let old_keys = h3_view(raw).keys;
            let new_keys = h3_view(value).keys;
            lemma_byte_eq(value, (16 * l) as u64, key);
            assert forall|j: int| 0 <= j < old_keys.len() implies new_keys[j] == old_keys[j] by {
                lemma_byte_eq(value, (16 * j) as u64, old_keys[j]);
                lemma_byte_eq(raw, (16 * j) as u64, old_keys[j]);
            }
            assert(new_keys[l as int] == key);
            assert(new_keys =~= old_keys.push(key));
            assert forall|a: int, b: int|
                0 <= a < new_keys.len() && 0 <= b < new_keys.len() && a != b implies #[trigger] new_keys[a]
                != #[trigger] new_keys[b] by {
                if a == l as int {
                    assert(!old_keys.contains(key));
                    assert(old_keys[b] == new_keys[b]);
                } else if b == l as int {
                    assert(!old_keys.contains(key));
                    assert(old_keys[a] == new_keys[a]);
                } else {
                    assert(old_keys[a] == new_keys[a]);
                    assert(old_keys[b] == new_keys[b]);
                }
            }
        }
        Err(Some(Header3 { raw: value }))
    }

    /// The packed word.
    pub fn into_raw(self) -> (r: u64)
        ensures
            h3_view(r) == self@,
    {
        self.raw
    }
}

/// Slots of `keys` (in slot order) whose key bytes lie in `lower..=upper`.
pub fn iter_3(header: Header3, lower: u8, upper: u8) -> (r: Vec<KeyIndex>)
    ensures
        r@ == keys_spec(header@, lower, upper),
{
    let len = header.len();
    let raw = header.into_raw();
    let mut out: Vec<KeyIndex> = Vec::new();
    let mut i: u8 = 0;
    while i < len
        invariant
            i <= len,
            len == header@.keys.len(),
            len <= 3,
            h3_view(raw) == header@,
            out@ == keys_spec(HeaderView { keys: header@.keys.take(i as int), ..header@ }, lower, upper),
        decreases len - i,
    {
        let key = (raw >> (16 * i as u64)) as u8;
        proof {
            let s = (16 * i) as u64;
            lemma_h3_word_bits(raw, 0, 0, s, 0);
            assert(header@.keys[i as int] == key);
            let next = HeaderView { keys: header@.keys.take(i + 1), ..header@ };
            assert(next.keys.drop_last() =~= header@.keys.take(i as int));
        }
        if lower <= key && key <= upper {
            out.push(KeyIndex { key, index: i });
        }
        i = i + 1;
    }
    proof {
        assert(header@.keys.take(len as int) =~= header@.keys);
    }
    out
}

/// Header of a node with at most 3 key-edge pairs, as shared by the tree.
pub struct Node3Header {
    header: Header3,
}

impl View for Node3Header {
    type V = HeaderView;

    closed spec fn view(&self) -> HeaderView {
        self.header@
    }
}

impl Node3Header {
    /// A header holding `keys` in slot order, which must be distinct.
    pub fn new_unchecked(keys: &[u8]) -> (r: Self)
        requires
            keys@.len() <= 3,
            keys@.no_duplicates(),
        ensures
            r@ == (HeaderView { keys: keys@, frozen: false }),
            header_wf(r@, 3),
    {
        let n = keys.len();
        let a: u64 = if n > 0 { keys[0] as u64 } else { 0 };
        let b: u64 = if n > 1 { keys[1] as u64 } else { 0 };
        let c: u64 = if n > 2 { keys[2] as u64 } else { 0 };
        let buffer = a | (b << 16) | (c << 32);
        proof {
            let l = n as u64;
            lemma_h3_update_bits(0, 0, l, a, b, c);
            let raw = buffer | (l << 56u64);
            lemma_byte_eq(raw, 0, a as u8);
            lemma_byte_eq(raw, 16, b as u8);
            lemma_byte_eq(raw, 32, c as u8);
            assert(h3_view(raw).keys =~= keys@);
        }
        Node3Header { header: Header3::new(buffer, n as u8) }
    }

    /// Freeze the header; returns the number of slots in use.
    pub fn freeze(&mut self) -> (r: usize)
        ensures
            final(self)@ == (HeaderView { frozen: true, ..old(self)@ }),
            r == old(self)@.keys.len(),
            header_wf(final(self)@, 3),
    {
        let header = self.header;
        if !header.is_frozen() {
            self.header = header.freeze();
        } else {
            proof {
                assert(header@ == HeaderView { frozen: true, ..header@ });
            }
        }
        proof {
            use_type_invariant(&self.header);
        }
        header.len() as usize
    }

    /// The slot holding `key`, if any.
    pub fn get(&self, key: u8) -> (r: Option<u8>)
        ensures
            r == get_spec(self@, key),
    {
        proof {
            use_type_invariant(&self.header);
        }
        let header = self.header;
        let index = header.get(key);
        if index < header.len() {
            proof {
                crate::node::lemma_get_present(self@, 3, index as int);
            }
            Some(index)
        } else {
            None
        }
    }

    /// Look up `key`, inserting it into the next slot if it is absent and
    /// the header is neither full nor frozen.
    pub fn get_or_insert(&mut self, key: u8) -> (r: Option<u8>)
        ensures
            (r, final(self)@) == get_or_insert_spec(old(self)@, 3, key),
            header_wf(final(self)@, 3),
    {
        proof {
            use_type_invariant(&self.header);
        }
        let old = self.header;
        match old.get_or_insert(key) {
            Ok(index) => Some(index),
            Err(None) => None,
            Err(Some(new)) => {
                proof {
                    use_type_invariant(&new);
                }
                self.header = new;
                Some(old.len())
            },
        }
    }

    /// Slots whose key bytes lie in `lower..=upper`, in slot order.
    pub fn keys(&self, lower: u8, upper: u8) -> (r: Vec<KeyIndex>)
        ensures
            r@ == keys_spec(self@, lower, upper),
    {
        iter_3(self.header, lower, upper)
    }

    /// The entry with the least key byte at or above `lower`, if any.
    pub fn min(&self, lower: u8) -> (r: Option<KeyIndex>)
        ensures
            is_min_entry(self@, lower, r),
    {
        proof {
            use_type_invariant(&self.header);
        }
        let entries = self.keys(lower, 255);
        let r = min_entry(&entries);
        proof {
            lemma_min_of_keys(self@, lower, r);
        }
        r
    }

    /// The entry with the greatest key byte at or below `upper`, if any.
    pub fn max(&self, upper: u8) -> (r: Option<KeyIndex>)
        ensures
            is_max_entry(self@, upper, r),
    {
        proof {
            use_type_invariant(&self.header);
        }
        let entries = self.keys(0, upper);
        let r = max_entry(&entries);
        proof {
            lemma_max_of_keys(self@, upper, r);
        }
        r
    }

    /// Number of slots in use.
    pub fn len(&self) -> (r: usize)
        ensures
            r == self@.keys.len(),
    {
        self.header.len() as usize
    }

    /// Whether the header is frozen.
    pub fn is_frozen(&self) -> (r: bool)
        ensures
            r == self@.frozen,
    {
        self.header.is_frozen()
    }
}

} // verus!
