//! The header of a node that holds at most 15 key-edge pairs, packed in a
//! 128-bit word.
//!
//! Layout:
//! - bits 0..120: key bytes of slots 0 to 14 (slot `j` in bits `8 * j..8 * j + 8`)
//! - bit 120: frozen flag
//! - bits 121..125: number of slots in use
//! - bits 125..128: zero

use vstd::arithmetic::power2::lemma2_to64;
use vstd::bits::lemma_u32_shl_is_mul;
use vstd::prelude::*;

use crate::node::get_or_insert_spec;
use crate::node::get_spec;
use crate::node::header_wf;
use crate::node::is_max_entry;
use crate::node::is_min_entry;
use crate::node::lemma_max_of_keys;
use crate::node::lemma_min_of_keys;
use crate::node::max_entry;
use crate::node::min_entry;
use crate::node::keys_spec;
use crate::node::HeaderView;
use crate::node::KeyIndex;

verus! {

/// Capacity of the header.
pub const NODE15_CAPACITY: u8 = 15;

/// Key byte of slot `j` of the word `raw`.
pub open spec fn h15_slot(raw: u128, j: nat) -> u8 {
    ((raw >> (8 * j) as u128) & 0xff) as u8
}

/// Number of slots in use.
pub open spec fn h15_len(raw: u128) -> nat {
    (raw >> 121u128) as nat
}

/// What the word `raw` means.
pub open spec fn h15_view(raw: u128) -> HeaderView {
    HeaderView {
        keys: Seq::new(h15_len(raw), |j: int| h15_slot(raw, j as nat)),
        frozen: (raw >> 120u128) & 1 == 1,
    }
}

/// Whether `raw` is a well-formed header word: the length fits, unused
/// slots are zero, and the key bytes in use are distinct.
pub open spec fn h15_wf(raw: u128) -> bool {
    &&& raw >> 121u128 <= 15
    &&& (raw & 0x00FF_FFFF_FFFF_FFFF_FFFF_FFFF_FFFF_FFFF) >> (8 * (raw >> 121u128)) as u128 == 0
    &&& h15_view(raw).keys.no_duplicates()
}

/// Bit-level facts about one header word `raw`.
proof fn lemma_h15_word_bits(raw: u128, keys: u128, l: u128, s: u128, t: u32, key: u8)
    by (bit_vector)
    ensures
        (((raw >> s) & 0xff) as u8 == key) <==> ((raw >> s) & 0xff == key as u128),
        ((raw >> t) as u8) == (((raw >> t) & 0xff) as u8) && (raw >> t) == (raw >> (t as u128)),
        0u128 >> 0u128 == 0,
        0u128 >> 121u128 == 0 && (0u128 & 0x00FF_FFFF_FFFF_FFFF_FFFF_FFFF_FFFF_FFFF) >> 0u128 == 0 && (0u128 >> 120u128) & 1 != 1,
        l <= 15 && keys >> (8 * l) as u128 == 0 ==> ({
            let r = keys | (l << 121u128);
            r >> 121u128 == l && (r & 0x00FF_FFFF_FFFF_FFFF_FFFF_FFFF_FFFF_FFFF) >> (8 * (r >> 121u128)) as u128 == 0 && (r >> 120u128) & 1
                != 1
        }),
        l <= 15 && s <= 112 ==> ((keys | (l << 121u128)) >> s) & 0xff == (keys >> s) & 0xff,
        (raw & 0x0100_0000_0000_0000_0000_0000_0000_0000 > 0) == ((raw >> 120u128) & 1 == 1),
        ({
            let new = raw | 0x0100_0000_0000_0000_0000_0000_0000_0000;
            new >> 121u128 == raw >> 121u128 && new & 0x00FF_FFFF_FFFF_FFFF_FFFF_FFFF_FFFF_FFFF == raw & 0x00FF_FFFF_FFFF_FFFF_FFFF_FFFF_FFFF_FFFF && (new >> 120u128) & 1 == 1
        }),
        s <= 112 ==> ((raw | 0x0100_0000_0000_0000_0000_0000_0000_0000) >> s) & 0xff == (raw >> s) & 0xff,
{
}

/// Bit-level facts about extending a header word `raw` with the key `k`
/// in slot `l`, and about building the key bytes of a header in `old`.
#[verifier::rlimit(100)]
proof fn lemma_h15_update_bits(raw: u128, old: u128, k: u128, l: u128, s: u128, t: u32)
    by (bit_vector)
    ensures
        k << t == k << (t as u128),
        (raw | k) >> 121u128 <= 14 ==> (raw | k) < 0x1E00_0000_0000_0000_0000_0000_0000_0000,
        l <= 14 && k < 256 && raw >> 121u128 == l ==> (raw | (k << (8 * l) as u128)) >> 121u128 == l,
        l <= 14 && k < 256 && raw >> 121u128 == l && (raw & 0x00FF_FFFF_FFFF_FFFF_FFFF_FFFF_FFFF_FFFF) >> (8 * l) as u128 == 0 ==> ({
            let value = ((raw | (k << (8 * l) as u128)) + 0x0200_0000_0000_0000_0000_0000_0000_0000)
                as u128;
            value >> 121u128 == l + 1 && (value & 0x00FF_FFFF_FFFF_FFFF_FFFF_FFFF_FFFF_FFFF) >> (8 * (l + 1)) as u128 == 0 && (value
                >> 120u128) & 1 == (raw >> 120u128) & 1 && (value >> (8 * l) as u128) & 0xff == k
        }),
        l <= 14 && k < 256 && s + 8 <= 8 * l && raw >> 121u128 == l ==> ((((raw | (k << (8 * l)
            as u128)) + 0x0200_0000_0000_0000_0000_0000_0000_0000) as u128) >> s) & 0xff == (raw
            >> s) & 0xff,
        l < 15 && k < 256 && old >> (8 * l) as u128 == 0 ==> ({
            let buffer = old | (k << (8 * l) as u128);
            buffer >> (8 * (l + 1)) as u128 == 0 && (buffer >> (8 * l) as u128) & 0xff == k
        }),
        l < 15 && k < 256 && s + 8 <= 8 * l ==> ((old | (k << (8 * l) as u128)) >> s) & 0xff == (old
            >> s) & 0xff,
{
}

proof fn lemma_slot_eq(raw: u128, s: u128, key: u8)
    ensures
        (((raw >> s) & 0xff) as u8 == key) <==> ((raw >> s) & 0xff == key as u128),
{
    lemma_h15_word_bits(raw, 0, 0, s, 0, key);
}

/// Header value of a node with at most 15 key-edge pairs.
#[derive(Clone, Copy, Debug)]
pub struct Header15 {
    raw: u128,
}

impl View for Header15 {
    type V = HeaderView;

    closed spec fn view(&self) -> HeaderView {
        h15_view(self.raw)
    }
}

impl Header15 {
    #[verifier::type_invariant]
    closed spec fn inv(self) -> bool {
        h15_wf(self.raw)
    }

    /// The empty header: no slots in use, not frozen.
    pub fn empty() -> (r: Self)
        ensures
            r@.keys.len() == 0,
            !r@.frozen,
    {
        proof {
            lemma_h15_word_bits(0, 0, 0, 0, 0, 0);
        }
        assert(h15_view(0).keys =~= Seq::<u8>::empty());
        Header15 { raw: 0 }
    }

    /// A header holding `len` key bytes packed in `keys` (slot `j` in bits
    /// `8 * j..8 * j + 8`), not frozen.
    pub fn new(keys: u128, len: u8) -> (r: Self)
        requires
            len <= 15,
            keys >> (8 * len) as u128 == 0,
            h15_view(keys | ((len as u128) << 121u128)).keys.no_duplicates(),
        ensures
            r@ == h15_view(keys | ((len as u128) << 121u128)),
            !r@.frozen,
    {
        let raw = keys | ((len as u128) << 121);
        proof {
            let l = len as u128;
            lemma_h15_word_bits(0, keys, l, 0, 0, 0);
        }
        Header15 { raw }
    }

    /// Whether the header is frozen.
    pub fn is_frozen(self) -> (r: bool)
        ensures
            r == self@.frozen,
    {
        let raw = self.raw;
        proof {
            lemma_h15_word_bits(raw, 0, 0, 0, 0, 0);
        }
        raw & 0x0100_0000_0000_0000_0000_0000_0000_0000 > 0
    }

    /// The same header with the frozen flag set.
    pub fn freeze(self) -> (r: Self)
        ensures
            r@ == (HeaderView { frozen: true, ..self@ }),
    {
        proof {
            use_type_invariant(&self);
        }
        let raw = self.raw;
        let new = raw | 0x0100_0000_0000_0000_0000_0000_0000_0000;
        proof {
            lemma_h15_word_bits(raw, 0, 0, 0, 0, 0);
            assert forall|j: nat| j < h15_len(raw) implies #[trigger] h15_slot(new, j) == h15_slot(
                raw,
                j,
            ) by {
                let s = (8 * j) as u128;
                assert(s <= 112);
                lemma_h15_word_bits(raw, 0, 0, s, 0, 0);
            }
            assert(h15_view(new).keys =~= h15_view(raw).keys);
        }
        Header15 { raw: new }
    }

    /// Number of slots in use.
    pub fn len(self) -> (r: u8)
        ensures
            r == self@.keys.len(),
            r <= 15,
    {
        proof {
            use_type_invariant(&self);
        }
        (self.raw >> 121) as u8
    }

    /// Key byte of slot `i`.
    fn slot(self, i: u8) -> (r: u8)
        requires
            i < 16,
        ensures
            r == h15_slot(self.raw, i as nat),
    {
        let s = (i as u32) * 8;
        let r = (self.raw >> s) as u8;
        proof {
            let raw = self.raw;
            lemma_h15_word_bits(raw, 0, 0, 0, s, 0);
            assert(s as u128 == (8 * i) as u128);
        }
        r
    }

    /// The slot holding `key`, if any.
    pub fn get(self, key: u8) -> (r: Option<u8>)
        ensures
            r == get_spec(self@, key),
    {
        proof {
            use_type_invariant(&self);
        }
        let len = self.len();
        let mut i: u8 = 0;
        while i < len
            invariant
                i <= len,
                len == self@.keys.len(),
                len <= 15,
                h15_wf(self.raw),
                forall|j: int| 0 <= j < i ==> self@.keys[j] != key,
            decreases len - i,
        {
            let k = self.slot(i);
            if k == key {
                proof {
                    crate::node::lemma_get_present(self@, 15, i as int);
                }
                return Some(i);
            }
            i = i + 1;
        }
        None
    }

    /// Look up `key`, or insert it into the next slot: `Ok(slot)` if present,
    /// `Err(Some(header))` with the new header if it can be inserted, and
    /// `Err(None)` if the header is full or frozen.
    pub fn get_or_insert(self, key: u8) -> (r: Result<u8, Option<Self>>)
        ensures
            ({
                let (index, view) = get_or_insert_spec(self@, 15, key);
                match r {
                    Ok(i) => self@.keys.contains(key) && index == Some(i),
                    Err(None) => index is None,
                    Err(Some(new)) => !self@.keys.contains(key) && index == Some(
                        self@.keys.len() as u8,
                    ) && new@ == view,
                }
            }),
    {
        proof {
            use_type_invariant(&self);
        }
        if let Some(index) = self.get(key) {
            return Ok(index);
        }
        let len = self.len();
        if len >= NODE15_CAPACITY || self.is_frozen() {
            return Err(None);
        }
        let raw = self.raw;
        proof {
            lemma2_to64();
            lemma_u32_shl_is_mul(len as u32, 3);
        }
        let shift = (len as u32) << 3;
        let k = (key as u128) << shift;
        proof {
            let l = len as u128;
            let kk = key as u128;
            lemma_h15_update_bits(raw, 0, kk, l, 0, shift);
            lemma_h15_update_bits(raw, 0, k, l, 0, shift);
        }
        let value = (raw | k) + 0x0200_0000_0000_0000_0000_0000_0000_0000;
        proof {
            let l = len as u128;
            let kk = key as u128;
            lemma_h15_update_bits(raw, 0, kk, l, 0, 0);
            let old_keys = h15_view(raw).keys;
            let new_keys = h15_view(value).keys;
            lemma_slot_eq(value, (8 * l) as u128, key);
            assert forall|j: int| 0 <= j < old_keys.len() implies new_keys[j] == old_keys[j] by {
                let s = (8 * j) as u128;
                lemma_h15_update_bits(raw, 0, kk, l, s, 0);
            }
            assert(new_keys[l as int] == key);
            assert(new_keys =~= old_keys.push(key));
            assert forall|a: int, b: int|
                0 <= a < new_keys.len() && 0 <= b < new_keys.len() && a != b implies #[trigger] new_keys[a]
                != #[trigger] new_keys[b] by {
                if a == l as int {
                    assert(!old_keys.contains(key));
                    assert(old_keys[b] == new_keys[b]);
                } else if b == l as int {
                    assert(!old_keys.contains(key));
                    assert(old_keys[a] == new_keys[a]);
                } else {
                    assert(old_keys[a] == new_keys[a]);
                    assert(old_keys[b] == new_keys[b]);
                }
            }
        }
        Err(Some(Header15 { raw: value }))
    }

    /// The packed word.
    pub fn into_raw(self) -> (r: u128)
        ensures
            h15_view(r) == self@,
    {
        self.raw
    }
}

/// Slots of `header` (in slot order) whose key bytes lie in `lower..=upper`.
pub fn iter_15(header: Header15, lower: u8, upper: u8) -> (r: Vec<KeyIndex>)
    ensures
        r@ == keys_spec(header@, lower, upper),
{
    let len = header.len();
    let mut out: Vec<KeyIndex> = Vec::new();
    let mut i: u8 = 0;
    while i < len
        invariant
            i <= len,
            len == header@.keys.len(),
            len <= 15,
            out@ == keys_spec(HeaderView { keys: header@.keys.take(i as int), ..header@ }, lower, upper),
        decreases len - i,
    {
        let key = header.slot(i);
        proof {
            assert(header@.keys[i as int] == key);
            let next = HeaderView { keys: header@.keys.take(i + 1), ..header@ };
            assert(next.keys.drop_last() =~= header@.keys.take(i as int));
        }
        if lower <= key && key <= upper {
            out.push(KeyIndex { key, index: i });
        }
        i = i + 1;
    }
    proof {
        assert(header@.keys.take(len as int) =~= header@.keys);
    }
    out
}

/// Header of a node with at most 15 key-edge pairs, as shared by the tree.
pub struct Node15Header {
    header: Header15,
}

impl View for Node15Header {
    type V = HeaderView;

    closed spec fn view(&self) -> HeaderView {
        self.header@
    }
}

impl Node15Header {
    /// A header holding `keys` in slot order, which must be distinct.
    pub fn new_unchecked(keys: &[u8]) -> (r: Self)
        requires
            keys@.len() <= 15,
            keys@.no_duplicates(),
        ensures
            r@ == (HeaderView { keys: keys@, frozen: false }),
            header_wf(r@, 15),
    {
        let n = keys.len();
        let mut buffer: u128 = 0;
        let mut i: usize = 0;
        proof {
            lemma_h15_word_bits(0, 0, 0, 0, 0, 0);
        }
        while i < n
            invariant
                i <= n,
                n == keys@.len(),
                n <= 15,
                buffer >> (8 * i) as u128 == 0,
                forall|j: int| 0 <= j < i ==> h15_slot(buffer, j as nat) == keys@[j],
            decreases n - i,
        {
            let old = buffer;
            let k = keys[i] as u128;
            let s = (i as u32) * 8;
            buffer = old | (k << s);
            proof {
                let ii = i as u128;
                assert(s as u128 == 8 * ii);
                lemma_h15_update_bits(0, old, k, ii, 0, s);
                lemma_slot_eq(buffer, (8 * ii) as u128, keys@[i as int]);
                assert forall|j: int| 0 <= j < i implies h15_slot(buffer, j as nat) == keys@[j] by {
                    let t = (8 * j) as u128;
                    lemma_h15_update_bits(0, old, k, ii, t, 0);
                }
            }
            i = i + 1;
        }
        proof {
            let l = n as u128;
            let raw = buffer | (l << 121u128);
            assert forall|j: nat| j < n implies #[trigger] h15_slot(raw, j) == h15_slot(
                buffer,
                j,
            ) by {
                let t = (8 * j) as u128;
                lemma_h15_word_bits(0, buffer, l, t, 0, 0);
            }
            lemma_h15_word_bits(0, buffer, l, 0, 0, 0);
            assert(h15_view(raw).keys =~= keys@);
        }
        Node15Header { header: Header15::new(buffer, n as u8) }
    }

    /// Freeze the header; returns the number of slots in use.
    pub fn freeze(&mut self) -> (r: usize)
        ensures
            final(self)@ == (HeaderView { frozen: true, ..old(self)@ }),
            r == old(self)@.keys.len(),
            header_wf(final(self)@, 15),
    {
        let header = self.header;
        if !header.is_frozen() {
            self.header = header.freeze();
        } else {
            proof {
                assert(header@ == HeaderView { frozen: true, ..header@ });
            }
        }
        proof {
            use_type_invariant(&self.header);
        }
        header.len() as usize
    }

    /// The slot holding `key`, if any.
    pub fn get(&self, key: u8) -> (r: Option<u8>)
        ensures
            r == get_spec(self@, key),
    {
        self.header.get(key)
    }

    /// Look up `key`, inserting it into the next slot if it is absent and
    /// the header is neither full nor frozen.
    pub fn get_or_insert(&mut self, key: u8) -> (r: Option<u8>)
        ensures
            (r, final(self)@) == get_or_insert_spec(old(self)@, 15, key),
            header_wf(final(self)@, 15),
    {
        proof {
            use_type_invariant(&self.header);
        }
        let old = self.header;
        match old.get_or_insert(key) {
            Ok(index) => {
                proof {
                    let j = choose|j: int| 0 <= j < old@.keys.len() && old@.keys[j] == key;
                    crate::node::lemma_get_present(old@, 15, j);
                }
                Some(index)
            },
            Err(None) => None,
            Err(Some(new)) => {
                proof {
                    use_type_invariant(&new);
                }
                self.header = new;
                Some(old.len())
            },
        }
    }

    /// Slots whose key bytes lie in `lower..=upper`, in slot order.
    pub fn keys(&self, lower: u8, upper: u8) -> (r: Vec<KeyIndex>)
        ensures
            r@ == keys_spec(self@, lower, upper),
    {
        iter_15(self.header, lower, upper)
    }

    /// The entry with the least key byte at or above `lower`, if any.
    pub fn min(&self, lower: u8) -> (r: Option<KeyIndex>)
        ensures
            is_min_entry(self@, lower, r),
    {
        proof {
            use_type_invariant(&self.header);
        }
        let entries = self.keys(lower, 255);
        let r = min_entry(&entries);
        proof {
            lemma_min_of_keys(self@, lower, r);
        }
        r
    }

    /// The entry with the greatest key byte at or below `upper`, if any.
    pub fn max(&self, upper: u8) -> (r: Option<KeyIndex>)
        ensures
            is_max_entry(self@, upper, r),
    {
        proof {
            use_type_invariant(&self.header);
        }
        let entries = self.keys(0, upper);
        let r = max_entry(&entries);
        proof {
            lemma_max_of_keys(self@, upper, r);
        }
        r
    }

    /// Number of slots in use.
    pub fn len(&self) -> (r: usize)
        ensures
            r == self@.keys.len(),
    {
        self.header.len() as usize
    }

    /// Whether the header is frozen.
    pub fn is_frozen(&self) -> (r: bool)
        ensures
            r == self@.frozen,
    {
        self.header.is_frozen()
    }
}

} // verus!
