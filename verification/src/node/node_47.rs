//! The header of a node that holds at most 47 key-edge pairs.
//!
//! The header is an index table of 256 bytes, one per key byte, packed in
//! sixteen 128-bit rows (key byte `k` lives in row `k / 16`, bits
//! `8 * (k % 16)..8 * (k % 16) + 8`), plus a metadata word. A key byte that
//! is present holds its slot; an absent one holds [`UNINIT`].

use vstd::prelude::*;

use crate::node::get_or_insert_spec;
use crate::node::get_spec;
use crate::node::header_wf;
use crate::node::HeaderView;
use crate::node::KeyIndex;

verus! {

/// Capacity of the header.
pub const NODE47_CAPACITY: u8 = 47;

/// Index byte of a key byte that is absent.
pub const UNINIT: u8 = 0x7F;

/// A row of the index table in which every key byte is absent.
pub const UNINIT_ROW: u128 = 0x7F7F_7F7F_7F7F_7F7F_7F7F_7F7F_7F7F_7F7F;

/// Byte `col` (0 to 15) of a row.
pub open spec fn row_byte(row: u128, col: nat) -> u8 {
    ((row >> (8 * col) as u128) & 0xff) as u8
}

/// Index byte of `key` in the table `indices`.
pub open spec fn index_of(indices: Seq<u128>, key: u8) -> u8 {
    row_byte(indices[(key / 16) as int], (key % 16) as nat)
}

/// Last key byte appended, in the metadata word.
pub open spec fn meta_last(raw: u64) -> u8 {
    (raw & 0xff) as u8
}

/// Frozen flag of the metadata word.
pub open spec fn meta_frozen(raw: u64) -> bool {
    (raw >> 8u64) & 1 == 1
}

/// Number of slots in use, in the metadata word.
pub open spec fn meta_len(raw: u64) -> nat {
    (raw >> 9u64) as nat
}

/// Metadata of the header: the last key byte appended (bits 0..8), the
/// frozen flag (bit 8) and the number of slots in use (bits 9..15).
#[derive(Clone, Copy, Debug)]
pub struct Meta {
    raw: u64,
}

/// Bit-level facts about a metadata word `raw`.
proof fn lemma_meta_bits(raw: u64, k: u64, l: u64, last: u8)
    by (bit_vector)
    ensures
        l <= 47 && k < 256 ==> ({
            let r = k | (l << 9u64);
            r >> 9u64 == l && r & 0xff == k && (r >> 8u64) & 1 != 1
        }),
        raw & 0xff == last as u64 ==> ((raw & 0xff) as u8) == last,
        (raw as u8) == ((raw & 0xff) as u8),
        ({
            let new = raw | 0x100;
            new >> 9u64 == raw >> 9u64 && new & 0xff == raw & 0xff && (new >> 8u64) & 1 == 1
        }),
        (raw & 0x100 > 0) == ((raw >> 8u64) & 1 == 1),
{
}

impl Meta {
    #[verifier::type_invariant]
    closed spec fn inv(self) -> bool {
        self.raw >> 9u64 <= 47
    }

    /// The packed word.
    pub closed spec fn spec_raw(self) -> u64 {
        self.raw
    }

    /// Metadata recording `last` as the last key byte appended and `len`
    /// slots in use, not frozen.
    pub fn new(last: u8, len: u8) -> (r: Self)
        requires
            len <= 47,
        ensures
            meta_last(r.spec_raw()) == last,
            meta_len(r.spec_raw()) == len,
            !meta_frozen(r.spec_raw()),
    {
        let l = len as u64;
        let raw = last as u64 | (l << 9);
        proof {
            let k = last as u64;
            lemma_meta_bits(raw, k, l, last);
        }
        Meta { raw }
    }

    /// The same metadata with the frozen flag set.
    pub fn freeze(self) -> (r: Self)
        ensures
            meta_last(r.spec_raw()) == meta_last(self.spec_raw()),
            meta_len(r.spec_raw()) == meta_len(self.spec_raw()),
            meta_frozen(r.spec_raw()),
    {
        proof {
            use_type_invariant(&self);
        }
        let raw = self.raw;
        let new = raw | 0x100;
        proof {
            lemma_meta_bits(raw, 0, 0, 0);
        }
        Meta { raw: new }
    }

    /// Whether the frozen flag is set.
    pub fn is_frozen(self) -> (r: bool)
        ensures
            r == meta_frozen(self.spec_raw()),
    {
        let raw = self.raw;
        proof {
            lemma_meta_bits(raw, 0, 0, 0);
        }
        raw & 0x100 > 0
    }

    /// The last key byte appended.
    pub fn last(self) -> (r: u8)
        ensures
            r == meta_last(self.spec_raw()),
    {
        let raw = self.raw;
        proof {
            lemma_meta_bits(raw, 0, 0, 0);
        }
        raw as u8
    }

    /// The number of slots in use.
    pub fn len(self) -> (r: u8)
        ensures
            r == meta_len(self.spec_raw()),
            r <= 47,
    {
        proof {
            use_type_invariant(&self);
        }
        (self.raw >> 9) as u8
    }
}

/// Row and bit offset of `key` in the index table.
pub fn key_to_row_col(key: u8) -> (r: (u8, u8))
    ensures
        r.0 == key / 16,
        r.1 == 8 * (key % 16),
{
    (key / 16, (key % 16) * 8)
}

/// Bit-level facts about one row `old` of the index table: setting or
/// flipping its byte `a` (to or by `v`) leaves its other bytes unchanged.
#[verifier::rlimit(100)]
proof fn lemma_row_bits(old: u128, a: u128, b: u128, v: u128, c8: u8, c16: u16, i: u8)
    by (bit_vector)
    ensures
        a < 16 && b < 16 && v < 256 ==> ({
            let new = (old & !(0xffu128 << (8 * a))) | (v << (8 * a));
            (new >> (8 * b)) & 0xff == (if a == b {
                v
            } else {
                (old >> (8 * b)) & 0xff
            })
        }),
        a < 16 && b < 16 && v < 256 ==> ({
            let new = old ^ (v << (8 * a));
            (new >> (8 * b)) & 0xff == (if a == b {
                ((old >> (8 * b)) & 0xff) ^ v
            } else {
                (old >> (8 * b)) & 0xff
            })
        }),
        (old >> b) as u8 == ((old >> b) & 0xff) as u8 && ((old >> b) & 0xff) < 256,
        c8 < 128 ==> !(0xFFu128 << c8) == !(0xffu128 << (c8 as u128)) && (v << c8) == (v << (c8
            as u128)),
        b < 16 ==> ((UNINIT_ROW >> (8 * b)) & 0xff) == 0x7F,
        c16 < 16 ==> (old >> (c16 * 8)) == (old >> (8 * (c16 as u128))),
        i < 47 ==> ((0x7Fu128 ^ ((0x7Fu8 ^ i) as u128)) as u128) == i as u128,
{
}

/// Setting byte `a` of a row leaves the other bytes unchanged.
proof fn lemma_row_set(old: u128, new: u128, a: u128, b: u128, idx: u128)
    requires
        a < 16,
        b < 16,
        idx < 256,
        new == (old & !(0xffu128 << (8 * a))) | (idx << (8 * a)),
    ensures
        (new >> (8 * b)) & 0xff == (if a == b {
            idx
        } else {
            (old >> (8 * b)) & 0xff
        }),
{
    lemma_row_bits(old, a, b, idx, 0, 0, 0);
}

/// Flipping bits of byte `a` of a row leaves the other bytes unchanged.
proof fn lemma_row_xor(old: u128, new: u128, a: u128, b: u128, x: u128)
    requires
        a < 16,
        b < 16,
        x < 256,
        new == old ^ (x << (8 * a)),
    ensures
        (new >> (8 * b)) & 0xff == (if a == b {
            ((old >> (8 * b)) & 0xff) ^ x
        } else {
            (old >> (8 * b)) & 0xff
        }),
{
    lemma_row_bits(old, a, b, x, 0, 0, 0);
}

proof fn lemma_byte_u8(row: u128, s: u128)
    ensures
        (row >> s) as u8 == ((row >> s) & 0xff) as u8,
        ((row >> s) & 0xff) < 256,
{
    lemma_row_bits(row, 0, s, 0, 0, 0, 0);
}

/// Well-formed index table for the key bytes `keys` (slot `i` holds
/// `keys[i]`).
pub open spec fn table_wf(indices: Seq<u128>, keys: Seq<u8>) -> bool {
    &&& indices.len() == 16
    &&& forall|i: int| 0 <= i < keys.len() ==> index_of(indices, #[trigger] keys[i]) == i
    &&& forall|k: u8| !keys.contains(k) ==> #[trigger] index_of(indices, k) == UNINIT
}

/// A copy of `rows`.
fn copy_rows(rows: &Vec<u128>) -> (r: Vec<u128>)
    ensures
        r@ == rows@,
{
    let mut out: Vec<u128> = Vec::new();
    let mut i: usize = 0;
    while i < rows.len()
        invariant
            i <= rows@.len(),
            out@ == rows@.take(i as int),
        decreases rows@.len() - i,
    {
        out.push(rows[i]);
        i = i + 1;
        proof {
            assert(out@ =~= rows@.take(i as int));
        }
    }
    proof {
        assert(rows@.take(i as int) =~= rows@);
    }
    out
}

/// Header of a node with at most 47 key-edge pairs.
pub struct Node47Header {
    indices: Vec<u128>,
    meta: Meta,
    keys: Ghost<Seq<u8>>,
}

impl View for Node47Header {
    type V = HeaderView;

    closed spec fn view(&self) -> HeaderView {
        HeaderView { keys: self.keys@, frozen: meta_frozen(self.meta.spec_raw()) }
    }
}

/// Store `index` as the index byte of `key`.
fn write_index(indices: &mut Vec<u128>, key: u8, index: u8)
    requires
        old(indices)@.len() == 16,
    ensures
        final(indices)@.len() == 16,
        index_of(final(indices)@, key) == index,
        forall|k: u8| k != key ==> #[trigger] index_of(final(indices)@, k) == index_of(old(indices)@, k),
{
    let (row, col) = key_to_row_col(key);
    let prev_row = indices[row as usize];
    let hole = !(0xFFu128 << col);
    let new = prev_row & hole | ((index as u128) << col);
    proof {
        let a = (key % 16) as u128;
        let c = col as u128;
        assert(c == 8 * a);
        lemma_row_bits(0, 0, 0, index as u128, col, 0, 0);
    }
    indices.set(row as usize, new);
    proof {
        let a = (key % 16) as u128;
        lemma_row_set(prev_row, new, a, a, index as u128);
        assert(index_of(indices@, key) == ((new >> (8 * a) as u128) & 0xff) as u8);
        assert forall|k: u8| k != key implies #[trigger] index_of(indices@, k) == index_of(
            old(indices)@,
            k,
        ) by {
            if k / 16 == key / 16 {
                let b = (k % 16) as u128;
                lemma_row_set(prev_row, new, a, b, index as u128);
            }
        }
    }
}

impl Node47Header {
    #[verifier::type_invariant]
    closed spec fn inv(self) -> bool {
        &&& table_wf(self.indices@, self.keys@)
        &&& self.keys@.len() == meta_len(self.meta.spec_raw())
        &&& 1 <= self.keys@.len() <= 47
        &&& self.keys@.no_duplicates()
        &&& meta_last(self.meta.spec_raw()) == self.keys@.last()
    }

    /// A header holding `keys` in slot order, which must be distinct and
    /// not empty.
    pub fn new_unchecked(keys: &[u8]) -> (r: Self)
        requires
            1 <= keys@.len() <= 47,
            keys@.no_duplicates(),
        ensures
            r@ == (HeaderView { keys: keys@, frozen: false }),
            header_wf(r@, 47),
    {
        let mut indices: Vec<u128> = Vec::new();
        let mut r: usize = 0;
        while r < 16
            invariant
                r <= 16,
                indices@.len() == r,
                forall|j: int| 0 <= j < r ==> indices@[j] == UNINIT_ROW,
            decreases 16 - r,
        {
            indices.push(UNINIT_ROW);
            r = r + 1;
        }
        proof {
            assert forall|k: u8| #[trigger] index_of(indices@, k) == UNINIT by {
                let b = (k % 16) as u128;
                lemma_row_bits(0, 0, b, 0, 0, 0, 0);
                assert(indices@[(k / 16) as int] == UNINIT_ROW);
            }
        }
        let n = keys.len();
        let mut i: usize = 0;
        while i < n
            invariant
                i <= n,
                n == keys@.len(),
                n <= 47,
                keys@.no_duplicates(),
                table_wf(indices@, keys@.take(i as int)),
            decreases n - i,
        {
            let key = keys[i];
            let (row, col) = key_to_row_col(key);
            let prev_row = indices[row as usize];
            let ghost before = indices@;
            let x = (0x7F ^ (i as u8)) as u128;
            let new = prev_row ^ (x << col);
            proof {
                let a = (key % 16) as u128;
                assert(col as u128 == 8 * a);
                lemma_row_bits(0, 0, 0, x, col, 0, 0);
                assert(!keys@.take(i as int).contains(key)) by {
                    if keys@.take(i as int).contains(key) {
                        let j = choose|j: int| 0 <= j < i && keys@.take(i as int)[j] == key;
                        assert(keys@[j] == keys@[i as int]);
                    }
                }
                assert(index_of(indices@, key) == UNINIT);
            }
            indices.set(row as usize, new);
            proof {
                let a = (key % 16) as u128;
                let prev = keys@.take(i as int);
                let next = keys@.take(i + 1);
                assert(next =~= prev.push(key));
                lemma_row_xor(prev_row, new, a, a, x);
                assert(((prev_row >> (8 * a) as u128) & 0xff) == 0x7F) by {
                    lemma_byte_u8(prev_row, (8 * a) as u128);
                }
                lemma_row_bits(0, 0, 0, 0, 0, 0, i as u8);
                assert(index_of(indices@, key) == i as u8);
                assert forall|k: u8| k != key implies #[trigger] index_of(indices@, k) == index_of(
                    before,
                    k,
                ) by {
                    if k / 16 == key / 16 {
                        let b = (k % 16) as u128;
                        lemma_row_xor(prev_row, new, a, b, x);
                    }
                }
                assert(table_wf(indices@, next)) by {
                    assert forall|j: int| 0 <= j < next.len() implies index_of(
                        indices@,
                        #[trigger] next[j],
                    ) == j by {
                        if j < i {
                            assert(next[j] == prev[j]);
                            assert(next[j] != key);
                        }
                    }
                    assert forall|k: u8| !next.contains(k) implies #[trigger] index_of(indices@, k)
                        == UNINIT by {
                        assert(k != key) by {
                            if k == key {
                                assert(next[i as int] == key);
                            }
                        }
                        if prev.contains(k) {
                            let j = choose|j: int| 0 <= j < prev.len() && prev[j] == k;
                            assert(next[j] == k);
                        }
                    }
                }
            }
            i = i + 1;
        }
        let last = keys[n - 1];
        let meta = Meta::new(last, n as u8);
        proof {
            assert(keys@.take(n as int) =~= keys@);
        }
        Node47Header { indices, meta, keys: Ghost(keys@) }
    }

    /// The slot holding `key`, if any.
    pub fn get(&self, key: u8) -> (r: Option<u8>)
        ensures
            r == get_spec(self@, key),
    {
        proof {
            use_type_invariant(self);
        }
        let (row, col) = key_to_row_col(key);
        let index = (self.indices[row as usize] >> col) as u8;
        proof {
            let a = (key % 16) as u128;
            lemma_byte_u8(self.indices@[row as int], col as u128);
            assert(col as u128 == 8 * a);
            assert(index == index_of(self.indices@, key));
            if self@.keys.contains(key) {
                let j = choose|j: int| 0 <= j < self@.keys.len() && self@.keys[j] == key;
                crate::node::lemma_get_present(self@, 47, j);
            }
        }
        if index < NODE47_CAPACITY {
            Some(index)
        } else {
            None
        }
    }

    /// Look up `key`, inserting it into the next slot if it is absent and
    /// the header is neither full nor frozen.
    pub fn get_or_insert(&mut self, key: u8) -> (r: Option<u8>)
        ensures
            (r, final(self)@) == get_or_insert_spec(old(self)@, 47, key),
            header_wf(final(self)@, 47),
    {
        proof {
            use_type_invariant(&*self);
        }
        if let Some(index) = self.get(key) {
            return Some(index);
        }
        let old = self.meta;
        let len = old.len();
        if key == old.last() {
            proof {
                assert(self@.keys[self@.keys.len() - 1] == key);
            }
            return len.checked_sub(1);
        }
        if len == NODE47_CAPACITY || old.is_frozen() {
            return None;
        }
        let new = Meta::new(key, len + 1);
        let ghost keys = self.keys@;
        let mut indices = copy_rows(&self.indices);
        write_index(&mut indices, key, len);
        proof {
            let next = keys.push(key);
            assert forall|j: int| 0 <= j < next.len() implies index_of(
                indices@,
                #[trigger] next[j],
            ) == j by {
                if j < keys.len() {
                    assert(next[j] == keys[j]);
                    assert(keys[j] != key);
                }
            }
            assert forall|k: u8| !next.contains(k) implies #[trigger] index_of(indices@, k)
                == UNINIT by {
                assert(next[keys.len() as int] == key);
                if keys.contains(k) {
                    let j = choose|j: int| 0 <= j < keys.len() && keys[j] == k;
                    assert(next[j] == k);
                }
            }
            assert forall|a: int, b: int|
                0 <= a < next.len() && 0 <= b < next.len() && a != b implies #[trigger] next[a]
                != #[trigger] next[b] by {
                if a == keys.len() && next[b] == key {
                    assert(keys[b] == key);
                }
                if b == keys.len() && next[a] == key {
                    assert(keys[a] == key);
                }
            }
        }
        *self = Node47Header { indices, meta: new, keys: Ghost(keys.push(key)) };
        Some(len)
    }

    /// Freeze the header; returns the number of slots in use.
    pub fn freeze(&mut self) -> (r: usize)
        ensures
            final(self)@ == (HeaderView { frozen: true, ..old(self)@ }),
            r == old(self)@.keys.len(),
            header_wf(final(self)@, 47),
    {
        proof {
            use_type_invariant(&*self);
        }
        let old = self.meta;
        if !old.is_frozen() {
            self.meta = old.freeze();
        }
        old.len() as usize
    }

    /// Entries whose key bytes lie in `lower..=upper`, in ascending order of
    /// key byte.
    pub fn keys(&self, lower: u8, upper: u8) -> (r: Vec<KeyIndex>)
        requires
            lower / 16 <= upper / 16 + 1,
        ensures
            r@ == crate::node::sorted_keys_spec(self@, lower, upper),
    {
        proof {
            use_type_invariant(self);
        }
        let len = self.meta.len();
        let first = (lower / 16) as u16 * 16;
        let end = (upper / 16) as u16 * 16 + 16;
        let mut out: Vec<KeyIndex> = Vec::new();
        let mut key: u16 = first;
        while key < end
            invariant
                first <= key <= end,
                first <= lower,
                upper < end <= 256,
                end % 16 == 0,
                key % 16 == 0,
                len == self@.keys.len(),
                table_wf(self.indices@, self@.keys),
                self@.keys.no_duplicates(),
                1 <= len <= 47,
                out@ == crate::node::by_key_upto(self@, lower, if key <= upper { key as int } else { upper + 1 }),
            decreases end - key,
        {
            let row = self.indices[(key / 16) as usize];
            let mut col: u16 = 0;
            while col < 16
                invariant
                    col <= 16,
                    key + 16 <= end <= 256,
                    key % 16 == 0,
                    first <= key,
                    first <= lower,
                    upper < end,
                    row == self.indices@[(key / 16) as int],
                    len == self@.keys.len(),
                    table_wf(self.indices@, self@.keys),
                    self@.keys.no_duplicates(),
                    1 <= len <= 47,
                    out@ == crate::node::by_key_upto(self@, lower, if key + col <= upper { (key + col) as int } else { upper + 1 }),
                decreases 16 - col,
            {
                let k = (key + col) as u8;
                let index = (row >> (col * 8)) as u8;
                proof {
                    let b = col as u128;
                    lemma_byte_u8(row, (8 * b) as u128);
                    lemma_row_bits(row, 0, 0, 0, 0, col, 0);
                    assert(k / 16 == key / 16 && k % 16 == col);
                    assert(index == index_of(self.indices@, k));
                    crate::node::lemma_by_key_step(self@, lower, (key + col) as int);
                    if self@.keys.contains(k) {
                        let j = choose|j: int| 0 <= j < self@.keys.len() && self@.keys[j] == k;
                        crate::node::lemma_get_present(self@, 47, j);
                    }
                }
                if index < len && k >= lower && k <= upper {
                    out.push(KeyIndex { index, key: k });
                }
                col = col + 1;
            }
            key = key + 16;
        }
        out
    }

    /// Number of slots in use.
    pub fn len(&self) -> (r: usize)
        ensures
            r == self@.keys.len(),
    {
        proof {
            use_type_invariant(self);
        }
        self.meta.len() as usize
    }

    /// Whether the header is frozen.
    pub fn is_frozen(&self) -> (r: bool)
        ensures
            r == self@.frozen,
    {
        self.meta.is_frozen()
    }

    /// A copy of the index table.
    pub fn indices(&self) -> (r: Vec<u128>)
        ensures
            r@ == self.spec_indices(),
    {
        copy_rows(&self.indices)
    }

    /// The index table.
    pub closed spec fn spec_indices(&self) -> Seq<u128> {
        self.indices@
    }
}

} // verus!
