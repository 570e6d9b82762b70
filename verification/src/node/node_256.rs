//! A node that maps every key byte: key byte `k` always lives in slot `k`,
//! so there is no header to consult.

use vstd::prelude::*;

use crate::node::KeyIndex;

verus! {

/// Capacity of the node.
pub const NODE256_CAPACITY: usize = 256;

/// Entries `k: k` for every key byte `k` in `lower..=upper`, ascending.
pub open spec fn keys_256_spec(lower: u8, upper: u8) -> Seq<KeyIndex> {
    if lower <= upper {
        Seq::new(
            (upper - lower + 1) as nat,
            |i: int| KeyIndex { key: (lower + i) as u8, index: (lower + i) as u8 },
        )
    } else {
        Seq::empty()
    }
}

/// The total mapping from key byte to slot of a node with 256 slots.
#[derive(Clone, Copy, Debug)]
pub struct Node256;

impl Node256 {
    /// The slot of `key`: always `key` itself.
    pub fn get_key(&self, key: u8) -> (r: Option<u8>)
        ensures
            r == Some(key),
    {
        Some(key)
    }

    /// The slot of `key`, which never needs inserting.
    pub fn get_or_insert_key(&self, key: u8) -> (r: Option<u8>)
        ensures
            r == Some(key),
    {
        Some(key)
    }

    /// Freezing has nothing to record; every slot must then be frozen.
    pub fn freeze_header(&self) -> (r: usize)
        ensures
            r == 256,
    {
        NODE256_CAPACITY
    }

    /// Entries for every key byte in `lower..=upper`, ascending.
    pub fn keys(&self, lower: u8, upper: u8) -> (r: Vec<KeyIndex>)
        ensures
            r@ == keys_256_spec(lower, upper),
    {
        let mut out: Vec<KeyIndex> = Vec::new();
        if lower > upper {
            return out;
        }
        let mut key: u16 = lower as u16;
        while key <= upper as u16
            invariant
                lower <= key <= upper + 1,
                lower <= upper,
                out@ == keys_256_spec(lower, upper).take(key - lower),
            decreases upper + 1 - key,
        {
            out.push(KeyIndex { key: key as u8, index: key as u8 });
            key = key + 1;
            proof {
                assert(out@ =~= keys_256_spec(lower, upper).take(key - lower));
            }
        }
        proof {
            assert(keys_256_spec(lower, upper).take(key - lower) =~= keys_256_spec(lower, upper));
        }
        out
    }
}

} // verus!
