//! Building blocks of an adaptive radix tree: key lengths and key readers,
//! compressed edge metadata, node headers, scan bounds and hazard prefixes,
//! each with a contract over a mathematical model.

mod bits;
pub mod cursor;
pub mod edge;
pub mod hazard;
pub mod iter;
pub mod key;
pub mod len;
pub mod node;
pub mod postorder;
pub mod raw;
pub mod reclaim;
pub mod smr;
pub mod tree;
pub mod walk;
pub mod write;

use vstd::prelude::*;

verus! {

/// Key order for scan operations.
pub trait Order {
    /// Whether keys are visited in ascending order.
    spec fn spec_ascend() -> bool;

    /// Whether keys are visited in ascending order.
    fn ascend() -> (r: bool)
        ensures
            r == Self::spec_ascend(),
    ;
}

/// Ascending key order.
pub struct Ascend;

/// Descending key order.
pub struct Descend;

impl Order for Ascend {
    open spec fn spec_ascend() -> bool {
        true
    }

    fn ascend() -> (r: bool) {
        true
    }
}

impl Order for Descend {
    open spec fn spec_ascend() -> bool {
        false
    }

    fn ascend() -> (r: bool) {
        false
    }
}

/// Marks a path as rarely taken; does nothing.
pub fn cold() {
}

} // verus!
