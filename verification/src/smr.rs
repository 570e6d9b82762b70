//! Safe memory reclamation back ends: hazard prefixes (the default, see
//! [`crate::hazard`]), epochs, and the `seize` collector.

use core::sync::atomic::Ordering;
use vstd::prelude::*;

verus! {

/// Marker naming reclamation by hazard prefixes (see [`crate::hazard`]);
/// it holds no state.
#[derive(Clone, Copy, Debug, PartialEq, Eq, Structural)]
pub struct Hazard;

/// Marker naming reclamation by epochs; it holds no state.
#[derive(Clone, Copy, Debug, PartialEq, Eq, Structural)]
pub struct Epoch;

#[verifier::external_type_specification]
#[verifier::external_body]
pub struct ExCollector(seize::Collector);

/// The number of retired objects a `seize` collector gathers in a batch
/// before it attempts reclamation.
pub uninterp spec fn batch_of(c: seize::Collector) -> usize;

/// A new `seize` collector, sized for the machine it runs on.
///
/// Calls `seize::Collector::new`, which takes the larger of the number of
/// processors and 32, rounded up to a power of two, as the batch size.
/// Claimed: the batch size is at least 32. Left unsaid: its exact value,
/// which depends on the machine.
#[verifier::external_body]
fn collector_new() -> (r: seize::Collector)
    ensures
        batch_of(r) >= 32,
{
    seize::Collector::new()
}

/// The collector `collector` with its batch size set to `batch_size`.
///
/// Calls `seize::Collector::batch_size`, which stores the value in the
/// collector as its batch size. Claimed: the result's batch size is
/// `batch_size`.
#[verifier::external_body]
fn collector_batch_size(collector: seize::Collector, batch_size: usize) -> (r: seize::Collector)
    ensures
        batch_of(r) == batch_size,
{
    collector.batch_size(batch_size)
}

/// Reclamation by the `seize` collector.
pub struct Seize {
    collector: seize::Collector,
}

impl Seize {
    /// The underlying collector.
    pub closed spec fn spec_collector(&self) -> seize::Collector {
        self.collector
    }

    /// A collector that retires allocations in batches of `batch_size`.
    pub fn with_batch_size(batch_size: usize) -> (r: Self)
        ensures
            batch_of(r.spec_collector()) == batch_size,
    {
        Seize { collector: collector_batch_size(collector_new(), batch_size) }
    }

    /// A collector with the default batch size.
    pub fn new() -> (r: Self)
        ensures
            batch_of(r.spec_collector()) >= 32,
    {
        Seize { collector: collector_new() }
    }

    /// The underlying collector.
    pub fn collector(&self) -> (r: &seize::Collector)
        ensures
            *r == self.spec_collector(),
    {
        &self.collector
    }
}

/// A sequentially consistent memory fence.
///
/// Calls `core::sync::atomic::fence` with `SeqCst`; it returns nothing
/// and its effect (ordering memory accesses) is not modelled here.
#[verifier::external_body]
fn fence_seq_cst() {
    core::sync::atomic::fence(Ordering::SeqCst)
}

/// The ordering for storing a hazard on the fast path. Without the
/// process-wide memory barrier build option it is always sequentially
/// consistent, whether or not `membarrier` is enabled at run time.
pub fn fast_store_ordering(membarrier: bool) -> (r: Ordering)
    ensures
        r == Ordering::SeqCst,
{
    Ordering::SeqCst
}

/// The barrier after storing a hazard on the fast path: none is needed
/// without the process-wide memory barrier build option.
pub fn fast_barrier(membarrier: bool) {
}

/// The barrier before scanning hazards on the slow path: a sequentially
/// consistent fence.
pub fn slow(membarrier: bool) {
    fence_seq_cst();
}

} // verus!
