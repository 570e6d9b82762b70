//! One thread's side of hazard-prefix reclamation: the allocations it has
//! retired, each with the prefix under which it was reachable, and the
//! cycle that decides when releasing a guard flushes them.
//!
//! Publishing hazards, reading every thread's hazard into a snapshot and
//! freeing memory belong to the caller.

use vstd::prelude::*;

use crate::hazard::conflict_spec;
use crate::hazard::drop_decision;
use crate::hazard::flush_partition;
use crate::hazard::hazard_view;
use crate::hazard::into_prefix_view;
use crate::hazard::protected;
use crate::hazard::retained;
use crate::hazard::Prefix;

verus! {

/// Number of retired allocations a thread holds before releasing a guard
/// starts flushing them.
pub const RECLAIM_THRESHOLD: usize = 64;

/// The allocations one thread has retired and not yet freed, each with its
/// prefix, and its flush cycle counter.
pub struct Local<P: Prefix> {
    retired: Vec<(P, u64)>,
    cycle: usize,
}

impl<P: Prefix> Local<P> {
    /// The retired allocations, oldest first.
    pub closed spec fn retired_view(self) -> Seq<(P, u64)> {
        self.retired@
    }

    /// The flush cycle counter.
    pub closed spec fn cycle_view(self) -> nat {
        self.cycle as nat
    }

    /// Nothing retired, at the start of a cycle.
    pub fn new() -> (r: Self)
        ensures
            r.retired_view() == Seq::<(P, u64)>::empty(),
            r.cycle_view() == 0,
    {
        Local { retired: Vec::new(), cycle: 0 }
    }

    /// The retired allocations, oldest first.
    pub fn retired(&self) -> (r: &Vec<(P, u64)>)
        ensures
            r@ == self.retired_view(),
    {
        &self.retired
    }

    /// The flush cycle counter.
    pub fn cycle(&self) -> (r: usize)
        ensures
            r == self.cycle_view(),
    {
        self.cycle
    }

    /// Retire the node at address `node`, reachable under the prefix that
    /// `hazard` (this thread's published hazard) names, cut to `bits` bits.
    pub fn retire_node(&mut self, hazard: P, bits: usize, node: u64)
        requires
            bits % 8 == 0,
        ensures
            final(self).retired_view().len() == old(self).retired_view().len() + 1,
            final(self).retired_view().drop_last() == old(self).retired_view(),
            final(self).retired_view().last().0@ == into_prefix_view(hazard@, false, Some(bits)),
            final(self).retired_view().last().1 == node,
            final(self).cycle_view() == old(self).cycle_view(),
    {
        let prefix = hazard.into_prefix(false, Some(bits));
        self.retired.push((prefix, node));
        assert(self.retired@.drop_last() =~= old(self).retired@);
    }

    /// Retire the value `value`, reachable under the whole prefix that
    /// `hazard` (this thread's published hazard) names.
    pub fn retire_value(&mut self, hazard: P, value: u64)
        ensures
            final(self).retired_view().len() == old(self).retired_view().len() + 1,
            final(self).retired_view().drop_last() == old(self).retired_view(),
            final(self).retired_view().last().0@ == into_prefix_view(hazard@, true, None),
            final(self).retired_view().last().1 == value,
            final(self).cycle_view() == old(self).cycle_view(),
    {
        let prefix = hazard.into_prefix(true, None);
        self.retired.push((prefix, value));
        assert(self.retired@.drop_last() =~= old(self).retired@);
    }

    /// What releasing a guard decides, with reclaim threshold `threshold`:
    /// whether to flush now. Below the threshold the cycle restarts; at or
    /// above it, every `threshold + 1`-th release flushes.
    pub fn release(&mut self, threshold: usize) -> (r: bool)
        requires
            old(self).cycle_view() <= threshold,
        ensures
            final(self).retired_view() == old(self).retired_view(),
            final(self).cycle_view() <= threshold,
            old(self).retired_view().len() < threshold ==> !r && final(self).cycle_view() == 0,
            old(self).retired_view().len() >= threshold ==> r == (old(self).cycle_view() == 0)
                && final(self).cycle_view() == (if old(self).cycle_view() == threshold {
                0
            } else {
                old(self).cycle_view() + 1
            }),
    {
        let (flush, next) = drop_decision(self.retired.len(), threshold, self.cycle);
        self.cycle = next;
        flush
    }

    /// Keep the retired allocations that a hazard of `snapshot` protects,
    /// and hand back the others, oldest first, to be freed.
    pub fn flush(&mut self, snapshot: &Vec<P>) -> (r: Vec<(P, u64)>)
        requires
            snapshot@.len() % 4 == 0,
        ensures
            final(self).retired_view() == retained(old(self).retired_view(), snapshot@, true),
            r@ == retained(old(self).retired_view(), snapshot@, false),
            final(self).cycle_view() == old(self).cycle_view(),
    {
        let (kept, freed) = flush_partition(&self.retired, snapshot);
        self.retired = kept;
        freed
    }

    /// Hand back every retired allocation, oldest first, to be freed
    /// eagerly (when nothing can hold a hazard any more).
    pub fn reclaim(&mut self) -> (r: Vec<(P, u64)>)
        ensures
            r@ == old(self).retired_view(),
            final(self).retired_view() == Seq::<(P, u64)>::empty(),
            final(self).cycle_view() == old(self).cycle_view(),
    {
        let mut all: Vec<(P, u64)> = Vec::new();
        std::mem::swap(&mut all, &mut self.retired);
        all
    }
}

/// A node retired under the hazard of a key, cut to `bits` bits (the depth
/// of the node on that key's path), is protected by the hazard of every
/// key that reaches the node: every key that starts with the node's prefix.
pub proof fn law_reader_protects_retired_node(key: Seq<u8>, bits: usize, other: Seq<u8>)
    requires
        bits % 8 == 0,
        into_prefix_view(hazard_view(key), false, Some(bits)).bytes.is_prefix_of(other),
    ensures
        conflict_spec(into_prefix_view(hazard_view(key), false, Some(bits)), hazard_view(other)),
{
    let p = into_prefix_view(hazard_view(key), false, Some(bits));
    assert(p.bytes.take(p.bytes.len() as int) =~= other.take(p.bytes.len() as int));
}

/// A flush frees nothing that a hazard of the snapshot protects, and keeps
/// only what one protects.
pub proof fn law_flush_frees_only_unprotected<P: Prefix>(retired: Seq<(P, u64)>, hazards: Seq<P>)
    ensures
        forall|i: int|
            0 <= i < retained(retired, hazards, false).len() ==> !protected(
                #[trigger] retained(retired, hazards, false)[i].0,
                hazards,
            ),
        forall|i: int|
            0 <= i < retained(retired, hazards, true).len() ==> protected(
                #[trigger] retained(retired, hazards, true)[i].0,
                hazards,
            ),
    decreases retired.len(),
{
    if retired.len() > 0 {
        let init = retired.drop_last();
        law_flush_frees_only_unprotected(init, hazards);
        let last = retired.last();
        assert forall|i: int| 0 <= i < retained(retired, hazards, false).len() implies !protected(
            #[trigger] retained(retired, hazards, false)[i].0,
            hazards,
        ) by {
            if i < retained(init, hazards, false).len() {
                assert(retained(retired, hazards, false)[i] == retained(init, hazards, false)[i]);
            }
        }
        assert forall|i: int| 0 <= i < retained(retired, hazards, true).len() implies protected(
            #[trigger] retained(retired, hazards, true)[i].0,
            hazards,
        ) by {
            if i < retained(init, hazards, true).len() {
                assert(retained(retired, hazards, true)[i] == retained(init, hazards, true)[i]);
            }
        }
    }
}

/// A flush loses and duplicates nothing: what it keeps and what it frees
/// together are exactly what was retired.
pub proof fn law_flush_loses_nothing<P: Prefix>(retired: Seq<(P, u64)>, hazards: Seq<P>)
    ensures
        retained(retired, hazards, true).to_multiset().add(
            retained(retired, hazards, false).to_multiset(),
        ) == retired.to_multiset(),
    decreases retired.len(),
{
    broadcast use vstd::seq_lib::group_to_multiset_ensures;

    if retired.len() == 0 {
        assert(retired.to_multiset() =~= vstd::multiset::Multiset::empty());
        assert(retained(retired, hazards, true).to_multiset() =~= vstd::multiset::Multiset::empty());
        assert(retained(retired, hazards, false).to_multiset() =~= vstd::multiset::Multiset::empty());
    } else {
        let init = retired.drop_last();
        law_flush_loses_nothing(init, hazards);
        assert(retired =~= init.push(retired.last()));
        assert(retained(retired, hazards, true).to_multiset().add(
            retained(retired, hazards, false).to_multiset(),
        ) =~= retired.to_multiset());
    }
}

} // verus!
