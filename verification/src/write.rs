//! Decisions of the map's write operations.
//!
//! An update, an upsert and a removal each alternate shared-memory work (a
//! traversal, a freeze, a compare-exchange on an edge, a call of the
//! caller's closure) with a decision on what that work reported. The work
//! belongs to the caller. Each `*_step` function takes the action it asked
//! for last and what that action reported, and names the next action.
//! Every operation starts with a traversal; it ends at an action that
//! returns.

use vstd::prelude::*;

use crate::len::Bit;

verus! {

/// What a traversal to a key's value reported.
#[derive(Clone, Copy, Debug, PartialEq, Eq, Structural)]
pub enum Found {
    /// The key has no value.
    Missing,
    /// The key's value.
    Value(u64),
    /// A frozen edge stands in the way.
    Frozen,
}

/// What a freeze along the traversal path reported.
#[derive(Clone, Copy, Debug, PartialEq, Eq, Structural)]
pub enum Froze {
    /// The path was not kept, so the frozen node cannot be reached.
    Failed,
    /// The node was replaced by someone else.
    Unchanged,
    /// The node was replaced here, and the old one must be retired.
    Retire,
}

/// Next action of an update.
#[derive(Clone, Copy, Debug, PartialEq, Eq, Structural)]
pub enum UpdateAction {
    /// Traverse to the key's value.
    Traverse,
    /// Freeze the frozen node in the way.
    Freeze,
    /// Retire the node that the freeze replaced, then traverse.
    RetireAndTraverse,
    /// Call the closure on the old value.
    Ask(u64),
    /// Exchange the edge that holds the first value for one that holds
    /// the second.
    Exchange(u64, u64),
    /// The exchange was lost: hand the new value back, then traverse.
    RestoreAndTraverse(u64),
    /// Return: the key has no value.
    Absent,
    /// Return: the freeze failed; retry with the path kept.
    Failed,
    /// Return: the closure declined; the old value.
    Break(u64),
    /// Return: the old and the new value.
    Success(u64, u64),
}

/// What the last action of an update reported.
#[derive(Clone, Copy, Debug, PartialEq, Eq, Structural)]
pub enum UpdateEvent {
    /// What the traversal found.
    Traversed(Found),
    /// What the freeze did.
    Froze(Froze),
    /// The closure's new value, or `None` if it declined.
    Chose(Option<u64>),
    /// Whether the exchange won.
    Exchanged(bool),
}

/// Whether `event` is what `last` reports.
pub open spec fn update_expects(last: UpdateAction, event: UpdateEvent) -> bool {
    match last {
        UpdateAction::Traverse | UpdateAction::RetireAndTraverse | UpdateAction::RestoreAndTraverse(
            _,
        ) => event is Traversed,
        UpdateAction::Freeze => event is Froze,
        UpdateAction::Ask(_) => event is Chose,
        UpdateAction::Exchange(_, _) => event is Exchanged,
        _ => false,
    }
}

/// The action of an update after `last` reported `event`.
pub open spec fn update_next(last: UpdateAction, event: UpdateEvent) -> UpdateAction {
    match (last, event) {
        (_, UpdateEvent::Traversed(Found::Missing)) => UpdateAction::Absent,
        (_, UpdateEvent::Traversed(Found::Value(old))) => UpdateAction::Ask(old),
        (_, UpdateEvent::Traversed(Found::Frozen)) => UpdateAction::Freeze,
        (_, UpdateEvent::Froze(Froze::Failed)) => UpdateAction::Failed,
        (_, UpdateEvent::Froze(Froze::Unchanged)) => UpdateAction::Traverse,
        (_, UpdateEvent::Froze(Froze::Retire)) => UpdateAction::RetireAndTraverse,
        (UpdateAction::Ask(old), UpdateEvent::Chose(Some(new))) => UpdateAction::Exchange(old, new),
        (UpdateAction::Ask(old), UpdateEvent::Chose(None)) => UpdateAction::Break(old),
        (UpdateAction::Exchange(old, new), UpdateEvent::Exchanged(true)) => UpdateAction::Success(
            old,
            new,
        ),
        (UpdateAction::Exchange(_, new), UpdateEvent::Exchanged(false)) => {
            UpdateAction::RestoreAndTraverse(new)
        },
        _ => UpdateAction::Failed,
    }
}

/// Next action of an update, after `last` reported `event`: a missing key
/// ends it, a frozen edge is frozen up the path, a found value goes to the
/// closure, a chosen value is exchanged in, and a lost exchange retries.
pub fn update_step(last: UpdateAction, event: UpdateEvent) -> (r: UpdateAction)
    requires
        update_expects(last, event),
    ensures
        r == update_next(last, event),
        r matches UpdateAction::Success(old, new) ==> last == UpdateAction::Exchange(old, new)
            && event == UpdateEvent::Exchanged(true),
        r matches UpdateAction::Break(old) ==> last == UpdateAction::Ask(old),
{
    match event {
        UpdateEvent::Traversed(found) => match found {
            Found::Missing => UpdateAction::Absent,
            Found::Value(old) => UpdateAction::Ask(old),
            Found::Frozen => UpdateAction::Freeze,
        },
        UpdateEvent::Froze(froze) => match froze {
            Froze::Failed => UpdateAction::Failed,
            Froze::Unchanged => UpdateAction::Traverse,
            Froze::Retire => UpdateAction::RetireAndTraverse,
        },
        UpdateEvent::Chose(chosen) => {
            let old = match last {
                UpdateAction::Ask(old) => old,
                _ => 0,
            };
            match chosen {
                Some(new) => UpdateAction::Exchange(old, new),
                None => UpdateAction::Break(old),
            }
        },
        UpdateEvent::Exchanged(won) => {
            let (old, new) = match last {
                UpdateAction::Exchange(old, new) => (old, new),
                _ => (0, 0),
            };
            if won {
                UpdateAction::Success(old, new)
            } else {
                UpdateAction::RestoreAndTraverse(new)
            }
        },
    }
}

/// What a traversal for an insertion reported.
#[derive(Clone, Copy, Debug, PartialEq, Eq, Structural)]
pub enum Seen {
    /// The insertion happens at the loaded edge; the value already there.
    Value(Option<u64>),
    /// A full node stands in the way; whether the edge above it is frozen.
    Replace(bool),
}

/// Next action of an upsert.
#[derive(Clone, Copy, Debug, PartialEq, Eq, Structural)]
pub enum UpsertAction {
    /// Traverse to where the key's value goes.
    Traverse,
    /// Freeze the frozen node in the way.
    Freeze,
    /// Retire the node that the last action replaced, then traverse.
    RetireAndTraverse,
    /// Call the closure on the old value, if any.
    Ask(Option<u64>),
    /// Build the path from the loaded edge to the new value.
    CreatePath(Option<u64>, u64),
    /// Exchange the loaded edge for the path built to the new value.
    Exchange(Option<u64>, u64),
    /// The path ran into a frozen node: hand the new value back, then
    /// freeze.
    RestoreAndFreeze(u64),
    /// The exchange was lost: free the path's new node if it has one, hand
    /// the new value back, then traverse.
    Discard(u64, bool),
    /// Freeze the full node, build its replacement and exchange it in.
    Replace,
    /// The replacement was lost: free the node allocated for it, then
    /// traverse.
    FreeAndTraverse,
    /// Return: the freeze failed; retry with the path kept.
    Failed,
    /// Return: the closure declined; the old value, if any.
    Break(Option<u64>),
    /// Return: the old value, if any, and the new one.
    Success(Option<u64>, u64),
}

/// What the last action of an upsert reported.
#[derive(Clone, Copy, Debug, PartialEq, Eq, Structural)]
pub enum UpsertEvent {
    /// What the traversal saw.
    Traversed(Seen),
    /// What the freeze did.
    Froze(Froze),
    /// The closure's new value, or `None` if it declined.
    Chose(Option<u64>),
    /// Whether the path was built (it is not when it meets a frozen node).
    Created(bool),
    /// Whether the exchange won, and whether the path has a new node.
    Exchanged(bool, bool),
    /// Whether the replacement's exchange won, and whether the replacement
    /// allocated a node.
    Replaced(bool, bool),
}

/// Whether `event` is what `last` reports.
pub open spec fn upsert_expects(last: UpsertAction, event: UpsertEvent) -> bool {
    match last {
        UpsertAction::Traverse | UpsertAction::RetireAndTraverse | UpsertAction::Discard(_, _)
        | UpsertAction::FreeAndTraverse => event is Traversed,
        UpsertAction::Freeze | UpsertAction::RestoreAndFreeze(_) => event is Froze,
        UpsertAction::Ask(_) => event is Chose,
        UpsertAction::CreatePath(_, _) => event is Created,
        UpsertAction::Exchange(_, _) => event is Exchanged,
        UpsertAction::Replace => event is Replaced,
        _ => false,
    }
}

/// The action of an upsert after `last` reported `event`.
pub open spec fn upsert_next(last: UpsertAction, event: UpsertEvent) -> UpsertAction {
    match (last, event) {
        (_, UpsertEvent::Traversed(Seen::Value(old))) => UpsertAction::Ask(old),
        (_, UpsertEvent::Traversed(Seen::Replace(frozen))) => if frozen {
            UpsertAction::Freeze
        } else {
            UpsertAction::Replace
        },
        (_, UpsertEvent::Froze(Froze::Failed)) => UpsertAction::Failed,
        (_, UpsertEvent::Froze(Froze::Unchanged)) => UpsertAction::Traverse,
        (_, UpsertEvent::Froze(Froze::Retire)) => UpsertAction::RetireAndTraverse,
        (UpsertAction::Ask(old), UpsertEvent::Chose(Some(new))) => UpsertAction::CreatePath(old, new),
        (UpsertAction::Ask(old), UpsertEvent::Chose(None)) => UpsertAction::Break(old),
        (UpsertAction::CreatePath(old, new), UpsertEvent::Created(built)) => if built {
            UpsertAction::Exchange(old, new)
        } else {
            UpsertAction::RestoreAndFreeze(new)
        },
        (UpsertAction::Exchange(old, new), UpsertEvent::Exchanged(won, node)) => if won {
            UpsertAction::Success(old, new)
        } else {
            UpsertAction::Discard(new, node)
        },
        (_, UpsertEvent::Replaced(won, allocated)) => if won {
            UpsertAction::RetireAndTraverse
        } else if allocated {
            UpsertAction::FreeAndTraverse
        } else {
            UpsertAction::Traverse
        },
        _ => UpsertAction::Failed,
    }
}

/// Next action of an upsert, after `last` reported `event`: at the key's
/// place the closure chooses the value, a path to it is built and exchanged
/// in; a full node in the way is replaced, a frozen one is frozen up the
/// path; a lost exchange or a path that meets a frozen node gives the value
/// back and retries.
pub fn upsert_step(last: UpsertAction, event: UpsertEvent) -> (r: UpsertAction)
    requires
        upsert_expects(last, event),
    ensures
        r == upsert_next(last, event),
        r matches UpsertAction::Success(old, new) ==> last == UpsertAction::Exchange(old, new)
            && event is Exchanged,
        r matches UpsertAction::Break(old) ==> last == UpsertAction::Ask(old),
{
    match event {
        UpsertEvent::Traversed(seen) => match seen {
            Seen::Value(old) => UpsertAction::Ask(old),
            Seen::Replace(frozen) => if frozen {
                UpsertAction::Freeze
            } else {
                UpsertAction::Replace
            },
        },
        UpsertEvent::Froze(froze) => match froze {
            Froze::Failed => UpsertAction::Failed,
            Froze::Unchanged => UpsertAction::Traverse,
            Froze::Retire => UpsertAction::RetireAndTraverse,
        },
        UpsertEvent::Chose(chosen) => {
            let old = match last {
                UpsertAction::Ask(old) => old,
                _ => None,
            };
            match chosen {
                Some(new) => UpsertAction::CreatePath(old, new),
                None => UpsertAction::Break(old),
            }
        },
        UpsertEvent::Created(built) => {
            let (old, new) = match last {
                UpsertAction::CreatePath(old, new) => (old, new),
                _ => (None, 0),
            };
            if built {
                UpsertAction::Exchange(old, new)
            } else {
                UpsertAction::RestoreAndFreeze(new)
            }
        },
        UpsertEvent::Exchanged(won, node) => {
            let (old, new) = match last {
                UpsertAction::Exchange(old, new) => (old, new),
                _ => (None, 0),
            };
            if won {
                UpsertAction::Success(old, new)
            } else {
                UpsertAction::Discard(new, node)
            }
        },
        UpsertEvent::Replaced(won, allocated) => {
            if won {
                UpsertAction::RetireAndTraverse
            } else if allocated {
                UpsertAction::FreeAndTraverse
            } else {
                UpsertAction::Traverse
            }
        },
    }
}

/// What loading the edge above an emptied node reported, during a
/// removal that collapses empty nodes.
#[derive(Clone, Copy, Debug, PartialEq, Eq, Structural)]
pub enum Probe {
    /// The prefix is no longer in the tree.
    Missing,
    /// The edge is frozen.
    Frozen,
    /// The edge has no child.
    Empty,
    /// The edge still leads to the emptied node.
    Target,
    /// The edge leads to another node.
    Other,
}

/// Next action of a removal.
#[derive(Clone, Copy, Debug)]
pub enum RemoveAction {
    /// Traverse to the key's value.
    Traverse,
    /// Freeze the frozen node in the way.
    Freeze,
    /// Retire the node that the freeze replaced, then traverse.
    RetireAndTraverse,
    /// Call the closure on the old value.
    Ask(u64),
    /// Exchange the edge that holds the value for the null edge.
    Exchange(u64),
    /// Pop the node above from the path; the removed value, and the bits
    /// of the edge just cleared or collapsed.
    Pop(u64, Bit<56>),
    /// Retire the collapsed node, then pop the node above.
    RetireAndPop(u64, Bit<56>),
    /// Trim the cursor back past the popped node's byte and the edge's
    /// bits, then load the edge above the popped node.
    TrimAndProbe(u64, Bit<56>),
    /// Load the edge above the popped node again.
    Probe(u64),
    /// Freeze the frozen node above the popped node.
    FreezeInPath(u64),
    /// Retire the node that the freeze replaced, then load again.
    RetireAndProbe(u64),
    /// Freeze the emptied node, build its replacement and exchange it in.
    Collapse(u64),
    /// The collapse was lost: free the node allocated for it, then load
    /// again.
    FreeAndProbe(u64),
    /// Return: the key has no value.
    Absent,
    /// Return: the freeze failed; retry with the path kept.
    Failed,
    /// Return: the closure declined; the old value.
    Break(u64),
    /// Return: the removed value.
    Success(u64),
}

/// What the last action of a removal reported.
#[derive(Clone, Copy, Debug)]
pub enum RemoveEvent {
    /// What the traversal found.
    Traversed(Found),
    /// What the freeze did.
    Froze(Froze),
    /// Whether the closure agreed to the removal.
    Chose(bool),
    /// Whether the exchange won, and the bits of the edge it cleared.
    Exchanged(bool, Bit<56>),
    /// The number of children of the popped node, or `None` at the root.
    Popped(Option<usize>),
    /// What the load found.
    Probed(Probe),
    /// Whether the collapse's exchange won, whether it allocated a node,
    /// and the bits of the edge it replaced.
    Replaced(bool, bool, Bit<56>),
}

/// Whether `event` is what `last` reports. A freeze on the way back up
/// cannot fail: the path is kept.
pub open spec fn remove_expects(last: RemoveAction, event: RemoveEvent) -> bool {
    match last {
        RemoveAction::Traverse | RemoveAction::RetireAndTraverse => event is Traversed,
        RemoveAction::Freeze => event is Froze,
        RemoveAction::Ask(_) => event is Chose,
        RemoveAction::Exchange(_) => event is Exchanged,
        RemoveAction::Pop(_, _) | RemoveAction::RetireAndPop(_, _) => event is Popped,
        RemoveAction::TrimAndProbe(_, _) | RemoveAction::Probe(_) | RemoveAction::RetireAndProbe(_)
        | RemoveAction::FreeAndProbe(_) => event is Probed,
        RemoveAction::FreezeInPath(_) => event is Froze && event != RemoveEvent::Froze(
            Froze::Failed,
        ),
        RemoveAction::Collapse(_) => event is Replaced,
        _ => false,
    }
}

/// The removed value that `last` carries.
pub open spec fn removed(last: RemoveAction) -> u64 {
    match last {
        RemoveAction::Ask(v) | RemoveAction::Exchange(v) | RemoveAction::Pop(v, _)
        | RemoveAction::RetireAndPop(v, _) | RemoveAction::TrimAndProbe(v, _) | RemoveAction::Probe(
            v,
        ) | RemoveAction::FreezeInPath(v) | RemoveAction::RetireAndProbe(v) | RemoveAction::Collapse(
            v,
        ) | RemoveAction::FreeAndProbe(v) => v,
        _ => 0,
    }
}

/// The action of a removal after `last` reported `event`; `recursive`
/// tells whether emptied nodes are collapsed on the way back up.
pub open spec fn remove_next(recursive: bool, last: RemoveAction, event: RemoveEvent) -> RemoveAction {
    let v = removed(last);
    match event {
        RemoveEvent::Traversed(Found::Missing) => RemoveAction::Absent,
        RemoveEvent::Traversed(Found::Value(old)) => RemoveAction::Ask(old),
        RemoveEvent::Traversed(Found::Frozen) => RemoveAction::Freeze,
        RemoveEvent::Froze(f) => if last is FreezeInPath {
            if f == Froze::Retire {
                RemoveAction::RetireAndProbe(v)
            } else {
                RemoveAction::Probe(v)
            }
        } else {
            match f {
                Froze::Failed => RemoveAction::Failed,
                Froze::Unchanged => RemoveAction::Traverse,
                Froze::Retire => RemoveAction::RetireAndTraverse,
            }
        },
        RemoveEvent::Chose(agreed) => if agreed {
            RemoveAction::Exchange(v)
        } else {
            RemoveAction::Break(v)
        },
        RemoveEvent::Exchanged(won, len) => if !won {
            RemoveAction::Traverse
        } else if recursive {
            RemoveAction::Pop(v, len)
        } else {
            RemoveAction::Success(v)
        },
        RemoveEvent::Popped(children) => match (last, children) {
            (RemoveAction::Pop(_, trim), Some(0)) => RemoveAction::TrimAndProbe(v, trim),
            (RemoveAction::RetireAndPop(_, trim), Some(0)) => RemoveAction::TrimAndProbe(v, trim),
            _ => RemoveAction::Success(v),
        },
        RemoveEvent::Probed(p) => match p {
            Probe::Frozen => RemoveAction::FreezeInPath(v),
            Probe::Target => RemoveAction::Collapse(v),
            _ => RemoveAction::Success(v),
        },
        RemoveEvent::Replaced(won, allocated, len) => if won {
            RemoveAction::RetireAndPop(v, len)
        } else if allocated {
            RemoveAction::FreeAndProbe(v)
        } else {
            RemoveAction::Probe(v)
        },
    }
}

/// Next action of a removal, after `last` reported `event`: a found value
/// goes to the closure and, if it agrees, is exchanged for the null edge;
/// a frozen edge is frozen up the path; a lost exchange retries. When
/// `recursive`, the removal then walks back up the path, collapsing each
/// node it left without children, and stops at the first node that keeps
/// a child, at the root, or when the tree above changed meanwhile.
pub fn remove_step(recursive: bool, last: RemoveAction, event: RemoveEvent) -> (r: RemoveAction)
    requires
        remove_expects(last, event),
    ensures
        r == remove_next(recursive, last, event),
        r matches RemoveAction::Break(old) ==> last == RemoveAction::Ask(old),
        r matches RemoveAction::Success(old) ==> !(last is Traverse) && !(last is RetireAndTraverse)
            && !(last is Freeze) && old == removed(last),
{
    let v: u64 = match last {
        RemoveAction::Ask(v) | RemoveAction::Exchange(v) | RemoveAction::Pop(v, _)
        | RemoveAction::RetireAndPop(v, _) | RemoveAction::TrimAndProbe(v, _) | RemoveAction::Probe(
            v,
        ) | RemoveAction::FreezeInPath(v) | RemoveAction::RetireAndProbe(v) | RemoveAction::Collapse(
            v,
        ) | RemoveAction::FreeAndProbe(v) => v,
        _ => 0,
    };
    match event {
        RemoveEvent::Traversed(found) => match found {
            Found::Missing => RemoveAction::Absent,
            Found::Value(old) => RemoveAction::Ask(old),
            Found::Frozen => RemoveAction::Freeze,
        },
        RemoveEvent::Froze(froze) => {
            let in_path = match last {
                RemoveAction::FreezeInPath(_) => true,
                _ => false,
            };
            match froze {
                Froze::Failed => RemoveAction::Failed,
                Froze::Unchanged => if in_path {
                    RemoveAction::Probe(v)
                } else {
                    RemoveAction::Traverse
                },
                Froze::Retire => if in_path {
                    RemoveAction::RetireAndProbe(v)
                } else {
                    RemoveAction::RetireAndTraverse
                },
            }
        },
        RemoveEvent::Chose(agreed) => if agreed {
            RemoveAction::Exchange(v)
        } else {
            RemoveAction::Break(v)
        },
        RemoveEvent::Exchanged(won, len) => if !won {
            RemoveAction::Traverse
        } else if recursive {
            RemoveAction::Pop(v, len)
        } else {
            RemoveAction::Success(v)
        },
        RemoveEvent::Popped(children) => {
            let trim = match last {
                RemoveAction::Pop(_, trim) | RemoveAction::RetireAndPop(_, trim) => trim,
                _ => Bit::zero(),
            };
            match children {
                Some(n) => if n == 0 {
                    RemoveAction::TrimAndProbe(v, trim)
                } else {
                    RemoveAction::Success(v)
                },
                None => RemoveAction::Success(v),
            }
        },
        RemoveEvent::Probed(p) => match p {
            Probe::Frozen => RemoveAction::FreezeInPath(v),
            Probe::Target => RemoveAction::Collapse(v),
            _ => RemoveAction::Success(v),
        },
        RemoveEvent::Replaced(won, allocated, len) => if won {
            RemoveAction::RetireAndPop(v, len)
        } else if allocated {
            RemoveAction::FreeAndProbe(v)
        } else {
            RemoveAction::Probe(v)
        },
    }
}

/// The action an update comes to when its actions, from the first
/// traversal on, reported `events` in turn.
pub open spec fn update_run(events: Seq<UpdateEvent>) -> UpdateAction
    decreases events.len(),
{
    if events.len() == 0 {
        UpdateAction::Traverse
    } else {
        update_next(update_run(events.drop_last()), events.last())
    }
}

/// The value that the last traversal among `events` to find one found.
pub open spec fn update_last_found(events: Seq<UpdateEvent>) -> Option<u64>
    decreases events.len(),
{
    if events.len() == 0 {
        None
    } else {
        match events.last() {
            UpdateEvent::Traversed(Found::Value(old)) => Some(old),
            _ => update_last_found(events.drop_last()),
        }
    }
}

/// The value that the closure chose last among `events`.
pub open spec fn update_last_chosen(events: Seq<UpdateEvent>) -> Option<u64>
    decreases events.len(),
{
    if events.len() == 0 {
        None
    } else {
        match events.last() {
            UpdateEvent::Chose(Some(new)) => Some(new),
            _ => update_last_chosen(events.drop_last()),
        }
    }
}

/// An update hands the closure the value its last traversal found, and
/// reports that value as the old one, whether it succeeds or the closure
/// declines; it exchanges in, and reports as the new value, the value the
/// closure chose last.
pub proof fn law_update_reports_found_value(events: Seq<UpdateEvent>)
    ensures
        update_run(events) matches UpdateAction::Ask(old) ==> update_last_found(events) == Some(old),
        update_run(events) matches UpdateAction::Exchange(old, new) ==> update_last_found(events)
            == Some(old) && update_last_chosen(events) == Some(new),
        update_run(events) matches UpdateAction::Success(old, new) ==> update_last_found(events)
            == Some(old) && update_last_chosen(events) == Some(new),
        update_run(events) matches UpdateAction::Break(old) ==> update_last_found(events) == Some(
            old,
        ),
        update_run(events) matches UpdateAction::RestoreAndTraverse(new) ==> update_last_chosen(
            events,
        ) == Some(new),
    decreases events.len(),
{
    if events.len() > 0 {
        law_update_reports_found_value(events.drop_last());
    }
}

/// The action an upsert comes to when its actions, from the first
/// traversal on, reported `events` in turn.
pub open spec fn upsert_run(events: Seq<UpsertEvent>) -> UpsertAction
    decreases events.len(),
{
    if events.len() == 0 {
        UpsertAction::Traverse
    } else {
        upsert_next(upsert_run(events.drop_last()), events.last())
    }
}

/// What the last traversal among `events` to reach the key's place saw
/// there: the key's old value, if it had one.
pub open spec fn upsert_last_seen(events: Seq<UpsertEvent>) -> Option<Option<u64>>
    decreases events.len(),
{
    if events.len() == 0 {
        None
    } else {
        match events.last() {
            UpsertEvent::Traversed(Seen::Value(old)) => Some(old),
            _ => upsert_last_seen(events.drop_last()),
        }
    }
}

/// The value that the closure chose last among `events`.
pub open spec fn upsert_last_chosen(events: Seq<UpsertEvent>) -> Option<u64>
    decreases events.len(),
{
    if events.len() == 0 {
        None
    } else {
        match events.last() {
            UpsertEvent::Chose(Some(new)) => Some(new),
            _ => upsert_last_chosen(events.drop_last()),
        }
    }
}

/// An upsert hands the closure the key's value that its last traversal saw
/// (`Some(v)` for a key that holds `v`, `None` for a missing one), and
/// reports that value as the old one, whether it succeeds or the closure
/// declines; it builds, exchanges in and reports as the new value the value
/// the closure chose last, and gives that value back when it retries.
pub proof fn law_upsert_reports_seen_value(events: Seq<UpsertEvent>)
    ensures
        upsert_run(events) matches UpsertAction::Ask(old) ==> upsert_last_seen(events) == Some(old),
        upsert_run(events) matches UpsertAction::CreatePath(old, new) ==> upsert_last_seen(events)
            == Some(old) && upsert_last_chosen(events) == Some(new),
        upsert_run(events) matches UpsertAction::Exchange(old, new) ==> upsert_last_seen(events)
            == Some(old) && upsert_last_chosen(events) == Some(new),
        upsert_run(events) matches UpsertAction::Success(old, new) ==> upsert_last_seen(events)
            == Some(old) && upsert_last_chosen(events) == Some(new),
        upsert_run(events) matches UpsertAction::Break(old) ==> upsert_last_seen(events) == Some(
            old,
        ),
        upsert_run(events) matches UpsertAction::RestoreAndFreeze(new) ==> upsert_last_chosen(events)
            == Some(new),
        upsert_run(events) matches UpsertAction::Discard(new, _) ==> upsert_last_chosen(events)
            == Some(new),
    decreases events.len(),
{
    if events.len() > 0 {
        law_upsert_reports_seen_value(events.drop_last());
    }
}

/// The action a removal comes to when its actions, from the first
/// traversal on, reported `events` in turn.
pub open spec fn remove_run(recursive: bool, events: Seq<RemoveEvent>) -> RemoveAction
    decreases events.len(),
{
    if events.len() == 0 {
        RemoveAction::Traverse
    } else {
        remove_next(recursive, remove_run(recursive, events.drop_last()), events.last())
    }
}

/// Whether each of `events` is what the action before it reports.
pub open spec fn remove_trace(recursive: bool, events: Seq<RemoveEvent>) -> bool
    decreases events.len(),
{
    events.len() == 0 || (remove_trace(recursive, events.drop_last()) && remove_expects(
        remove_run(recursive, events.drop_last()),
        events.last(),
    ))
}

/// The value that the last traversal among `events` to find one found.
pub open spec fn remove_last_found(events: Seq<RemoveEvent>) -> Option<u64>
    decreases events.len(),
{
    if events.len() == 0 {
        None
    } else {
        match events.last() {
            RemoveEvent::Traversed(Found::Value(old)) => Some(old),
            _ => remove_last_found(events.drop_last()),
        }
    }
}

/// The value that an action of a removal is about: the one it removes or
/// reports (none before a value is found).
pub open spec fn carried(a: RemoveAction) -> Option<u64> {
    match a {
        RemoveAction::Traverse | RemoveAction::Freeze | RemoveAction::RetireAndTraverse
        | RemoveAction::Absent | RemoveAction::Failed => None,
        RemoveAction::Break(v) | RemoveAction::Success(v) => Some(v),
        _ => Some(removed(a)),
    }
}

/// A removal hands the closure the value its last traversal found, removes
/// that value, and reports it, whether it succeeds (after any collapse of
/// emptied nodes) or the closure declines.
pub proof fn law_remove_reports_found_value(recursive: bool, events: Seq<RemoveEvent>)
    requires
        remove_trace(recursive, events),
    ensures
        carried(remove_run(recursive, events)) is Some ==> remove_last_found(events) == carried(
            remove_run(recursive, events),
        ),
    decreases events.len(),
{
    if events.len() > 0 {
        law_remove_reports_found_value(recursive, events.drop_last());
    }
}

} // verus!
