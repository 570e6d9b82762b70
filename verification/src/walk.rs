//! The range walk below the root: a stack of nodes, each with the entries
//! (key byte and slot) still to visit between its byte bounds.
//!
//! The walk alternates shared-memory work, which belongs to the caller
//! (asking a node for its entries between two bytes, loading the edge in a
//! slot and recording its key bytes, handing a value out), with decisions.
//! [`walk_next`] takes the action it asked for last and what it reported,
//! and names the next action. Entries are taken from the front of the top
//! node when the walk ascends and from the back when it descends, so with
//! entries listed in ascending order of key byte, the walk visits key
//! bytes in its order; a node that offers a single entry is walked through
//! without being pushed.

use vstd::prelude::*;

use crate::edge::Edge;
use crate::edge::Le;
use crate::iter::bound_fits;
use crate::iter::bound_key;
use crate::iter::walk_step;
use crate::iter::walk_step_spec;
use crate::iter::Include;
use crate::iter::WalkStep;
use crate::key::Terminate;
use crate::node::iter::KeyIter;
use crate::node::KeyIndex;

verus! {

/// A node on the walk's stack: the length of the key written down to it,
/// the node, its byte bounds, and its entries still to visit.
pub struct WalkFrame {
    pub len: usize,
    pub node: u64,
    pub lower: Option<u8>,
    pub upper: Option<u8>,
    pub entries: KeyIter,
}

/// What a stack frame means.
pub ghost struct FrameView {
    pub len: usize,
    pub node: u64,
    pub lower: Option<u8>,
    pub upper: Option<u8>,
    pub entries: Seq<KeyIndex>,
}

impl View for WalkFrame {
    type V = FrameView;

    open spec fn view(&self) -> FrameView {
        FrameView {
            len: self.len,
            node: self.node,
            lower: self.lower,
            upper: self.upper,
            entries: self.entries@,
        }
    }
}

/// What the stack means: its frames, bottom first.
pub open spec fn stack_view(stack: Seq<WalkFrame>) -> Seq<FrameView> {
    stack.map_values(|f: WalkFrame| f@)
}

/// Next action of a range walk.
#[derive(Clone, Copy, Debug, PartialEq, Eq, Structural)]
pub enum WalkAction {
    /// Ask `node` for its entries between the byte bounds, for a node
    /// reached at key length `len`; a single entry is walked through
    /// (when the last field is set) without pushing the node.
    Entries(u64, usize, Option<u8>, Option<u8>, bool),
    /// Load the edge in slot `index` of `node`, reached by key byte `byte`
    /// at key length `len`, record the byte and the edge's key bytes from
    /// `len` on, and report the new length; the node's byte bounds follow.
    Load(u64, u8, u8, usize, Option<u8>, Option<u8>),
    /// Hand out the value, its key written up to the length, and report
    /// whether to go on.
    Yield(u64, usize),
    /// The walk is over.
    Done,
}

/// What the last action of a walk reported.
pub enum WalkEvent {
    /// The node's entries between the byte bounds, in the order to walk.
    Entries(Vec<KeyIndex>),
    /// The loaded edge, and the key length once it is recorded.
    Loaded(Edge<Le>, usize),
    /// Whether the walk goes on after a value.
    Resumed(bool),
}

/// Whether `event` is what `last` reports.
pub open spec fn walk_expects(last: WalkAction, event: WalkEvent) -> bool {
    match last {
        WalkAction::Entries(..) => event is Entries,
        WalkAction::Load(..) => event is Loaded,
        WalkAction::Yield(..) => event is Resumed,
        WalkAction::Done => false,
    }
}

/// Where the walk goes from the top of `stack`: drop nodes with no entry
/// left, and take the next entry of the first node that has one (the
/// front one when ascending, the back one when descending).
pub open spec fn vertical(ascend: bool, stack: Seq<FrameView>) -> (Seq<FrameView>, WalkAction)
    decreases stack.len(),
{
    if stack.len() == 0 {
        (stack, WalkAction::Done)
    } else {
        let f = stack.last();
        if f.entries.len() == 0 {
            vertical(ascend, stack.drop_last())
        } else {
            let e = if ascend {
                f.entries[0]
            } else {
                f.entries.last()
            };
            let rest = if ascend {
                f.entries.drop_first()
            } else {
                f.entries.drop_last()
            };
            (
                stack.drop_last().push(FrameView { entries: rest, ..f }),
                WalkAction::Load(f.node, e.index, e.key, f.len, f.lower, f.upper),
            )
        }
    }
}

/// Take the next entry from the top of the stack, dropping the nodes that
/// have none left.
fn next_entry(ascend: bool, stack: &mut Vec<WalkFrame>) -> (r: WalkAction)
    ensures
        (stack_view(final(stack)@), r) == vertical(ascend, stack_view(old(stack)@)),
{
    loop
        invariant
            vertical(ascend, stack_view(stack@)) == vertical(ascend, stack_view(old(stack)@)),
        decreases stack@.len(),
    {
        let ghost before = stack@;
        match stack.pop() {
            None => {
                assert(stack_view(before) =~= Seq::<FrameView>::empty());
                return WalkAction::Done;
            },
            Some(mut frame) => {
                proof {
                    assert(stack_view(before).last() == frame@);
                    assert(stack_view(before).drop_last() =~= stack_view(stack@));
                }
                let next = if ascend {
                    frame.entries.next()
                } else {
                    frame.entries.next_back()
                };
                match next {
                    None => {},
                    Some(e) => {
                        let r = WalkAction::Load(
                            frame.node,
                            e.index,
                            e.key,
                            frame.len,
                            frame.lower,
                            frame.upper,
                        );
                        let ghost f = frame@;
                        stack.push(frame);
                        proof {
                            assert(stack_view(stack@) =~= stack_view(before).drop_last().push(f));
                        }
                        return r;
                    },
                }
            },
        }
    }
}

/// The stack and action of a walk after `last` reported `event`, and what
/// remains of the range bounds' keys; `lower_key` and `upper_key` are the
/// bounds' keys before.
pub open spec fn walk_next_spec(
    ascend: bool,
    stack: Seq<FrameView>,
    lower_key: Seq<u8>,
    has_lower: bool,
    upper_key: Seq<u8>,
    has_upper: bool,
    last: WalkAction,
    event: WalkEvent,
) -> (Seq<FrameView>, WalkAction, Seq<u8>, Seq<u8>) {
    match (last, event) {
        (WalkAction::Entries(node, len, lb, ub, flatten), WalkEvent::Entries(es)) => {
            if flatten && es@.len() == 1 {
                (
                    stack,
                    WalkAction::Load(node, es@[0].index, es@[0].key, len, lb, ub),
                    lower_key,
                    upper_key,
                )
            } else {
                let (s, a) = vertical(
                    ascend,
                    stack.push(FrameView { len, node, lower: lb, upper: ub, entries: es@ }),
                );
                (s, a, lower_key, upper_key)
            }
        },
        (WalkAction::Load(_, _, byte, _, lb, ub), WalkEvent::Loaded(edge, new_len)) => {
            let (step, lk, uk) = walk_step_spec(
                ascend,
                lower_key,
                has_lower,
                upper_key,
                has_upper,
                lb,
                ub,
                byte,
                edge@,
            );
            match step {
                WalkStep::Skip => {
                    let (s, a) = vertical(ascend, stack);
                    (s, a, lk, uk)
                },
                WalkStep::Stop => (Seq::empty(), WalkAction::Done, lk, uk),
                WalkStep::Value(v) => (stack, WalkAction::Yield(v, new_len), lk, uk),
                WalkStep::Node(child, l2, u2) => (
                    stack,
                    WalkAction::Entries(child, new_len, l2, u2, true),
                    lk,
                    uk,
                ),
            }
        },
        (WalkAction::Yield(..), WalkEvent::Resumed(go)) => {
            if go {
                let (s, a) = vertical(ascend, stack);
                (s, a, lower_key, upper_key)
            } else {
                (Seq::empty(), WalkAction::Done, lower_key, upper_key)
            }
        },
        _ => (stack, WalkAction::Done, lower_key, upper_key),
    }
}

/// Next action of a range walk (ascending if `ascend`), after `last`
/// reported `event`: a node's entries are pushed (or walked through, if
/// there is one), a loaded edge is checked against the range bounds and
/// either skipped, ends the walk, hands out its value or leads into its
/// node, and after a value the walk goes on or stops as the consumer says.
pub fn walk_next<'k, T: Terminate>(
    ascend: bool,
    stack: &mut Vec<WalkFrame>,
    lower: &mut Option<Include<'k, T>>,
    upper: &mut Option<Include<'k, T>>,
    last: WalkAction,
    event: WalkEvent,
) -> (r: WalkAction)
    requires
        walk_expects(last, event),
        bound_fits(*old(lower)),
        bound_fits(*old(upper)),
    ensures
        bound_fits(*final(lower)),
        bound_fits(*final(upper)),
        (*final(lower) is Some) == (*old(lower) is Some),
        (*final(upper) is Some) == (*old(upper) is Some),
        (stack_view(final(stack)@), r, bound_key(*final(lower)), bound_key(*final(upper)))
            == walk_next_spec(
            ascend,
            stack_view(old(stack)@),
            bound_key(*old(lower)),
            *old(lower) is Some,
            bound_key(*old(upper)),
            *old(upper) is Some,
            last,
            event,
        ),
{
    match event {
        WalkEvent::Entries(es) => {
            let (node, len, lb, ub, flatten) = match last {
                WalkAction::Entries(node, len, lb, ub, flatten) => (node, len, lb, ub, flatten),
                _ => (0, 0, None, None, false),
            };
            if flatten && es.len() == 1 {
                let e = es[0];
                return WalkAction::Load(node, e.index, e.key, len, lb, ub);
            }
            let ghost es_v = es@;
            let frame = WalkFrame { len, node, lower: lb, upper: ub, entries: KeyIter::new(es) };
            let ghost before = stack@;
            stack.push(frame);
            proof {
                assert(stack_view(stack@) =~= stack_view(before).push(
                    FrameView { len, node, lower: lb, upper: ub, entries: es_v },
                ));
            }
            next_entry(ascend, stack)
        },
        WalkEvent::Loaded(edge, new_len) => {
            let (byte, lb, ub) = match last {
                WalkAction::Load(_, _, byte, _, lb, ub) => (byte, lb, ub),
                _ => (0, None, None),
            };
            match walk_step(ascend, lower, upper, lb, ub, byte, edge) {
                WalkStep::Skip => next_entry(ascend, stack),
                WalkStep::Stop => {
                    stack.clear();
                    assert(stack_view(stack@) =~= Seq::<FrameView>::empty());
                    WalkAction::Done
                },
                WalkStep::Value(v) => WalkAction::Yield(v, new_len),
                WalkStep::Node(child, l2, u2) => WalkAction::Entries(child, new_len, l2, u2, true),
            }
        },
        WalkEvent::Resumed(go) => {
            if go {
                next_entry(ascend, stack)
            } else {
                stack.clear();
                assert(stack_view(stack@) =~= Seq::<FrameView>::empty());
                WalkAction::Done
            }
        },
    }
}

/// Whether the entries come in ascending order of key byte.
pub open spec fn ascending(entries: Seq<KeyIndex>) -> bool {
    forall|i: int, j: int| 0 <= i < j < entries.len() ==> entries[i].key < entries[j].key
}

/// The walk visits the entries of a node in its order: taking the next
/// entry of a node whose entries ascend by key byte yields a byte below
/// every entry left to it when ascending, and above every one when
/// descending, and what is left still ascends.
pub proof fn law_walk_visits_in_order(ascend: bool, stack: Seq<FrameView>)
    requires
        stack.len() > 0,
        stack.last().entries.len() > 0,
        ascending(stack.last().entries),
    ensures
        ({
            let (s, a) = vertical(ascend, stack);
            &&& a matches WalkAction::Load(_, _, byte, _, _, _) && forall|i: int|
                0 <= i < s.last().entries.len() ==> (if ascend {
                    byte < #[trigger] s.last().entries[i].key
                } else {
                    s.last().entries[i].key < byte
                })
            &&& ascending(s.last().entries)
            &&& s.drop_last() == stack.drop_last()
        }),
{
    let f = stack.last();
    let (s, a) = vertical(ascend, stack);
    if ascend {
        assert forall|i: int| 0 <= i < s.last().entries.len() implies f.entries[0].key
            < #[trigger] s.last().entries[i].key by {
            assert(s.last().entries[i] == f.entries[i + 1]);
        }
    } else {
        assert forall|i: int| 0 <= i < s.last().entries.len() implies #[trigger] s.last().entries[i].key
            < f.entries.last().key by {
            assert(s.last().entries[i] == f.entries[i]);
        }
    }
    assert(s.drop_last() =~= stack.drop_last());
}

} // verus!
