//! Post-order walk over a tree: every child of a node is visited before
//! the node itself.
//!
//! Each edge below a node is handed out twice by a [`RepeatIter`]: first
//! to descend into the node below it, then to visit the edge once that
//! node is done. An edge leading to a value is visited at once.

use vstd::prelude::*;

use crate::edge::Child;
use crate::edge::Edge;
use crate::edge::Le;

verus! {

/// What a [`RepeatIter`] means.
pub ghost struct RepeatView {
    /// Whether the next call moves on to the next edge.
    pub first: bool,
    /// Address of the edge handed out last.
    pub edge: usize,
    /// Addresses of the edges below the node, in order.
    pub edges: Seq<usize>,
    /// Number of edges taken so far.
    pub pos: nat,
}

/// Hands out each edge below a node twice: once flagged as the first time.
pub struct RepeatIter {
    first: bool,
    edge: usize,
    edges: Vec<usize>,
    pos: usize,
}

impl View for RepeatIter {
    type V = RepeatView;

    closed spec fn view(&self) -> RepeatView {
        RepeatView { first: self.first, edge: self.edge, edges: self.edges@, pos: self.pos as nat }
    }
}

impl RepeatIter {
    /// Well-formedness: no more edges are taken than there are.
    pub closed spec fn wf(self) -> bool {
        self.pos <= self.edges@.len()
    }

    /// An iterator over the edges at addresses `edges`, none taken yet.
    pub fn new(edges: Vec<usize>) -> (r: Self)
        ensures
            r.wf(),
            r@ == (RepeatView { first: true, edge: 0, edges: edges@, pos: 0 }),
    {
        RepeatIter { first: true, edge: 0, edges, pos: 0 }
    }

    /// The next edge and whether it is handed out for the first time: a new
    /// edge after a repeat, else the last edge again; `None` when a new
    /// edge is due and none is left.
    pub fn next(&mut self) -> (r: Option<(bool, usize)>)
        requires
            old(self).wf(),
        ensures
            final(self).wf(),
            final(self)@.first == !old(self)@.first,
            final(self)@.edges == old(self)@.edges,
            old(self)@.first && old(self)@.pos < old(self)@.edges.len() ==> {
                &&& r == Some((true, old(self)@.edges[old(self)@.pos as int]))
                &&& final(self)@.edge == old(self)@.edges[old(self)@.pos as int]
                &&& final(self)@.pos == old(self)@.pos + 1
            },
            old(self)@.first && old(self)@.pos == old(self)@.edges.len() ==> r is None
                && final(self)@.edge == old(self)@.edge && final(self)@.pos == old(self)@.pos,
            !old(self)@.first ==> r == Some((false, old(self)@.edge)) && final(self)@.edge == old(
                self,
            )@.edge && final(self)@.pos == old(self)@.pos,
    {
        let first = self.first;
        self.first = !first;
        if first {
            if self.pos >= self.edges.len() {
                return None;
            }
            self.edge = self.edges[self.pos];
            self.pos = self.pos + 1;
        }
        Some((first, self.edge))
    }

    /// Move on to the next edge at the next call.
    pub fn skip(&mut self)
        ensures
            final(self)@ == (RepeatView { first: true, ..old(self)@ }),
            old(self).wf() ==> final(self).wf(),
    {
        self.first = true;
    }
}

/// Decision of a post-order walk at an edge handed out by a
/// [`RepeatIter`] (for the first time if `first`) and loaded as `edge`.
#[derive(Clone, Copy, Debug, PartialEq, Eq, Structural)]
pub enum PostStep {
    /// The edge has no child: move on.
    Skip,
    /// Walk the children of the node below first.
    Descend(u64),
    /// Visit the edge now (and move the iterator on to the next edge).
    Visit,
}

/// Decision of a post-order walk at `edge`: skip it if it has no child;
/// descend into its node the first time; else visit it.
pub fn post_step(first: bool, edge: Edge<Le>) -> (r: PostStep)
    ensures
        r == if !edge@.meta.value && edge@.child == 0 {
            PostStep::Skip
        } else if first && !edge@.meta.value {
            PostStep::Descend(edge@.child)
        } else {
            PostStep::Visit
        },
{
    match edge.child() {
        None => PostStep::Skip,
        Some(Child::Node(node)) if first => PostStep::Descend(node),
        Some(_) => PostStep::Visit,
    }
}

/// What the next call of [`RepeatIter::next`] gives on an iterator that
/// means `v`, and what the iterator then means.
pub open spec fn repeat_next(v: RepeatView) -> (Option<(bool, usize)>, RepeatView) {
    if v.first {
        if v.pos < v.edges.len() {
            (
                Some((true, v.edges[v.pos as int])),
                RepeatView { first: false, edge: v.edges[v.pos as int], pos: v.pos + 1, ..v },
            )
        } else {
            (None, RepeatView { first: false, ..v })
        }
    } else {
        (Some((false, v.edge)), RepeatView { first: true, ..v })
    }
}

/// Next action of a post-order walk.
#[derive(Clone, Copy, Debug)]
pub enum PostAction {
    /// Load the edge at this address; the flag tells whether it is handed
    /// out for the first time.
    Load(usize, bool),
    /// Ask the node for the addresses of its edges, in order.
    Entries(u64),
    /// Visit the loaded edge, then report it visited.
    Visit(Edge<Le>),
    /// The walk is over.
    Done,
}

/// What the last action of a post-order walk reported.
pub enum PostEvent {
    /// The loaded edge.
    Loaded(Edge<Le>),
    /// The addresses of the node's edges, in order.
    Entries(Vec<usize>),
    /// The edge was visited.
    Visited,
}

/// Whether `event` is what `last` reports.
pub open spec fn post_expects(last: PostAction, event: PostEvent) -> bool {
    match last {
        PostAction::Load(..) => event is Loaded,
        PostAction::Entries(..) => event is Entries,
        PostAction::Visit(..) => event is Visited,
        PostAction::Done => false,
    }
}

/// What a stack of repeat iterators means, bottom first.
pub open spec fn repeat_stack(stack: Seq<RepeatIter>) -> Seq<RepeatView> {
    stack.map_values(|r: RepeatIter| r@)
}

/// Whether every iterator on the stack is well formed.
pub open spec fn stack_wf(stack: Seq<RepeatIter>) -> bool {
    forall|i: int| 0 <= i < stack.len() ==> (#[trigger] stack[i]).wf()
}

/// Where the walk goes from the top of `stack`: drop iterators with no
/// edge left, and take the next (or repeated) edge of the first that has
/// one.
pub open spec fn post_vertical(stack: Seq<RepeatView>) -> (Seq<RepeatView>, PostAction)
    decreases stack.len(),
{
    if stack.len() == 0 {
        (stack, PostAction::Done)
    } else {
        let (next, top) = repeat_next(stack.last());
        match next {
            None => post_vertical(stack.drop_last()),
            Some((first, edge)) => (stack.drop_last().push(top), PostAction::Load(edge, first)),
        }
    }
}

/// Take the next edge from the top of the stack, dropping the iterators
/// that have none left.
fn post_next_edge(stack: &mut Vec<RepeatIter>) -> (r: PostAction)
    requires
        stack_wf(old(stack)@),
    ensures
        stack_wf(final(stack)@),
        (repeat_stack(final(stack)@), r) == post_vertical(repeat_stack(old(stack)@)),
{
    loop
        invariant
            stack_wf(stack@),
            post_vertical(repeat_stack(stack@)) == post_vertical(repeat_stack(old(stack)@)),
        decreases stack@.len(),
    {
        let ghost before = stack@;
        match stack.pop() {
            None => {
                assert(repeat_stack(before) =~= Seq::<RepeatView>::empty());
                return PostAction::Done;
            },
            Some(mut top) => {
                proof {
                    assert(repeat_stack(before).last() == top@);
                    assert(repeat_stack(before).drop_last() =~= repeat_stack(stack@));
                    assert(before.last() == top);
                    assert(stack_wf(stack@)) by {
                        assert forall|i: int| 0 <= i < stack@.len() implies (#[trigger] stack@[i]).wf() by {
                            assert(stack@[i] == before[i]);
                        }
                    }
                }
                match top.next() {
                    None => {},
                    Some((first, edge)) => {
                        let ghost t = top@;
                        stack.push(top);
                        proof {
                            assert(repeat_stack(stack@) =~= repeat_stack(before).drop_last().push(t));
                            assert forall|i: int| 0 <= i < stack@.len() implies (#[trigger] stack@[i]).wf() by {
                                if i < stack@.len() - 1 {
                                    assert(stack@[i] == before[i]);
                                }
                            }
                        }
                        return PostAction::Load(edge, first);
                    },
                }
            },
        }
    }
}

/// The stack and action of a post-order walk after `last` reported
/// `event`.
pub open spec fn post_next_spec(stack: Seq<RepeatView>, last: PostAction, event: PostEvent) -> (
    Seq<RepeatView>,
    PostAction,
) {
    match (last, event) {
        (PostAction::Load(_, first), PostEvent::Loaded(edge)) => {
            if !edge@.meta.value && edge@.child == 0 {
                post_vertical(stack)
            } else if first && !edge@.meta.value {
                (stack, PostAction::Entries(edge@.child))
            } else {
                (
                    if stack.len() == 0 {
                        stack
                    } else {
                        stack.drop_last().push(RepeatView { first: true, ..stack.last() })
                    },
                    PostAction::Visit(edge),
                )
            }
        },
        (PostAction::Entries(_), PostEvent::Entries(es)) => {
            if es@.len() == 1 {
                (stack, PostAction::Load(es@[0], true))
            } else {
                post_vertical(stack.push(RepeatView { first: true, edge: 0, edges: es@, pos: 0 }))
            }
        },
        (PostAction::Visit(_), PostEvent::Visited) => post_vertical(stack),
        _ => (stack, PostAction::Done),
    }
}

/// Next action of a post-order walk, after `last` reported `event`: an
/// edge without a child is passed over, a node is entered the first time
/// its edge comes up (walked through if it has a single edge, else pushed),
/// and an edge is visited once everything below it is done.
pub fn post_next(stack: &mut Vec<RepeatIter>, last: PostAction, event: PostEvent) -> (r: PostAction)
    requires
        stack_wf(old(stack)@),
        post_expects(last, event),
    ensures
        stack_wf(final(stack)@),
        (repeat_stack(final(stack)@), r) == post_next_spec(repeat_stack(old(stack)@), last, event),
{
    match event {
        PostEvent::Loaded(edge) => {
            let first = match last {
                PostAction::Load(_, first) => first,
                _ => false,
            };
            match post_step(first, edge) {
                PostStep::Skip => post_next_edge(stack),
                PostStep::Descend(node) => PostAction::Entries(node),
                PostStep::Visit => {
                    let ghost before = stack@;
                    match stack.pop() {
                        None => {},
                        Some(mut top) => {
                            proof {
                                assert(before.last() == top);
                            }
                            top.skip();
                            let ghost t = top@;
                            stack.push(top);
                            proof {
                                assert(repeat_stack(stack@) =~= repeat_stack(before).drop_last().push(t));
                                assert forall|i: int| 0 <= i < stack@.len() implies (#[trigger] stack@[i]).wf() by {
                                    if i < stack@.len() - 1 {
                                        assert(stack@[i] == before[i]);
                                    }
                                }
                            }
                        },
                    }
                    PostAction::Visit(edge)
                },
            }
        },
        PostEvent::Entries(es) => {
            if es.len() == 1 {
                return PostAction::Load(es[0], true);
            }
            let ghost before = stack@;
            let ghost es_v = es@;
            stack.push(RepeatIter::new(es));
            proof {
                assert(repeat_stack(stack@) =~= repeat_stack(before).push(
                    RepeatView { first: true, edge: 0, edges: es_v, pos: 0 },
                ));
                assert forall|i: int| 0 <= i < stack@.len() implies (#[trigger] stack@[i]).wf() by {
                    if i < stack@.len() - 1 {
                        assert(stack@[i] == before[i]);
                    }
                }
            }
            post_next_edge(stack)
        },
        PostEvent::Visited => post_next_edge(stack),
    }
}

/// The walk starts at the root edge, handed out as a single entry.
pub fn post_start(root: usize) -> (r: Vec<RepeatIter>)
    ensures
        stack_wf(r@),
        repeat_stack(r@) == seq![RepeatView { first: true, edge: 0, edges: seq![root], pos: 0 }],
{
    let mut edges: Vec<usize> = Vec::new();
    edges.push(root);
    assert(edges@ =~= seq![root]);
    let mut r: Vec<RepeatIter> = Vec::new();
    r.push(RepeatIter::new(edges));
    proof {
        assert(repeat_stack(r@) =~= seq![RepeatView { first: true, edge: 0, edges: seq![root], pos: 0 }]);
    }
    r
}

} // verus!
