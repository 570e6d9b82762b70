use arctic::edge::Edge;
use arctic::edge::Le;
use arctic::iter::Include;
use arctic::len::Bit;
use arctic::node::KeyIndex;
use arctic::walk::walk_next;
use arctic::walk::WalkAction;
use arctic::walk::WalkEvent;
use arctic::walk::WalkFrame;

fn ki(key: u8, index: u8) -> KeyIndex {
    KeyIndex { key, index }
}

fn empty_meta() -> Le {
    Le::new(0, Bit::new_unchecked(0))
}

type Bound<'k> = Option<Include<'k, bool>>;

#[test]
fn walk_ascends_through_nodes_and_values() {
    let mut stack: Vec<WalkFrame> = Vec::new();
    let (mut lower, mut upper): (Bound, Bound) = (None, None);
    let mut a = WalkAction::Entries(7, 0, None, None, false);
    a = walk_next(true, &mut stack, &mut lower, &mut upper, a, WalkEvent::Entries(vec![ki(1, 0), ki(5, 1)]));
    assert_eq!(a, WalkAction::Load(7, 0, 1, 0, None, None));
    assert_eq!(stack.len(), 1);
    a = walk_next(true, &mut stack, &mut lower, &mut upper, a, WalkEvent::Loaded(Edge::new_value(empty_meta(), 42), 2));
    assert_eq!(a, WalkAction::Yield(42, 2));
    a = walk_next(true, &mut stack, &mut lower, &mut upper, a, WalkEvent::Resumed(true));
    assert_eq!(a, WalkAction::Load(7, 1, 5, 0, None, None));
    a = walk_next(true, &mut stack, &mut lower, &mut upper, a, WalkEvent::Loaded(Edge::new_node(empty_meta(), 9), 2));
    assert_eq!(a, WalkAction::Entries(9, 2, None, None, true));
    a = walk_next(true, &mut stack, &mut lower, &mut upper, a, WalkEvent::Entries(vec![ki(3, 0)]));
    assert_eq!(a, WalkAction::Load(9, 0, 3, 2, None, None));
    assert_eq!(stack.len(), 1);
    a = walk_next(true, &mut stack, &mut lower, &mut upper, a, WalkEvent::Loaded(Edge::null(), 4));
    assert_eq!(a, WalkAction::Done);
    assert!(stack.is_empty());
}

#[test]
fn walk_descends_and_stops_when_told() {
    let mut stack: Vec<WalkFrame> = Vec::new();
    let (mut lower, mut upper): (Bound, Bound) = (None, None);
    let mut a = WalkAction::Entries(7, 0, None, None, false);
    a = walk_next(false, &mut stack, &mut lower, &mut upper, a, WalkEvent::Entries(vec![ki(1, 0), ki(5, 1), ki(8, 2)]));
    assert_eq!(a, WalkAction::Load(7, 2, 8, 0, None, None));
    a = walk_next(false, &mut stack, &mut lower, &mut upper, a, WalkEvent::Loaded(Edge::new_node(empty_meta(), 11), 1));
    assert_eq!(a, WalkAction::Entries(11, 1, None, None, true));
    a = walk_next(false, &mut stack, &mut lower, &mut upper, a, WalkEvent::Entries(vec![ki(0, 0), ki(2, 1)]));
    assert_eq!(a, WalkAction::Load(11, 1, 2, 1, None, None));
    assert_eq!(stack.len(), 2);
    a = walk_next(false, &mut stack, &mut lower, &mut upper, a, WalkEvent::Loaded(Edge::new_value(empty_meta(), 5), 2));
    assert_eq!(a, WalkAction::Yield(5, 2));
    a = walk_next(false, &mut stack, &mut lower, &mut upper, a, WalkEvent::Resumed(false));
    assert_eq!(a, WalkAction::Done);
    assert!(stack.is_empty());
}
