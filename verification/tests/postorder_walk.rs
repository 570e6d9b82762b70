use arctic::postorder::post_next;
use arctic::postorder::post_start;
use arctic::postorder::PostAction;
use arctic::postorder::PostEvent;
use arctic::edge::Edge;
use arctic::edge::Le;
use arctic::len::Bit;
use arctic::postorder::post_step;
use arctic::postorder::PostStep;
use arctic::postorder::RepeatIter;

#[test]
fn repeat_iter_hands_out_each_edge_twice() {
    let mut iter = RepeatIter::new(vec![10, 20]);
    assert_eq!(iter.next(), Some((true, 10)));
    assert_eq!(iter.next(), Some((false, 10)));
    assert_eq!(iter.next(), Some((true, 20)));
    iter.skip();
    assert_eq!(iter.next(), None);
}

#[test]
fn post_step_decisions() {
    let meta = Le::new(0x61, Bit::new_unchecked(8));
    assert_eq!(post_step(true, Edge::<Le>::null()), PostStep::Skip);
    assert_eq!(post_step(true, Edge::new_node(meta, 5)), PostStep::Descend(5));
    assert_eq!(post_step(false, Edge::new_node(meta, 5)), PostStep::Visit);
    assert_eq!(post_step(true, Edge::new_value(meta, 5)), PostStep::Visit);
}

#[test]
fn post_order_visits_children_before_their_edge() {
    let meta = || Le::new(0, Bit::new_unchecked(0));
    // edge address -> edge; node id -> edge addresses
    let edge_at = |addr: usize| match addr {
        1 => Edge::new_node(meta(), 10),
        3 => Edge::new_node(meta(), 20),
        6 => Edge::new_node(meta(), 30),
        _ => Edge::new_value(meta(), addr as u64),
    };
    let node_edges = |node: u64| match node {
        10 => vec![2, 3, 6],
        20 => vec![4, 5],
        _ => vec![7],
    };
    let mut stack = post_start(1);
    let mut action = post_next(&mut stack, PostAction::Visit(edge_at(0)), PostEvent::Visited);
    let mut visited = Vec::new();
    loop {
        let event = match action {
            PostAction::Load(addr, _) => PostEvent::Loaded(edge_at(addr)),
            PostAction::Entries(node) => PostEvent::Entries(node_edges(node)),
            PostAction::Visit(edge) => {
                visited.push(edge.child_raw());
                PostEvent::Visited
            }
            PostAction::Done => break,
        };
        action = post_next(&mut stack, action, event);
    }
    assert_eq!(visited, vec![2, 4, 5, 20, 7, 10]);
}
