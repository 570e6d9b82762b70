use arctic::edge::Edge;
use arctic::edge::Le;
use arctic::iter::range_start;
use arctic::iter::walk_step;
use arctic::iter::RangeStart;
use arctic::iter::WalkStep;
use arctic::iter::bound_check;
use arctic::iter::lower_get;
use arctic::iter::upper_get;
use arctic::iter::Include;
use arctic::iter::Order;
use arctic::iter::Unbound;
use arctic::key::bytes::Reader;
use arctic::len::Bit;

fn le(bytes: &[u8]) -> Le {
    let mut value = 0u64;
    for (i, b) in bytes.iter().enumerate() {
        value |= (*b as u64) << (8 * i);
    }
    Le::new(value, Bit::new_unchecked((bytes.len() * 8) as u8))
}

#[test]
fn order_default_is_ascend() {
    assert_eq!(Order::default(), Order::Ascend);
    assert!(Order::Ascend.is_ascend());
    assert!(!Order::Descend.is_ascend());
}

#[test]
fn node_bounds() {
    assert_eq!(lower_get(None), 0);
    assert_eq!(lower_get(Some(9)), 9);
    assert_eq!(upper_get(None), 255);
    assert!(bound_check(Some(4), 4));
    assert!(!bound_check(Some(4), 5));
    assert!(!bound_check(None, 0));
    assert_eq!(Unbound.check(), Some(Unbound));
}

#[test]
fn lower_bound_prunes_and_descends() {
    let mut bound = Include::new(Reader::<bool>::new(b"bcd", false));
    assert_eq!(bound.check_lower(le(b"a")), None);
    assert_eq!(bound.check_lower(le(b"c")), Some(None));
    assert_eq!(bound.check_lower(le(b"b")), Some(Some(b'c')));
    assert_eq!(bound.check_lower(le(b"")), Some(Some(b'd')));
    assert_eq!(bound.check_lower(le(b"d")), Some(None));
    assert_eq!(bound.check_lower(le(b"")), Some(None));
}

#[test]
fn upper_bound_prunes_and_descends() {
    let mut bound = Include::new(Reader::<bool>::new(b"mn", false));
    assert_eq!(bound.check_upper(le(b"z")), None);
    assert_eq!(bound.check_upper(le(b"a")), Some(None));
    assert_eq!(bound.check_upper(le(b"m")), Some(Some(b'n')));
    let mut bound = Include::new(Reader::<bool>::new(b"k", false));
    assert_eq!(bound.check_eq(Bit::new_unchecked(8)), None);
}

#[test]
fn walk_step_decisions() {
    let none: Option<Include<bool>> = None;
    // An edge without a child is skipped.
    let mut lower = Some(Include::new(Reader::<bool>::new(b"b", false)));
    let mut upper = none;
    let step = walk_step(true, &mut lower, &mut upper, Some(1), None, 1, Edge::<Le>::null());
    assert_eq!(step, WalkStep::Skip);
    // Below the lower bound: skipped when ascending, the end when descending.
    let step = walk_step(true, &mut lower, &mut upper, Some(1), None, 1, Edge::new_node(le(b"a"), 7));
    assert_eq!(step, WalkStep::Skip);
    let step = walk_step(false, &mut lower, &mut upper, Some(1), None, 1, Edge::new_node(le(b"a"), 7));
    assert_eq!(step, WalkStep::Stop);
    // Above the lower bound: no bound below the edge.
    let step = walk_step(true, &mut lower, &mut upper, Some(1), None, 1, Edge::new_node(le(b"c"), 9));
    assert_eq!(step, WalkStep::Node(9, None, None));
    // On the bound: the bound's next byte applies below, and is consumed.
    let step = walk_step(true, &mut lower, &mut upper, Some(1), None, 1, Edge::new_node(le(b""), 9));
    assert_eq!(step, WalkStep::Node(9, Some(b'b'), None));
    let step = walk_step(true, &mut lower, &mut upper, Some(1), None, 1, Edge::new_value(le(b"a"), 5));
    assert_eq!(step, WalkStep::Value(5));
    // Beyond the upper bound: the end when ascending.
    let mut lower = none;
    let mut upper = Some(Include::new(Reader::<bool>::new(b"m", false)));
    let step = walk_step(true, &mut lower, &mut upper, None, Some(3), 3, Edge::new_node(le(b"z"), 9));
    assert_eq!(step, WalkStep::Stop);
    let step = walk_step(false, &mut lower, &mut upper, None, Some(3), 3, Edge::new_node(le(b"z"), 9));
    assert_eq!(step, WalkStep::Skip);
    // A byte off both bounds leaves them alone.
    let step = walk_step(true, &mut lower, &mut upper, None, Some(3), 4, Edge::new_node(le(b"z"), 9));
    assert_eq!(step, WalkStep::Node(9, None, None));
}

#[test]
fn range_start_decisions() {
    use_range_start();
}

fn use_range_start() {
    let none: Option<Include<bool>> = None;
    let mut lower = none;
    let mut upper = none;
    assert_eq!(range_start(&mut lower, &mut upper, Edge::<Le>::null()), RangeStart::Empty);
    assert_eq!(range_start(&mut lower, &mut upper, Edge::new_value(le(b"k"), 4)), RangeStart::Value(4));
    let mut lower = Some(Include::new(Reader::<bool>::new(b"bc", false)));
    let mut upper = Some(Include::new(Reader::<bool>::new(b"bx", false)));
    assert_eq!(
        range_start(&mut lower, &mut upper, Edge::new_node(le(b"b"), 8)),
        RangeStart::Node(8, Some(b'c'), Some(b'x'))
    );
    let mut lower = Some(Include::new(Reader::<bool>::new(b"c", false)));
    let mut upper = none;
    assert_eq!(range_start(&mut lower, &mut upper, Edge::new_node(le(b"b"), 8)), RangeStart::Empty);
}
