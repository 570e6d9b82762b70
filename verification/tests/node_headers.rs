use arctic::edge::Child;
use arctic::edge::Edge;
use arctic::edge::Le;
use arctic::len::Bit;
use arctic::node::live_entries_of;
use arctic::node::replace_decision;
use arctic::node::Replacement;
use arctic::raw::Smo;
use arctic::node::KeyIndex;
use arctic::node::Node15Header;
use arctic::node::Node256;
use arctic::node::Node3Header;
use arctic::node::Node47Header;
use arctic::node::NodeType;

fn ki(key: u8, index: u8) -> KeyIndex {
    KeyIndex { key, index }
}

#[test]
fn node3_get_or_insert_appends() {
    let mut header = Node3Header::new_unchecked(&[]);
    assert_eq!(header.get(7), None);
    assert_eq!(header.get_or_insert(7), Some(0));
    assert_eq!(header.get_or_insert(0), Some(1));
    assert_eq!(header.get_or_insert(7), Some(0));
    assert_eq!(header.get_or_insert(255), Some(2));
    assert_eq!(header.get_or_insert(9), None);
    assert_eq!(header.len(), 3);
    assert_eq!(header.get(0), Some(1));
    assert_eq!(header.get(255), Some(2));
    assert_eq!(header.get(9), None);
}

#[test]
fn node3_zero_key_in_empty_slot_is_absent() {
    let header = Node3Header::new_unchecked(&[5]);
    assert_eq!(header.get(0), None);
    assert_eq!(header.get(5), Some(0));
}

#[test]
fn get_implies_get_or_insert() {
    let mut header = Node15Header::new_unchecked(&[10, 20, 30]);
    for key in 0..=255u8 {
        if let Some(index) = header.get(key) {
            assert_eq!(header.get_or_insert(key), Some(index));
        }
    }
    assert_eq!(header.len(), 3);
}

#[test]
fn get_or_insert_implies_get() {
    let mut header = Node3Header::new_unchecked(&[4]);
    for key in [4u8, 2, 9, 1] {
        if let Some(index) = header.get_or_insert(key) {
            assert_eq!(header.get(key), Some(index));
        }
    }
}

#[test]
fn get_or_insert_idempotent() {
    let mut header = Node15Header::new_unchecked(&[]);
    let index = header.get_or_insert(99);
    for _ in 0..5 {
        assert_eq!(header.get_or_insert(99), index);
    }
    assert_eq!(header.len(), 1);
}

#[test]
fn keys_get_consistent() {
    let mut header = Node15Header::new_unchecked(&[50, 10, 200, 30]);
    let keys = header.keys(20, 100);
    assert_eq!(keys, vec![ki(50, 0), ki(30, 3)]);
    for entry in keys {
        assert_eq!(header.get(entry.key), Some(entry.index));
        assert_eq!(header.get_or_insert(entry.key), Some(entry.index));
    }
}

#[test]
fn freeze_no_insert() {
    let mut header = Node3Header::new_unchecked(&[1, 2]);
    assert_eq!(header.freeze(), 2);
    assert!(header.is_frozen());
    for key in 0..=255u8 {
        match header.get(key) {
            None => assert!(header.get_or_insert(key).is_none()),
            Some(index) => assert_eq!(header.get_or_insert(key), Some(index)),
        }
    }
    let mut header = Node47Header::new_unchecked(&[3, 4, 5]);
    assert_eq!(header.freeze(), 3);
    assert_eq!(header.get_or_insert(6), None);
    assert_eq!(header.get_or_insert(4), Some(1));
}

#[test]
fn node15_fills_to_capacity() {
    let mut header = Node15Header::new_unchecked(&[]);
    for key in 0..15u8 {
        assert_eq!(header.get_or_insert(key * 3), Some(key));
    }
    assert_eq!(header.get_or_insert(200), None);
    assert_eq!(header.len(), 15);
    assert_eq!(header.get(42), Some(14));
}

#[test]
fn node47_keys_are_sorted_by_key() {
    let mut header = Node47Header::new_unchecked(&[200, 3, 77]);
    assert_eq!(header.get_or_insert(16), Some(3));
    assert_eq!(header.get(77), Some(2));
    assert_eq!(header.get(78), None);
    assert_eq!(header.keys(0, 255), vec![ki(3, 1), ki(16, 3), ki(77, 2), ki(200, 0)]);
    assert_eq!(header.keys(10, 100), vec![ki(16, 3), ki(77, 2)]);
    assert_eq!(header.len(), 4);
}

#[test]
fn node47_capacity() {
    let keys: Vec<u8> = (0..47u8).collect();
    let mut header = Node47Header::new_unchecked(&keys);
    assert_eq!(header.get_or_insert(100), None);
    assert_eq!(header.get(46), Some(46));
}

#[test]
fn min_max_entries() {
    let header = Node15Header::new_unchecked(&[40, 10, 90]);
    assert_eq!(header.min(0), Some(ki(10, 1)));
    assert_eq!(header.min(11), Some(ki(40, 0)));
    assert_eq!(header.min(91), None);
    assert_eq!(header.max(255), Some(ki(90, 2)));
    assert_eq!(header.max(89), Some(ki(40, 0)));
    assert_eq!(header.max(9), None);
    let header = Node3Header::new_unchecked(&[7, 3]);
    assert_eq!(header.min(4), Some(ki(7, 0)));
    assert_eq!(header.max(6), Some(ki(3, 1)));
}

#[test]
fn node256_is_total() {
    let node = Node256;
    assert_eq!(node.get_key(17), Some(17));
    assert_eq!(node.get_or_insert_key(255), Some(255));
    assert_eq!(node.freeze_header(), 256);
    assert_eq!(node.keys(3, 5), vec![ki(3, 3), ki(4, 4), ki(5, 5)]);
    assert!(node.keys(5, 3).is_empty());
    assert_eq!(node.keys(0, 255).len(), 256);
}

#[test]
fn node_type_for_len() {
    assert_eq!(NodeType::for_len(3, false), NodeType::Node3);
    assert_eq!(NodeType::for_len(3, true), NodeType::Node15);
    assert_eq!(NodeType::for_len(15, false), NodeType::Node15);
    assert_eq!(NodeType::for_len(47, false), NodeType::Node47);
    assert_eq!(NodeType::for_len(47, true), NodeType::Node256);
    assert_eq!(NodeType::Node47.capacity(), 47);
    for tag in 0..4u8 {
        assert_eq!(NodeType::from_tag(tag).into_tag(), tag);
    }
}

fn le_edge(bytes: &[u8]) -> Le {
    let mut value = 0u64;
    for (i, b) in bytes.iter().enumerate() {
        value |= (*b as u64) << (8 * i);
    }
    Le::new(value, Bit::new_unchecked((bytes.len() * 8) as u8))
}

#[test]
fn live_entries_skip_empty_edges() {
    let mut frozen = Edge::new_node(le_edge(b"a"), 5);
    Edge::freeze(&mut frozen);
    let edges = [Edge::<Le>::null(), frozen, Edge::new_value(le_edge(b""), 7)];
    let (keys, live) = live_entries_of(&[1, 2, 3], &edges, true);
    assert_eq!(keys, vec![2, 3]);
    assert_eq!(live.len(), 2);
    assert_eq!(live[0].as_node(), Some(5));
    assert!(!live[0].meta().is_frozen());
    assert_eq!(live[1].child(), Some(Child::Value(7)));
    let (keys, live) = live_entries_of(&[1, 2], &edges[..2], false);
    assert_eq!(keys, vec![2]);
    assert!(live[0].meta().is_frozen());
}

#[test]
fn replacement_decisions() {
    let meta = le_edge(b"ab");
    assert!(matches!(replace_decision(meta, &[], &[], 3), Replacement::Delete));
    assert_eq!(replace_decision(meta, &[], &[], 3).smo(), Smo::DeleteNode);
    let child = Edge::new_node(le_edge(b"c"), 5);
    match replace_decision(meta, &[9], &[child], 3) {
        Replacement::Compress(edge) => {
            assert_eq!(edge.meta().into_iter(), vec![b'a', b'b', 9, b'c']);
            assert_eq!(edge.as_node(), Some(5));
        }
        _ => panic!("expected a compressed edge"),
    }
    let long = Edge::new_node(le_edge(b"cdefgh"), 5);
    assert!(matches!(replace_decision(meta, &[9], &[long], 3), Replacement::Allocate(false)));
    assert!(matches!(replace_decision(meta, &[9], &[long], 1), Replacement::Allocate(true)));
    let three = [child, child, child];
    assert!(matches!(replace_decision(meta, &[1, 2, 3], &three, 3), Replacement::Allocate(true)));
    assert_eq!(replace_decision(meta, &[1, 2, 3], &three, 15).smo(), Smo::ReplaceNode);
}

#[test]
fn get_or_insert_different_keys_take_consecutive_slots() {
    let mut header = Node15Header::new_unchecked(&[4]);
    let before = header.keys(0, 255);
    assert_eq!(header.get_or_insert(9), Some(1));
    assert_eq!(header.get_or_insert(2), Some(2));
    assert_eq!(header.get_or_insert(4), Some(0));
    let mut after = before.clone();
    after.push(ki(9, 1));
    after.push(ki(2, 2));
    assert_eq!(header.keys(0, 255), after);
    assert_eq!(header.keys(3, 9), vec![ki(4, 0), ki(9, 1)]);
    header.freeze();
    assert_eq!(header.get_or_insert(7), None);
    assert_eq!(header.get_or_insert(2), Some(2));
}
