use arctic::cursor::freeze_step;
use arctic::cursor::path_segments;
use arctic::cursor::CreateStep;
use arctic::cursor::Cursor;
use arctic::cursor::FreezeAction;
use arctic::cursor::FreezeEvent;
use arctic::cursor::FreezeStep;
use arctic::cursor::InsertStep;
use arctic::cursor::NodeStep;
use arctic::cursor::PrefixStep;
use arctic::cursor::Step;
use arctic::edge::Edge;
use arctic::edge::Le;
use arctic::key::bytes::Reader;
use arctic::len::Bit;
use arctic::len::Byte;

fn le(bytes: &[u8]) -> Le {
    let mut value = 0u64;
    for (i, b) in bytes.iter().enumerate() {
        value |= (*b as u64) << (8 * i);
    }
    Le::new(value, Bit::new_unchecked((bytes.len() * 8) as u8))
}

#[test]
fn cursor_pop_undoes_push() {
    let mut cursor = Cursor::new(100, Reader::<bool>::new(b"abcdef", false), true);
    cursor.push(Bit::new_unchecked(16), 7, 200);
    assert_eq!(cursor.len().bytes(), 3);
    assert_eq!(cursor.edge(), 200);
    assert_eq!(cursor.remaining().bytes(), 3);
    let popped = cursor.pop().unwrap().unwrap();
    assert_eq!((popped.0.into_u8(), popped.1), (16, 7));
    assert_eq!(cursor.len().bytes(), 0);
    assert_eq!(cursor.edge(), 100);
    assert_eq!(cursor.remaining().bytes(), 6);
    assert!(cursor.pop().unwrap().is_none());
}

#[test]
fn cursor_without_path() {
    let mut cursor = Cursor::new(1, Reader::<bool>::new(b"abc", true), false);
    assert!(cursor.pop().is_err());
    cursor.skip(Bit::new_unchecked(8), 300);
    assert_eq!(cursor.edge(), 300);
    assert_eq!(cursor.len().bytes(), 0);
    assert_eq!(cursor.remaining().bytes(), 2);
    cursor.push(Bit::new_unchecked(0), 9, 400);
    assert_eq!(cursor.len().bytes(), 1);
    assert!(cursor.pop().is_err());
}

#[test]
fn cursor_trim_cuts_every_reader() {
    let mut cursor = Cursor::new(1, Reader::<bool>::new(b"abcd", false), true);
    cursor.push(Bit::new_unchecked(0), 5, 2);
    assert_eq!(cursor.remaining().bytes(), 3);
    cursor.trim(Byte::new(1));
    assert_eq!(cursor.remaining().bytes(), 2);
    assert!(cursor.pop().unwrap().is_some());
    assert_eq!(cursor.remaining().bytes(), 3);
}

#[test]
fn lookup_steps() {
    let cursor = Cursor::new(0, Reader::<bool>::new(b"abc", true), false);
    match cursor.get_step(Edge::new_node(le(b"ab"), 5)) {
        Step::Descend(byte, len, node) => assert_eq!((byte, len.into_u8(), node), (b'c', 16, 5)),
        other => panic!("unexpected {:?}", other),
    }
    assert!(matches!(cursor.get_step(Edge::new_value(le(b"ab"), 9)), Step::Found(9)));
    assert!(matches!(cursor.get_step(Edge::new_node(le(b"ax"), 5)), Step::Missing));
    assert!(matches!(cursor.get_step(Edge::<Le>::null()), Step::Missing));
}

#[test]
fn prefix_steps() {
    let cursor = Cursor::new(0, Reader::<bool>::new(b"ab", false), false);
    assert!(matches!(cursor.prefix_step(Edge::new_node(le(b"ab"), 5)), PrefixStep::Found));
    match cursor.prefix_step(Edge::new_node(le(b"a"), 5)) {
        PrefixStep::Descend(byte, len, node) => assert_eq!((byte, len.into_u8(), node), (b'b', 8, 5)),
        other => panic!("unexpected {:?}", other),
    }
    assert!(matches!(cursor.prefix_step(Edge::new_node(le(b"x"), 5)), PrefixStep::Missing));
    assert!(matches!(cursor.prefix_step(Edge::<Le>::null()), PrefixStep::Missing));
}

#[test]
fn node_steps() {
    let cursor = Cursor::new(0, Reader::<bool>::new(b"ab", false), false);
    match cursor.node_step(Edge::new_node(le(b"ab"), 5)) {
        NodeStep::Found(len) => assert_eq!(len.into_u8(), 16),
        other => panic!("unexpected {:?}", other),
    }
    match cursor.node_step(Edge::new_node(le(b"a"), 5)) {
        NodeStep::Descend(byte, len, node) => assert_eq!((byte, len.into_u8(), node), (b'b', 8, 5)),
        other => panic!("unexpected {:?}", other),
    }
    match cursor.node_step(Edge::new_node(le(b"b"), 5)) {
        NodeStep::Missing(left) => assert_eq!(left.bytes(), 2),
        other => panic!("unexpected {:?}", other),
    }
}

#[test]
fn insert_steps() {
    let cursor = Cursor::new(0, Reader::<bool>::new(b"ab", true), false);
    assert!(matches!(cursor.insert_step(Edge::<Le>::null()), InsertStep::Value(None)));
    assert!(matches!(cursor.insert_step(Edge::new_value(le(b"ab"), 3)), InsertStep::Value(Some(3))));
    assert!(matches!(cursor.insert_step(Edge::new_node(le(b"b"), 3)), InsertStep::Value(None)));
    match cursor.insert_step(Edge::new_node(le(b"a"), 5)) {
        InsertStep::Descend(byte, len, node) => assert_eq!((byte, len.into_u8(), node), (b'b', 8, 5)),
        other => panic!("unexpected {:?}", other),
    }
}

#[test]
fn freeze_steps() {
    let edge = Edge::new_node(le(b"ab"), 5);
    assert_eq!(freeze_step(edge, Bit::new_unchecked(16), 5), FreezeStep::Replace);
    assert_eq!(freeze_step(edge, Bit::new_unchecked(24), 6), FreezeStep::Traverse);
    assert_eq!(freeze_step(edge, Bit::new_unchecked(16), 6), FreezeStep::Done);
    assert_eq!(freeze_step(Edge::new_value(le(b"ab"), 5), Bit::new_unchecked(16), 5), FreezeStep::Done);
    let mut frozen = edge;
    Edge::freeze(&mut frozen);
    assert_eq!(freeze_step(frozen, Bit::new_unchecked(16), 5), FreezeStep::Pop);
}

#[test]
fn create_step_expands_where_key_and_edge_part() {
    let cursor = Cursor::new(1, Reader::<bool>::new(b"abxy", false), false);
    match cursor.create_step(le(b"abcd")) {
        CreateStep::Expand(parent, old_byte, child, new_byte, len) => {
            assert_eq!(parent.len().into_u8(), 16);
            assert_eq!(parent.into_raw() & 0xFFFF, le(b"ab").into_raw() & 0xFFFF);
            assert_eq!(old_byte, b'c');
            assert_eq!(child.len().into_u8(), 8);
            assert_eq!(child.into_raw() & 0xFF, b'd' as u64);
            assert_eq!(new_byte, b'x');
            assert_eq!(len, 2);
        }
        CreateStep::Path => panic!("expected an expansion"),
    }
    assert!(matches!(cursor.create_step(le(b"ab")), CreateStep::Path));
    assert!(matches!(cursor.create_step(le(b"")), CreateStep::Path));
    assert!(matches!(
        cursor.create_step(le(b"zz")),
        CreateStep::Expand(_, b'z', _, b'a', 0)
    ));
}

fn edge_bytes(edge: Le) -> Vec<u8> {
    let n = edge.len().bytes();
    let raw = edge.into_raw();
    (0..n).map(|i| (raw >> (8 * i)) as u8).collect()
}

#[test]
fn path_segments_spell_the_key() {
    let key = b"abcdefghijklmnopqrst";
    let (segments, last) = path_segments(Reader::<bool>::new(key, true));
    assert_eq!(segments.len(), 2);
    let mut spelled = Vec::new();
    for (edge, byte) in &segments {
        assert_eq!(edge.len().into_u8(), 56);
        spelled.extend(edge_bytes(*edge));
        spelled.push(*byte);
    }
    spelled.extend(edge_bytes(last));
    let mut want = key.to_vec();
    want.push(0);
    assert_eq!(spelled, want);
    assert_eq!(edge_bytes(last), b"qrst\0".to_vec());
}

#[test]
fn path_segments_short_and_boundary_keys() {
    let (segments, last) = path_segments(Reader::<bool>::new(b"abcdefg", false));
    assert!(segments.is_empty());
    assert_eq!(edge_bytes(last), b"abcdefg".to_vec());
    let (segments, last) = path_segments(Reader::<bool>::new(b"abcdefgh", false));
    assert_eq!(segments.len(), 1);
    assert_eq!(edge_bytes(segments[0].0), b"abcdefg".to_vec());
    assert_eq!(segments[0].1, b'h');
    assert!(edge_bytes(last).is_empty());
    let (segments, last) = path_segments(Reader::<bool>::new(b"", false));
    assert!(segments.is_empty());
    assert!(edge_bytes(last).is_empty());
}

#[test]
fn lookup_follows_a_new_path_to_its_value() {
    let key = b"abcdefghij";
    let (segments, last) = path_segments(Reader::<bool>::new(key, true));
    assert_eq!(segments.len(), 1);
    let mut cursor = Cursor::new(1, Reader::<bool>::new(key, true), false);
    let head = Edge::new_node(segments[0].0, 77);
    match cursor.get_step(head) {
        Step::Descend(byte, len, node) => {
            assert_eq!(byte, b'h');
            assert_eq!(len.into_u8(), 56);
            assert_eq!(node, 77);
            cursor.skip(len, 2);
        }
        _ => panic!("expected to descend"),
    }
    assert!(matches!(cursor.get_step(Edge::new_value(last, 42)), Step::Found(42)));
}

#[test]
fn lookup_reads_back_an_exchanged_edge() {
    let cursor = Cursor::new(1, Reader::<bool>::new(b"ab", false), false);
    assert!(matches!(cursor.get_step(Edge::new_value(le(b"ab"), 5)), Step::Found(5)));
    assert!(matches!(cursor.get_step(Edge::new_value(le(b"ab"), 9)), Step::Found(9)));
    assert!(matches!(cursor.get_step(Edge::null()), Step::Missing));
    assert!(matches!(cursor.get_step(Edge::new_value(le(b"ac"), 9)), Step::Missing));
}

#[test]
fn freeze_moves_up_past_frozen_edges_and_replaces() {
    let mut cursor = Cursor::new(100, Reader::<bool>::new(b"abcdef", false), true);
    cursor.push(Bit::new_unchecked(16), 7, 200);
    let mut old_len = Bit::new_unchecked(8);
    let mut old_node = 9u64;
    let mut frozen = Edge::new_node(le(b"x"), 9);
    Edge::freeze(&mut frozen);
    let a = cursor.freeze_next(&mut old_len, &mut old_node, FreezeEvent::Loaded(frozen));
    assert_eq!(a, FreezeAction::Load);
    assert_eq!((old_len.into_u8(), old_node), (16, 7));
    assert_eq!(cursor.edge(), 100);
    let a = cursor.freeze_next(&mut old_len, &mut old_node, FreezeEvent::Loaded(Edge::new_node(le(b"ab"), 7)));
    assert_eq!(a, FreezeAction::Replace(7));
    let a = cursor.freeze_next(&mut old_len, &mut old_node, FreezeEvent::Exchanged(false, true));
    assert_eq!(a, FreezeAction::Discard(true));
    let a = cursor.freeze_next(&mut old_len, &mut old_node, FreezeEvent::Exchanged(true, true));
    assert_eq!(a, FreezeAction::Success(Some(7)));
    let a = cursor.freeze_next(&mut old_len, &mut old_node, FreezeEvent::Loaded(Edge::new_node(le(b"a"), 8)));
    assert_eq!(a, FreezeAction::Traverse);
    let a = cursor.freeze_next(&mut old_len, &mut old_node, FreezeEvent::Loaded(Edge::new_value(le(b"ab"), 1)));
    assert_eq!(a, FreezeAction::Success(None));
    let mut root = Edge::new_node(le(b""), 3);
    Edge::freeze(&mut root);
    assert_eq!(cursor.freeze_next(&mut old_len, &mut old_node, FreezeEvent::Loaded(root)), FreezeAction::RootFrozen);
    let mut plain = Cursor::new(1, Reader::<bool>::new(b"ab", false), false);
    assert_eq!(plain.freeze_next(&mut old_len, &mut old_node, FreezeEvent::Loaded(root)), FreezeAction::Failed);
}
