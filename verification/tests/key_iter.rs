use arctic::node::iter::KeyIter;
use arctic::node::KeyIndex;
use arctic::node::Node47Header;

fn ki(key: u8, index: u8) -> KeyIndex {
    KeyIndex { key, index }
}

#[test]
fn key_iter_takes_from_both_ends() {
    let mut iter = KeyIter::new(vec![ki(1, 2), ki(5, 0), ki(9, 1)]);
    assert_eq!(iter.len(), 3);
    assert_eq!(iter.next(), Some(ki(1, 2)));
    assert_eq!(iter.next_back(), Some(ki(9, 1)));
    assert_eq!(iter.len(), 1);
    assert_eq!(iter.next_back(), Some(ki(5, 0)));
    assert_eq!(iter.next(), None);
    assert_eq!(iter.next_back(), None);
    assert_eq!(iter.len(), 0);
}

#[test]
fn key_iter_root_has_one_entry() {
    let mut iter = KeyIter::root();
    assert_eq!(iter.len(), 1);
    assert_eq!(iter.next(), Some(ki(0, 0)));
    assert_eq!(iter.next(), None);
}

#[test]
fn key_iter_over_node_keys() {
    let header = Node47Header::new_unchecked(&[200, 3, 77]);
    let mut iter = KeyIter::new(header.keys(0, 255));
    assert_eq!(iter.next(), Some(ki(3, 1)));
    assert_eq!(iter.next(), Some(ki(77, 2)));
    assert_eq!(iter.next(), Some(ki(200, 0)));
    assert_eq!(iter.next(), None);
}
