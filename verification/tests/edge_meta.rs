use std::cmp::Ordering;

use arctic::edge::Be;
use arctic::edge::Child;
use arctic::edge::Edge;
use arctic::edge::Le;
use arctic::edge::Slice;
use arctic::len::Bit;
use arctic::len::Byte;

fn le(bytes: &[u8]) -> Le {
    let mut value = 0u64;
    for (i, b) in bytes.iter().enumerate() {
        value |= (*b as u64) << (8 * i);
    }
    Le::new(value, Bit::new_unchecked((bytes.len() * 8) as u8))
}

fn be(bytes: &[u8]) -> Be {
    let mut value = 0u64;
    for (i, b) in bytes.iter().enumerate() {
        value |= (*b as u64) << (56 - 8 * i);
    }
    Be::new(value, Bit::new_unchecked((bytes.len() * 8) as u8))
}

#[test]
fn le_new_keeps_low_bytes() {
    let meta = Le::new(0x1122_3344_5566_7788, Bit::new_unchecked(24));
    assert_eq!(meta.into_iter(), vec![0x88, 0x77, 0x66]);
    assert_eq!(meta.len().into_u8(), 24);
    assert!(!meta.is_value());
    assert!(!meta.is_frozen());
}

#[test]
fn be_new_keeps_high_bytes() {
    let meta = Be::new(0x1122_3344_5566_7788, Bit::new_unchecked(16));
    assert_eq!(meta.into_iter(), vec![0x11, 0x22]);
}

#[test]
fn expand_compress_inverse() {
    let meta = le(&[1, 2, 3, 4, 5]);
    for index in [0u8, 8, 16, 24, 32] {
        let (parent, byte, child) = meta.try_expand(Bit::new_unchecked(index)).unwrap();
        let joined = parent.try_compress(byte, child).unwrap();
        assert!(joined.eq(&meta));
        assert_eq!(joined.into_iter(), meta.into_iter());
    }
    let meta = be(&[9, 8, 7]);
    for index in [0u8, 8, 16] {
        let (parent, byte, child) = meta.try_expand(Bit::new_unchecked(index)).unwrap();
        let joined = parent.try_compress(byte, child).unwrap();
        assert!(joined.eq(&meta));
    }
}

#[test]
fn expand_correct() {
    let meta = le(&[1, 2, 3]).with_value(true).with_frozen(true);
    let (parent, byte, child) = meta.try_expand(Bit::new_unchecked(8)).unwrap();
    assert_eq!(parent.into_iter(), vec![1]);
    assert_eq!(byte, 2);
    assert_eq!(child.into_iter(), vec![3]);
    assert!(child.is_value() && child.is_frozen());
    assert!(!parent.is_value() && !parent.is_frozen());
    assert!(meta.try_expand(Bit::new_unchecked(24)).is_none());
}

#[test]
fn compress_too_long_fails() {
    let parent = le(&[1, 2, 3, 4]);
    let child = le(&[5, 6, 8]);
    assert!(parent.try_compress(7, child).is_none());
    let child = le(&[5]);
    assert_eq!(parent.try_compress(7, child).unwrap().into_iter(), vec![1, 2, 3, 4, 7, 5]);
}

#[test]
fn eq_reflexive() {
    let meta = le(&[3, 1, 4]);
    assert!(meta.eq(&meta));
    let meta = be(&[3, 1, 4]);
    assert!(meta.eq(&meta));
}

#[test]
fn eq_ord_consistent() {
    let a = le(&[1, 2]);
    let b = le(&[1, 2]).with_frozen(true);
    let c = le(&[1, 3]);
    assert_eq!(a.compare(&b) == Ordering::Equal, a.eq(&b));
    assert_eq!(a.compare(&c) == Ordering::Equal, a.eq(&c));
    assert!(a.eq(&b));
    assert!(!a.eq(&c));
}

#[test]
fn ord_duality() {
    let a = le(&[1, 2]);
    let b = le(&[1, 2, 0]);
    assert_eq!(a.compare(&b), Ordering::Less);
    assert_eq!(b.compare(&a), Ordering::Greater);
    let a = be(&[5]);
    let b = be(&[4, 9]);
    assert_eq!(a.compare(&b), b.compare(&a).reverse());
}

#[test]
fn ord_ignores_flags() {
    let a = le(&[7, 7]);
    let b = le(&[7, 8]);
    assert_eq!(a.compare(&b), a.with_value(true).compare(&b));
    assert_eq!(a.compare(&b), a.with_frozen(true).compare(&b));
    assert_eq!(a.compare(&b), a.with_value(true).with_frozen(true).compare(&b));
}

#[test]
fn new_value_is_value() {
    let edge = Edge::<Le>::new_value(le(&[1]), 42);
    assert!(edge.meta().is_value());
    assert_eq!(edge.child(), Some(Child::Value(42)));
    let edge = Edge::<Be>::new_node(be(&[1]).with_value(true), 4096);
    assert!(!edge.meta().is_value());
    assert_eq!(edge.as_node(), Some(4096));
}

#[test]
fn into_iter_len_consistent() {
    for n in 0..=7usize {
        let bytes: Vec<u8> = (1..=n as u8).collect();
        let meta = le(&bytes);
        assert_eq!(meta.into_iter().len(), meta.len().bytes());
        let meta = be(&bytes);
        assert_eq!(meta.into_iter().len(), meta.len().bytes());
    }
}

#[test]
fn edge_null_and_freeze() {
    let mut edge = Edge::<Le>::null();
    assert!(edge.is_null());
    assert_eq!(edge.child(), None);
    edge = Edge::new_value(le(&[1]), 5);
    Edge::freeze(&mut edge);
    assert!(edge.meta().is_frozen());
    let edge = edge.unfreeze();
    assert!(!edge.meta().is_frozen());
    assert_eq!(edge.child_raw(), 5);
}

#[test]
fn slice_edge_refers_into_key() {
    let key = [1u8, 2, 3, 4, 5, 6];
    let edge = Slice::<true>::new(&key, 2, Byte::new(3));
    assert_eq!(edge.as_slice(), &[3, 4, 5]);
    assert_eq!(edge.as_ptr(), 2);
    assert_eq!(edge.len().bytes(), 3);
    let edge = edge.with_terminate(true);
    assert_eq!(edge.len().bytes(), 4);
    assert_eq!(edge.into_iter(), vec![3, 4, 5, 0]);
    let plain = Slice::<false>::new(&key, 0, Byte::new(2)).with_terminate(true);
    assert!(!plain.is_terminate());
}
