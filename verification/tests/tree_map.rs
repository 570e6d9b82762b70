use std::collections::BTreeMap;

use arctic::key::non_null::NonNullSlice;
use arctic::tree::Tree;

fn key(bytes: &[u8]) -> NonNullSlice<'_> {
    NonNullSlice::new(bytes).unwrap()
}

#[test]
fn tree_reads_back_what_it_wrote() {
    let mut tree = Tree::new();
    assert_eq!(tree.get(&key(b"a")), None);
    assert_eq!(tree.insert(&key(b"a"), 1), None);
    assert_eq!(tree.get(&key(b"a")), Some(1));
    assert_eq!(tree.insert(&key(b"a"), 2), Some(1));
    assert_eq!(tree.get(&key(b"a")), Some(2));
    assert_eq!(tree.insert(&key(b"ab"), 3), None);
    assert_eq!(tree.insert(&key(b"abcdefghijklmnop"), 4), None);
    assert_eq!(tree.insert(&key(b"abcdefghijklmnoq"), 5), None);
    assert_eq!(tree.get(&key(b"ab")), Some(3));
    assert_eq!(tree.get(&key(b"abc")), None);
    assert_eq!(tree.get(&key(b"abcdefghijklmnop")), Some(4));
    assert_eq!(tree.get(&key(b"abcdefghijklmnoq")), Some(5));
    assert_eq!(tree.get(&key(b"a")), Some(2));
    assert_eq!(tree.remove(&key(b"abcdefghijklmnop")), Some(4));
    assert_eq!(tree.get(&key(b"abcdefghijklmnop")), None);
    assert_eq!(tree.get(&key(b"abcdefghijklmnoq")), Some(5));
    assert_eq!(tree.remove(&key(b"abcdefghijklmnop")), None);
    assert_eq!(tree.remove(&key(b"zz")), None);
}

#[test]
fn tree_matches_a_btree_map() {
    let mut tree = Tree::new();
    let mut model: BTreeMap<Vec<u8>, u64> = BTreeMap::new();
    let mut state: u64 = 0x2545_f491_4f6c_dd1d;
    for step in 0..2000u64 {
        state ^= state << 13;
        state ^= state >> 7;
        state ^= state << 17;
        let len = 1 + (state % 12) as usize;
        let bytes: Vec<u8> = (0..len).map(|i| 1 + ((state >> (i * 3)) % 3) as u8).collect();
        let k = key(&bytes);
        match state % 3 {
            0 | 1 => assert_eq!(tree.insert(&k, step), model.insert(bytes.clone(), step)),
            _ => assert_eq!(tree.remove(&k), model.remove(&bytes)),
        }
        assert_eq!(tree.get(&k), model.get(&bytes).copied());
    }
    for (bytes, value) in &model {
        assert_eq!(tree.get(&key(bytes)), Some(*value));
    }
    let entries = tree.entries();
    let expected: Vec<(Vec<u8>, u64)> = model.iter().map(|(k, v)| (k.clone(), *v)).collect();
    assert_eq!(entries, expected);
    let keys: Vec<Vec<u8>> = model.keys().cloned().collect();
    for bytes in keys {
        assert_eq!(tree.remove(&key(&bytes)), model.remove(&bytes));
        assert_eq!(tree.get(&key(&bytes)), None);
    }
}

#[test]
fn tree_entries_come_in_key_order() {
    let mut tree = Tree::new();
    for (i, k) in [&b"b"[..], b"abc", b"a", b"ab", b"ba", b"abcdefghijk", b"abcdefghij"].iter().enumerate() {
        tree.insert(&key(k), i as u64);
    }
    let keys: Vec<Vec<u8>> = tree.entries().into_iter().map(|(k, _)| k).collect();
    let want: Vec<Vec<u8>> = [&b"a"[..], b"ab", b"abc", b"abcdefghij", b"abcdefghijk", b"b", b"ba"]
        .iter()
        .map(|k| k.to_vec())
        .collect();
    assert_eq!(keys, want);
    assert!(Tree::new().entries().is_empty());
}

#[test]
fn tree_scans_ranges_and_prefixes_in_order() {
    let mut tree = Tree::new();
    for (i, k) in [&b"b"[..], b"abc", b"a", b"ab", b"ba", b"c", b"abd"].iter().enumerate() {
        tree.insert(&key(k), i as u64);
    }
    let keys = |v: Vec<(Vec<u8>, u64)>| v.into_iter().map(|(k, _)| k).collect::<Vec<_>>();
    assert_eq!(keys(tree.range(b"ab", b"b")), vec![b"ab".to_vec(), b"abc".to_vec(), b"abd".to_vec(), b"b".to_vec()]);
    assert_eq!(keys(tree.range(b"bb", b"bz")), Vec::<Vec<u8>>::new());
    assert_eq!(keys(tree.prefix(b"ab")), vec![b"ab".to_vec(), b"abc".to_vec(), b"abd".to_vec()]);
    assert_eq!(keys(tree.prefix(b"b")), vec![b"b".to_vec(), b"ba".to_vec()]);
    let entries = tree.prefix(b"abc");
    assert_eq!(entries, vec![(b"abc".to_vec(), 1)]);
}
