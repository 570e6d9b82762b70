use arctic::hazard::drop_decision;
use arctic::hazard::flush_partition;
use arctic::hazard::hazard_bytes;
use arctic::hazard::hazard_integer;
use arctic::hazard::hazard_slow;
use arctic::hazard::read_u128;
use arctic::hazard::BePacked;
use arctic::hazard::Le128Packed;
use arctic::hazard::LePacked;
use arctic::hazard::Prefix;
use arctic::key::bytes::Reader;
use arctic::key::slow;
use arctic::key::unsigned;

fn be_prefix(bytes: &[u8]) -> u64 {
    let mut value = 0u64;
    for (i, b) in bytes.iter().enumerate() {
        value |= (*b as u64) << (56 - 8 * i);
    }
    value
}

fn le_prefix(bytes: &[u8]) -> u64 {
    let mut value = 0u64;
    for (i, b) in bytes.iter().enumerate() {
        value |= (*b as u64) << (8 * i);
    }
    value
}

#[test]
fn hazard_protects_overlapping_prefixes() {
    // A guard for prefix "bc" protects the node at "b" (above it) and the
    // value at "bcd" (below it), but not the value at "af".
    let hazard = BePacked::new_hazard(be_prefix(b"bc"), 16);
    let node_b = BePacked::new_hazard(be_prefix(b"b"), 8).into_prefix(false, None);
    let value_bcd = BePacked::new_hazard(be_prefix(b"bcd"), 24).into_prefix(true, None);
    let value_af = BePacked::new_hazard(be_prefix(b"af"), 16).into_prefix(true, None);
    assert!(node_b.is_conflict_one(hazard));
    assert!(value_bcd.is_conflict_one(hazard));
    assert!(!value_af.is_conflict_one(hazard));
    assert!(!value_af.is_conflict_one(BePacked::hazard_null()));
}

#[test]
fn into_prefix_cuts_and_marks() {
    let hazard = BePacked::new_hazard(be_prefix(b"abc"), 24);
    assert!(hazard.is_active());
    assert_eq!(hazard.bytes(), 3);
    let node = hazard.into_prefix(false, Some(8));
    assert!(node.is_node());
    assert!(!node.is_value());
    assert_eq!(node.bytes(), 1);
    let value = hazard.into_prefix(true, Some(56));
    assert!(value.is_value());
    assert_eq!(value.bytes(), 3);
    assert!(!BePacked::hazard_null().is_active());
}

#[test]
fn non_overlap_hazard_ignores_shorter_prefixes() {
    let hazard = LePacked::new_hazard(le_prefix(b"xyz"), 24);
    let inner = hazard.into_prefix(false, Some(8));
    // The cut prefix lost its overlap flag: as a hazard it no longer
    // protects longer prefixes above it.
    let above = LePacked::new_hazard(le_prefix(b"x"), 8).into_prefix(false, None);
    assert!(above.is_conflict_one(hazard));
    let longer = LePacked::new_hazard(le_prefix(b"xy"), 16).into_prefix(true, None);
    assert!(!LePacked::hazard_null().is_active());
    assert!(inner.is_node());
    assert!(!longer.is_conflict_one(inner));
}

#[test]
fn conflict_against_any_of_four() {
    let prefix = LePacked::new_hazard(le_prefix(b"ab"), 16).into_prefix(true, None);
    let miss = LePacked::new_hazard(le_prefix(b"zz"), 16);
    let hit = LePacked::new_hazard(le_prefix(b"a"), 8);
    assert!(!prefix.is_conflict(&[miss, miss, miss, LePacked::hazard_null()]));
    assert!(prefix.is_conflict(&[miss, miss, hit, miss]));
}

#[test]
fn wide_prefixes() {
    let mut bytes = [0u8; 16];
    for (i, b) in bytes.iter_mut().enumerate() {
        *b = i as u8 + 1;
    }
    let word = read_u128(&bytes);
    assert_eq!(word & 0xff, 1);
    assert_eq!(word >> 120, 16);
    assert_eq!(read_u128(&[7]), 7);
    let hazard = Le128Packed::new_hazard(word, 120);
    assert_eq!(hazard.bytes(), 15);
    let node = Le128Packed::new_hazard(word, 40).into_prefix(false, None);
    assert!(node.is_conflict_one(hazard));
    let other = Le128Packed::new_hazard(read_u128(&[1, 2, 9]), 24).into_prefix(true, None);
    assert!(!other.is_conflict_one(hazard));
}

#[test]
fn hazard_from_readers() {
    let reader = unsigned::Reader::from_u64(0x0102_0304_0506_0708);
    let hazard = hazard_integer(&reader);
    assert_eq!(hazard.bytes(), 7);
    let reader = Reader::<bool>::new(b"key", true);
    let hazard = hazard_bytes(&reader);
    assert_eq!(hazard.bytes(), 4);
    let long = Reader::<bool>::new(b"a long key of many bytes", true);
    assert_eq!(hazard_bytes(&long).bytes(), 15);
}

#[test]
fn flush_keeps_protected_allocations() {
    let hazard = BePacked::new_hazard(be_prefix(b"k"), 8);
    let snapshot = vec![hazard, BePacked::hazard_null(), BePacked::hazard_null(), BePacked::hazard_null()];
    let keep = BePacked::new_hazard(be_prefix(b"ka"), 16).into_prefix(true, None);
    let free = BePacked::new_hazard(be_prefix(b"q"), 8).into_prefix(true, None);
    let retired = vec![(keep, 1u64), (free, 2u64), (keep, 3u64)];
    let (kept, freed) = flush_partition(&retired, &snapshot);
    assert_eq!(kept.iter().map(|e| e.1).collect::<Vec<_>>(), vec![1, 3]);
    assert_eq!(freed.iter().map(|e| e.1).collect::<Vec<_>>(), vec![2]);
    let (kept, freed) = flush_partition(&retired, &Vec::new());
    assert!(kept.is_empty());
    assert_eq!(freed.len(), 3);
}

#[test]
fn guard_drop_cycles() {
    assert_eq!(drop_decision(3, 64, 10), (false, 0));
    assert_eq!(drop_decision(64, 64, 0), (true, 1));
    assert_eq!(drop_decision(70, 64, 5), (false, 6));
    assert_eq!(drop_decision(70, 64, 64), (false, 0));
}

#[test]
fn prefix_trait_matches_inherent() {
    let p = <BePacked as Prefix>::hazard_null();
    assert!(!Prefix::is_active(p));
    let h = LePacked::new_hazard(le_prefix(b"m"), 8);
    assert_eq!(Prefix::bytes(&h), 1);
}

#[test]
fn slow_key_hazard_covers_seven_bytes() {
    let full = hazard_slow(&slow::Reader::from_u64(0x0102_0304_0506_0708));
    assert_eq!(full.bytes(), 7);
    assert!(full.is_active());
    let short = hazard_slow(&slow::Reader::from_slice(b"ab"));
    assert_eq!(short.bytes(), 2);
    let node = LePacked::new_hazard(le_prefix(b"a"), 8).into_prefix(false, None);
    assert!(node.is_conflict(&[short, LePacked::hazard_null(), LePacked::hazard_null(), LePacked::hazard_null()]));
    let other = LePacked::new_hazard(le_prefix(b"b"), 8).into_prefix(false, None);
    assert!(!other.is_conflict(&[short, LePacked::hazard_null(), LePacked::hazard_null(), LePacked::hazard_null()]));
}
