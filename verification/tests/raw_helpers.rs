use arctic::cold;
use arctic::smr::fast_barrier;
use arctic::smr::fast_store_ordering;
use arctic::smr::slow;
use arctic::smr::Seize;
use arctic::raw::find_zero;
use arctic::raw::is_unique;
use arctic::raw::Smo;

#[test]
fn unique_keys() {
    assert!(is_unique(&[]));
    assert!(is_unique(&[0, 1, 255, 128, 127]));
    assert!(!is_unique(&[3, 4, 3]));
    assert!(!is_unique(&[200, 200]));
    let all: Vec<u8> = (0..=255u8).collect();
    assert!(is_unique(&all));
}

#[test]
fn find_zero_correct() {
    assert_eq!(find_zero(0), 0);
    assert_eq!(find_zero(0xFFFF_FFFF_FFFF_FFFF), 8);
    assert_eq!(find_zero(0x0101_0101_0101_0001), 1);
    assert_eq!(find_zero(0x0011_2233_4455_6677), 7);
    assert_eq!(find_zero(0x8080_8080_0080_8080), 3);
    assert_eq!(find_zero(0x0100_0000_0000_0101), 2);
}

#[test]
fn smo_allocates_only_on_replace() {
    assert!(Smo::ReplaceNode.is_allocate());
    assert!(!Smo::DeleteNode.is_allocate());
    assert!(!Smo::CompressEdge.is_allocate());
}

#[test]
fn reclamation_back_ends() {
    let seize = Seize::with_batch_size(32);
    let _ = seize.collector();
    let _ = Seize::new();
    assert_eq!(fast_store_ordering(true), std::sync::atomic::Ordering::SeqCst);
    assert_eq!(fast_store_ordering(false), std::sync::atomic::Ordering::SeqCst);
    fast_barrier(true);
    slow(false);
    cold();
}
