use arctic::hazard::LePacked;
use arctic::reclaim::Local;
use arctic::reclaim::RECLAIM_THRESHOLD;

fn le_prefix(bytes: &[u8]) -> u64 {
    let mut value = 0u64;
    for (i, b) in bytes.iter().enumerate() {
        value |= (*b as u64) << (8 * i);
    }
    value
}

fn hazard(bytes: &[u8]) -> LePacked {
    LePacked::new_hazard(le_prefix(bytes), 8 * bytes.len())
}

#[test]
fn retire_records_prefix_and_kind() {
    let mut local: Local<LePacked> = Local::new();
    local.retire_node(hazard(b"ab"), 8, 100);
    local.retire_value(hazard(b"ab"), 200);
    let retired = local.retired();
    assert_eq!(retired.len(), 2);
    assert!(retired[0].0.is_node() && !retired[0].0.is_value());
    assert_eq!(retired[0].0.bytes(), 1);
    assert_eq!(retired[0].1, 100);
    assert!(retired[1].0.is_value());
    assert_eq!(retired[1].0.bytes(), 2);
    assert_eq!(retired[1].1, 200);
    assert_eq!(local.cycle(), 0);
}

#[test]
fn release_flushes_every_threshold_plus_one_times() {
    let mut local: Local<LePacked> = Local::new();
    assert!(!local.release(2));
    local.retire_value(hazard(b"a"), 1);
    local.retire_value(hazard(b"b"), 2);
    assert!(local.release(2));
    assert_eq!(local.cycle(), 1);
    assert!(!local.release(2));
    assert_eq!(local.cycle(), 2);
    assert!(!local.release(2));
    assert_eq!(local.cycle(), 0);
    assert!(local.release(2));
    assert_eq!(RECLAIM_THRESHOLD, 64);
}

#[test]
fn flush_keeps_what_a_hazard_protects() {
    let mut local: Local<LePacked> = Local::new();
    local.retire_node(hazard(b"abc"), 16, 10);
    local.retire_value(hazard(b"xy"), 20);
    local.retire_value(hazard(b"ab"), 30);
    let null = LePacked::hazard_null();
    let snapshot = vec![null, hazard(b"abz"), null, null];
    let freed = local.flush(&snapshot);
    assert_eq!(freed.len(), 1);
    assert_eq!(freed[0].1, 20);
    assert_eq!(local.retired().len(), 2);
    assert_eq!(local.retired()[0].1, 10);
    assert_eq!(local.retired()[1].1, 30);
    let none = vec![null, null, null, null];
    let freed = local.flush(&none);
    assert_eq!(freed.len(), 2);
    assert_eq!(local.retired().len(), 0);
}

#[test]
fn reclaim_hands_back_everything() {
    let mut local: Local<LePacked> = Local::new();
    local.retire_value(hazard(b"a"), 5);
    local.retire_node(hazard(b"a"), 0, 6);
    let all = local.reclaim();
    assert_eq!(all.iter().map(|e| e.1).collect::<Vec<_>>(), vec![5, 6]);
    assert!(local.reclaim().is_empty());
}
