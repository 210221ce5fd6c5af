use torivahti::history::ItemHistory;

#[test]
fn added_pairs_are_remembered_per_user() {
    let mut h = ItemHistory::new(100);
    assert!(!h.contains(1, 1));
    h.add_item(1, 1, 10);
    assert!(h.contains(1, 1));
    assert!(!h.contains(1, 2));
    assert!(!h.contains(2, 1));
}

#[test]
fn purge_forgets_only_expired_entries() {
    let mut h = ItemHistory::new(100);
    h.add_item(1, 1, 0);
    h.add_item(2, 1, 150);
    h.add_item(3, 1, 100);
    h.purge_old(200);
    assert_eq!(h.len(), 2);
    assert!(!h.contains(1, 1));
    assert!(h.contains(2, 1));
    assert!(h.contains(3, 1));
    assert_eq!(h.retention(), 100);
}

#[test]
fn purge_on_empty_history() {
    let mut h = ItemHistory::new(0);
    h.purge_old(i64::MAX);
    assert_eq!(h.len(), 0);
}

#[test]
fn purge_with_extreme_times_does_not_overflow() {
    let mut h = ItemHistory::new(i64::MAX);
    h.add_item(1, 1, i64::MIN);
    h.purge_old(i64::MAX);
    assert_eq!(h.len(), 0);
}

#[test]
fn purge_by_the_clock_drops_old_entries() {
    let mut h = ItemHistory::new(10);
    h.add_item(1, 1, 0);
    h.add_item(2, 1, i64::MAX);
    h.purge_expired();
    assert!(!h.contains(1, 1));
    assert!(h.contains(2, 1));
}
