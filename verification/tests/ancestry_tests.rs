use votalizer::ancestry::AncestryTracker;

#[test]
fn record_and_lookup() {
    let mut tracker = AncestryTracker::new(5, 10);
    assert!(!tracker.record_slot(10, 5));
    assert_eq!(tracker.ancestors_of(10), Some(&vec![5u64]));
    // Recording a slot gives its previously unseen parent an empty entry.
    assert_eq!(tracker.ancestors_of(5), Some(&Vec::new()));
    assert_eq!(tracker.ancestors_of(7), None);
}

#[test]
fn duplicate_slot_keeps_first_entry() {
    let mut tracker = AncestryTracker::new(16, 16);
    assert!(!tracker.record_slot(500, 4));
    // A second arrival with a different parent is a duplicate: the
    // first-recorded ancestor set stays.
    assert!(tracker.record_slot(500, 9));
    assert_eq!(tracker.ancestors_of(500), Some(&vec![4u64]));
}

#[test]
fn ancestor_cap_keeps_largest() {
    let mut tracker = AncestryTracker::new(3, 100);
    tracker.record_slot(1, 0);
    tracker.record_slot(2, 1);
    tracker.record_slot(3, 2);
    assert_eq!(tracker.ancestors_of(3), Some(&vec![0u64, 1, 2]));
    // One more ancestor than the cap: the smallest value is dropped.
    tracker.record_slot(4, 3);
    assert_eq!(tracker.ancestors_of(4), Some(&vec![1u64, 2, 3]));
    tracker.record_slot(5, 4);
    assert_eq!(tracker.ancestors_of(5), Some(&vec![2u64, 3, 4]));
}

#[test]
fn entry_cap_evicts_oldest_inserted() {
    let mut tracker = AncestryTracker::new(10, 2);
    tracker.record_slot(1, 0);
    assert!(tracker.contains(0));
    assert!(tracker.contains(1));
    tracker.record_slot(2, 1);
    // The oldest-inserted key leaves once the cache is over capacity.
    assert!(!tracker.contains(0));
    assert!(tracker.contains(1));
    assert!(tracker.contains(2));
    // The evicted key's value still shows up among its child's ancestors.
    assert_eq!(tracker.ancestors_of(2), Some(&vec![0u64, 1]));
}

#[test]
fn slot_as_its_own_parent() {
    let mut tracker = AncestryTracker::new(10, 10);
    assert!(!tracker.record_slot(7, 7));
    assert_eq!(tracker.ancestors_of(7), Some(&vec![7u64]));
}
