use crius::inflight::PullTracker;

#[test]
fn distinct_references_pull_concurrently() {
    let mut tracker = PullTracker::new();
    // neither pull waits for the other: both start while both are in flight
    assert!(tracker.begin("reg.io/a:1"));
    assert!(tracker.begin("reg.io/b:1"));
    assert_eq!(tracker.len(), 2);
}

#[test]
fn a_duplicate_pull_is_coalesced_until_the_first_finishes() {
    let mut tracker = PullTracker::new();
    assert!(tracker.begin("reg.io/a:1"));
    assert!(!tracker.begin("reg.io/a:1"));
    tracker.finish("reg.io/a:1");
    assert!(tracker.begin("reg.io/a:1"));
}

#[test]
fn finishing_an_unknown_reference_changes_nothing() {
    let mut tracker = PullTracker::new();
    assert!(tracker.begin("reg.io/a:1"));
    tracker.finish("reg.io/b:1");
    assert_eq!(tracker.len(), 1);
}
