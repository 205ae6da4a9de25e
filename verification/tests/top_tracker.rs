use rocket_search::tracker::TopNTracker;

#[test]
fn capacity_two_keeps_the_two_best_scores() {
    let mut tracker = TopNTracker::new(2);
    tracker.offer(10, 0);
    tracker.offer(30, 1);
    tracker.offer(20, 2);
    tracker.offer(5, 3);
    assert_eq!(*tracker.entries(), vec![(30, 1), (20, 2)]);
}

#[test]
fn offers_below_the_worst_leave_a_full_tracker_unchanged() {
    let mut tracker = TopNTracker::new(2);
    tracker.offer(30, 0);
    tracker.offer(20, 1);
    let before = tracker.entries().clone();
    tracker.offer(5, 2);
    assert_eq!(*tracker.entries(), before);
    tracker.offer(20, 3);
    assert_eq!(*tracker.entries(), before);
}

#[test]
fn entries_stay_sorted_below_capacity() {
    let mut tracker = TopNTracker::new(5);
    for (key, id) in [(10u64, 0usize), (30, 1), (20, 2), (5, 3), (25, 4)] {
        tracker.offer(key, id);
    }
    assert_eq!(*tracker.entries(), vec![(30, 1), (25, 4), (20, 2), (10, 0), (5, 3)]);
}

#[test]
fn a_tying_offer_to_a_full_tracker_goes_after_the_older_holder() {
    let mut tracker = TopNTracker::new(3);
    tracker.offer(30, 0);
    tracker.offer(20, 1);
    tracker.offer(10, 2);
    tracker.offer(20, 3);
    assert_eq!(*tracker.entries(), vec![(30, 0), (20, 1), (20, 3)]);
}

#[test]
fn a_tying_offer_below_capacity_also_goes_after_the_older_holder() {
    let mut tracker = TopNTracker::new(4);
    tracker.offer(20, 0);
    tracker.offer(20, 1);
    tracker.offer(25, 2);
    assert_eq!(*tracker.entries(), vec![(25, 2), (20, 0), (20, 1)]);
}

#[test]
fn a_zero_capacity_tracker_keeps_nothing() {
    let mut tracker = TopNTracker::new(0);
    tracker.offer(40, 0);
    assert_eq!(tracker.len(), 0);
    assert!(tracker.entries().is_empty());
}

#[test]
fn the_tracker_never_exceeds_its_capacity() {
    let mut tracker = TopNTracker::new(3);
    for id in 0..100usize {
        tracker.offer((id as u64 * 7) % 41, id);
        assert!(tracker.len() <= 3);
        let entries = tracker.entries();
        for pair in entries.windows(2) {
            assert!(pair[0].0 >= pair[1].0);
        }
    }
    assert_eq!(tracker.capacity(), 3);
}
