use gaussrdl::tracking::MemoryTracker;

#[test]
fn mod_test_memory_tracker() {
    let mut tracker = MemoryTracker::new();
    assert_eq!(tracker.peak_usage(), 0);
    assert_eq!(tracker.current_usage(), 0);

    tracker.track(100);
    assert_eq!(tracker.peak_usage(), 100);
    assert_eq!(tracker.current_usage(), 100);

    tracker.track(50);
    assert_eq!(tracker.peak_usage(), 100);
    assert_eq!(tracker.current_usage(), 50);

    tracker.track(200);
    assert_eq!(tracker.peak_usage(), 200);
    assert_eq!(tracker.current_usage(), 200);
}

#[test]
fn peak_is_the_largest_report() {
    let mut tracker = MemoryTracker::new();
    for bytes in [7, 3, 9, 9, 2, 0] {
        tracker.track(bytes);
    }
    assert_eq!(tracker.current_usage(), 0);
    assert_eq!(tracker.peak_usage(), 9);
}
