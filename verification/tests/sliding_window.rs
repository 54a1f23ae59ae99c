use weir::budget::sliding_window::SlidingWindowCounter;
use weir::window::Window;

#[test]
fn accumulates_within_single_window() {
    let mut c = SlidingWindowCounter::new(Window::from_secs(60));
    assert_eq!(c.add(10, 1_000), 10);
    assert_eq!(c.add(5, 1_500), 15);
    assert_eq!(c.estimate(1_600), 15);
}

#[test]
fn rollover_carries_previous_window_weighted() {
    let mut c = SlidingWindowCounter::new(Window::from_millis(1000));
    c.add(100, 0); // bucket 0: 100 tokens
    // Halfway into bucket 1 (t=1500): bucket 0 contributes ~50% weight.
    let total = c.estimate(1_500);
    assert!((45..=55).contains(&total), "expected ~50, got {total}");
}

#[test]
fn gap_larger_than_two_windows_resets_to_zero() {
    let mut c = SlidingWindowCounter::new(Window::from_millis(1000));
    c.add(100, 0);
    assert_eq!(c.estimate(5_000), 0);
}

#[test]
fn interleaved_adds_are_not_lost() {
    let mut counter = SlidingWindowCounter::new(Window::from_secs(60));
    for round in 0..1000 {
        for worker in 0..8 {
            assert_eq!(counter.add(1, 0), round * 8 + worker + 1);
        }
    }
    assert_eq!(counter.estimate(0), 8000);
}

#[test]
fn the_share_of_the_previous_window_is_weighted_in_doubles() {
    let mut c = SlidingWindowCounter::new(Window::from_millis(1000));
    c.add(675, 0);
    // 675 * (700 / 1000) is 472.5, but the double nearest to it is below.
    assert_eq!(c.estimate(1_300), 472);

    let mut c = SlidingWindowCounter::new(Window::from_millis(1000));
    c.add(380, 999);
    assert_eq!(c.estimate(1_425), 218);
    assert_eq!(c.add(2, 1_425), 220);
}

#[test]
fn the_whole_previous_window_counts_at_the_rollover() {
    let mut c = SlidingWindowCounter::new(Window::from_millis(1000));
    c.add(100, 999);
    assert_eq!(c.estimate(1_000), 100);
    assert_eq!(c.estimate(1_999), 0);
    assert_eq!(c.estimate(2_000), 0);
}

#[test]
fn only_the_window_before_counts() {
    let mut c = SlidingWindowCounter::new(Window::from_millis(1000));
    c.add(100, 500);
    c.add(40, 1_500);
    assert_eq!(c.estimate(1_500), 90);
    assert_eq!(c.estimate(2_500), 20);
    assert_eq!(c.estimate(3_500), 0);
}

#[test]
fn a_clock_that_goes_back_starts_over() {
    let mut c = SlidingWindowCounter::new(Window::from_millis(1000));
    c.add(100, 5_000);
    assert_eq!(c.estimate(1_000), 0);
    assert_eq!(c.estimate(5_000), 0);
}

#[test]
fn moments_before_time_zero_fall_into_windows_too() {
    let mut c = SlidingWindowCounter::new(Window::from_millis(1000));
    c.add(100, -1);
    assert_eq!(c.estimate(-1_000), 100);
    assert_eq!(c.estimate(250), 75);
}

#[test]
fn a_window_below_a_millisecond_is_one_millisecond() {
    let mut c = SlidingWindowCounter::new(Window::from_parts(0, 1));
    assert_eq!(c.add(5, 0), 5);
    assert_eq!(c.add(1, 1), 6);
    assert_eq!(c.estimate(2), 1);
    assert_eq!(c.estimate(3), 0);
}

#[test]
fn looking_changes_nothing() {
    let mut looked_at = SlidingWindowCounter::new(Window::from_millis(1000));
    let mut left_alone = SlidingWindowCounter::new(Window::from_millis(1000));
    looked_at.add(77, 0);
    left_alone.add(77, 0);
    for now_ms in [10, 500, 999, 1_000, 1_250] {
        assert_eq!(looked_at.estimate(now_ms), looked_at.estimate(now_ms));
    }
    assert_eq!(looked_at.add(3, 1_250), left_alone.add(3, 1_250));
}

#[test]
fn usage_only_decays_with_time() {
    let mut c = SlidingWindowCounter::new(Window::from_millis(977));
    c.add(123_456, 0);
    c.add(654_321, 977);
    let mut before = c.estimate(977);
    assert_eq!(before, 777_777);
    for now_ms in 978..4_000 {
        let now = c.estimate(now_ms);
        assert!(now <= before, "{now} tokens at {now_ms}, {before} just before");
        before = now;
    }
    assert_eq!(before, 0);
}

#[test]
fn counts_that_do_not_fit_are_found_out_beforehand() {
    let mut c = SlidingWindowCounter::new(Window::from_millis(1000));
    assert!(c.can_count(u64::MAX, 0));
    assert_eq!(c.add(u64::MAX, 0), u64::MAX);
    assert!(c.can_count(0, 0));
    assert!(!c.can_count(1, 0));
    // In the next window the old count is carried and leaves no room either.
    assert!(!c.can_count(1, 1_000));
    assert!(c.can_count(1, 1_999));
    // A window that starts before the first moment of the clock.
    assert!(!c.can_count(0, i64::MIN));
    assert!(c.can_count(0, i64::MAX));
}

#[test]
fn windows_longer_than_the_clock_count_nothing() {
    // 2^63 milliseconds, which as a signed number is negative.
    let c = SlidingWindowCounter::new(Window::from_parts(9_223_372_036_854_775, 808_000_000));
    assert!(!c.can_count(0, 0));
    // One millisecond less is the longest window there is.
    let c = SlidingWindowCounter::new(Window::from_parts(9_223_372_036_854_775, 807_000_000));
    assert!(c.can_count(5, 0));
}
