use weir::window::Window;

#[test]
fn windows_are_measured_in_milliseconds() {
    assert_eq!(Window::from_secs(60).as_millis(), 60_000);
    assert_eq!(Window::from_millis(1_500).as_millis(), 1_500);
    assert_eq!(Window::from_parts(2, 3_999_999).as_millis(), 2_003);
    assert_eq!(Window::from_parts(0, 999_999).as_millis(), 0);
    assert_eq!(Window::from_secs(u64::MAX).as_millis(), u64::MAX as u128 * 1_000);
}

#[test]
fn windows_of_the_same_length_are_equal() {
    assert!(Window::from_secs(60).same_length(&Window::from_millis(60_000)));
    assert_eq!(Window::from_secs(60), Window::from_millis(60_000));
    assert!(!Window::from_secs(60).same_length(&Window::from_secs(120)));
    assert!(!Window::from_secs(60).same_length(&Window::from_parts(60, 1)));
}
