use renormalization_learning::schedule::decay_window;

#[test]
fn test_lr_scheduler_decay_exponent_too_few() {
    // an empty history cannot be fitted over a window of 10
    assert!(decay_window(0, 10).is_none());
}

#[test]
fn decay_window_cases() {
    assert_eq!(decay_window(10, 10), Some((0, 10)));
    assert_eq!(decay_window(10, 4), Some((6, 4)));
    assert_eq!(decay_window(5, 100), Some((0, 5)));
    assert_eq!(decay_window(2, 10), None);
    assert_eq!(decay_window(10, 2), None);
    assert_eq!(decay_window(3, 3), Some((0, 3)));
}
