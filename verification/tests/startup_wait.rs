use ctl460_rust::startup_wait::StartupWait;

#[test]
fn a_login_start_defers_a_missing_tablet_for_a_minute() {
    let mut w = StartupWait::new(1_000, true);
    assert!(w.due(1_000));
    assert!(w.defer_missing_device(1_000));
    assert!(!w.due(2_999));
    assert!(w.due(3_000));
    assert!(w.defer_missing_device(60_999));
    assert!(!w.defer_missing_device(61_000));
    // The window never reopens.
    assert!(!w.defer_missing_device(1_500));
}

#[test]
fn a_manual_start_or_a_cancelled_wait_never_defers() {
    let mut w = StartupWait::new(5, false);
    assert!(!w.defer_missing_device(5));
    let mut w = StartupWait::new(5, true);
    w.cancel();
    assert!(!w.defer_missing_device(6));
    assert!(w.due(5));
}
