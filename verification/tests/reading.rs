use ctl460_rust::reading::{waiting_verdict, Waiting};

#[test]
fn a_capture_waits_a_minute_for_the_pen() {
    assert_eq!(waiting_verdict(true, false, 60, 0, 0, false), Waiting::Continue);
    assert_eq!(
        waiting_verdict(true, false, 60, 1, 0, false),
        Waiting::Fail("No physical input during the 60-second capture. Reconnect the tablet and repeat the capture while moving the pen.".into())
    );
    assert_eq!(waiting_verdict(true, true, 500, 0, 9, false), Waiting::Continue);
}

#[test]
fn reports_of_the_wrong_format_end_the_wait() {
    assert_eq!(
        waiting_verdict(false, false, 16, 0, 12, false),
        Waiting::Fail("Received 12 reports, but none matched the selected format. For the native CTL-460, turn off Legacy 11-byte reports and restart.".into())
    );
}

#[test]
fn a_run_announces_its_wait_once() {
    assert_eq!(waiting_verdict(false, false, 15, 0, 0, false), Waiting::Continue);
    assert_eq!(waiting_verdict(false, false, 15, 5, 0, false), Waiting::Announce);
    assert_eq!(waiting_verdict(false, false, 90, 0, 0, true), Waiting::Continue);
}
