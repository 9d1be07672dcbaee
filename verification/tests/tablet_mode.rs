use ctl460_rust::live_config::{applied_status_text, fingerprint, read_status_text};
use ctl460_rust::tablet_mode::{handshake_step, initialize, judge_reply, ModeExchange, Outcomes, Step};

#[test]
fn pen_mode_is_confirmed_by_report_two_mode_two() {
    assert_eq!(judge_reply(Ok(vec![2, 2, 0])), Ok(()));
    assert_eq!(judge_reply(Ok(vec![2, 0])), Err("unexpected mode response [02, 00]".to_string()));
    assert_eq!(judge_reply(Ok(vec![0x1f, 0xa, 0xff])), Err("unexpected mode response [1F, 0A, FF]".to_string()));
    assert_eq!(judge_reply(Ok(vec![])), Err("unexpected mode response []".to_string()));
    assert_eq!(judge_reply(Err("pipe broken".to_string())), Err("pipe broken".to_string()));
}

/// Answers each exchange with the next scripted outcome and counts the exchanges.
struct Scripted {
    replies: Vec<Result<Vec<u8>, String>>,
    calls: usize,
}

impl Scripted {
    fn new(replies: Vec<Result<Vec<u8>, String>>) -> Self {
        Scripted { replies, calls: 0 }
    }
}

impl ModeExchange for Scripted {
    // A specification-only history, never called at run time.
    fn outcomes(&self) -> Outcomes {
        unreachable!()
    }
    fn exchange(&mut self) -> Result<Vec<u8>, String> {
        let r = self.replies[self.calls].clone();
        self.calls += 1;
        r
    }
}

#[test]
fn the_handshake_retries_three_times_and_names_the_last_failure() {
    let mut device = Scripted::new(vec![Ok(vec![2, 1]), Ok(vec![2, 1]), Ok(vec![2, 2])]);
    assert_eq!(initialize(&mut device), Ok(()));
    assert_eq!(device.calls, 3);
    let mut device = Scripted::new(vec![Ok(vec![2, 1]), Ok(vec![2, 1]), Err("device gone".to_string())]);
    assert_eq!(
        initialize(&mut device),
        Err("Tablet did not confirm pen mode after 3 attempts: device gone. Reconnect the tablet and try again.".to_string())
    );
    assert_eq!(device.calls, 3);
    let mut device = Scripted::new(vec![Ok(vec![2, 2])]);
    assert_eq!(initialize(&mut device), Ok(()));
    assert_eq!(device.calls, 1);
}

#[test]
fn each_exchange_is_judged_by_the_handshake_step() {
    assert_eq!(handshake_step(0, Ok(vec![2, 2])), Step::Done);
    assert_eq!(handshake_step(2, Ok(vec![2, 2, 7])), Step::Done);
    assert_eq!(handshake_step(0, Ok(vec![2, 1])), Step::Retry);
    assert_eq!(handshake_step(1, Err("timeout".to_string())), Step::Retry);
    assert_eq!(
        handshake_step(2, Ok(vec![2])),
        Step::Fail(
            "Tablet did not confirm pen mode after 3 attempts: unexpected mode response [02]. Reconnect the tablet and try again."
                .to_string()
        )
    );
}

#[test]
fn the_settings_revision_is_fnv1a_of_the_bytes() {
    assert_eq!(fingerprint(""), 0xcbf29ce484222325);
    assert_eq!(fingerprint("a"), 0xaf63dc4c8601ec8c);
    assert_eq!(fingerprint("foobar"), 0x85944171f73967e8);
    assert_ne!(fingerprint("pressure = 1"), fingerprint("pressure = 2"));
}

#[test]
fn live_settings_status_names_the_revision() {
    assert_eq!(
        read_status_text(0xab, &Ok(())),
        "00000000000000ab\nChanges saved; applying when the pen is lifted."
    );
    assert_eq!(
        read_status_text(u64::MAX, &Err("bad gamma".into())),
        "ffffffffffffffff\nSettings not applied: bad gamma"
    );
    assert_eq!(applied_status_text(0x0123_4567_89ab_cdef, &Ok(())), "0123456789abcdef\nSettings applied.");
    assert_eq!(
        applied_status_text(1, &Err("busy".into())),
        "0000000000000001\nSettings not applied; previous settings remain active: busy"
    );
}

#[test]
fn the_handshake_stops_at_the_first_confirmation() {
    let mut device = Scripted::new(vec![Ok(vec![2, 1]), Ok(vec![2, 2, 0])]);
    assert_eq!(initialize(&mut device), Ok(()));
    assert_eq!(device.calls, 2);
    let mut device = Scripted::new(vec![Err("timeout".to_string()), Err("timeout".to_string()), Ok(vec![2, 0])]);
    assert_eq!(
        initialize(&mut device),
        Err("Tablet did not confirm pen mode after 3 attempts: unexpected mode response [02, 00]. Reconnect the tablet and try again."
            .to_string())
    );
    assert_eq!(device.calls, 3);
}
