//! Decisions of the report-reading loop that do not depend on the pen-shaping engine:
//! how long to wait for the first pen report, and what to say when none arrives.
use vstd::prelude::*;
use crate::text::{decimal, push_decimal, push_str};

verus! {

/// What the reading loop does about a pen that has not reported yet.
#[derive(Debug, PartialEq, Eq)]
pub enum Waiting {
    /// Keep reading.
    Continue,
    /// Keep reading, after telling the user once that the feeder is waiting.
    Announce,
    /// Stop with this error.
    Fail(String),
}

pub enum WaitingView {
    Continue,
    Announce,
    Fail(Seq<char>),
}

impl View for Waiting {
    type V = WaitingView;

    open spec fn view(&self) -> WaitingView {
        match self {
            Waiting::Continue => WaitingView::Continue,
            Waiting::Announce => WaitingView::Announce,
            Waiting::Fail(e) => WaitingView::Fail(e@),
        }
    }
}

/// How long a session waits for the first pen report: a capture a minute, to give time
/// to switch windows and begin a coordinated hardware test; a run fifteen seconds.
pub open spec fn startup_seconds(capture: bool) -> u64 {
    if capture {
        60
    } else {
        15
    }
}

/// `secs` seconds and `nanos` nanoseconds lie past `limit` whole seconds.
pub open spec fn past(secs: u64, nanos: u32, limit: u64) -> bool {
    secs > limit || (secs == limit && nanos > 0)
}

pub open spec fn mismatch_error(rejected: u64) -> Seq<char> {
    "Received "@ + decimal(rejected as nat)
        + " reports, but none matched the selected format. For the native CTL-460, turn off Legacy 11-byte reports and restart."@
}

pub open spec fn silent_capture_error() -> Seq<char> {
    "No physical input during the 60-second capture. Reconnect the tablet and repeat the capture while moving the pen."@
}

/// The verdict on a session that has run for `secs` seconds and `nanos` nanoseconds:
/// before the first pen report and past the startup wait, reports of the wrong format
/// end it, a capture ends, and a run announces (once) that it keeps waiting.
pub open spec fn waiting(capture: bool, received_pen: bool, secs: u64, nanos: u32, rejected: u64, announced: bool) -> WaitingView {
    if received_pen || !past(secs, nanos, startup_seconds(capture)) {
        WaitingView::Continue
    } else if rejected > 0 {
        WaitingView::Fail(mismatch_error(rejected))
    } else if capture {
        WaitingView::Fail(silent_capture_error())
    } else if !announced {
        WaitingView::Announce
    } else {
        WaitingView::Continue
    }
}

/// Decide what a session does while it waits for its first pen report.
pub fn waiting_verdict(capture: bool, received_pen: bool, secs: u64, nanos: u32, rejected: u64, announced: bool) -> (r:
    Waiting)
    ensures
        r@ == waiting(capture, received_pen, secs, nanos, rejected, announced),
{
    let limit: u64 = if capture { 60 } else { 15 };
    if received_pen || !(secs > limit || (secs == limit && nanos > 0)) {
        Waiting::Continue
    } else if rejected > 0 {
        let mut e = String::new();
        push_str(&mut e, "Received ");
        push_decimal(&mut e, rejected);
        push_str(
            &mut e,
            " reports, but none matched the selected format. For the native CTL-460, turn off Legacy 11-byte reports and restart.",
        );
        Waiting::Fail(e)
    } else if capture {
        Waiting::Fail(
            "No physical input during the 60-second capture. Reconnect the tablet and repeat the capture while moving the pen.".to_owned(),
        )
    } else if !announced {
        Waiting::Announce
    } else {
        Waiting::Continue
    }
}

} // verus!
