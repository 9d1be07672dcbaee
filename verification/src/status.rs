//! Read-only capability and live feeder status texts shared by the command line and the
//! control panel. Reading the feeder's shared status happens at the edge; these functions
//! only word what was read.
use vstd::prelude::*;
use crate::text::{decimal, push_decimal, push_signed, push_str, signed_decimal};
use crate::wintab::pen::PenData;

verus! {

/// What the running feeder reports, as read from its shared status.
pub enum FeederState {
    /// The feeder's status could not be opened in this Windows session.
    Unavailable,
    /// The status exists but the feeder no longer reports activity.
    Unresponsive,
    /// A running feeder: its process id, output backend, target rate in Hz, the latest
    /// read-to-submit latency in microseconds, and its newest pen sample if it has one.
    Running { pid: u32, backend: u32, hz: u32, latency: u32, pen: Option<PenData> },
}

pub open spec fn activity(flags: i32) -> Seq<char> {
    if flags & 32 != 0 {
        "active"@
    } else {
        "idle"@
    }
}

/// The handwriting mode word of the feeder flags (bits 16 and 17).
pub open spec fn handwriting_mode(flags: i32) -> i32 {
    (flags >> 16) & 3
}

/// The handwriting evidence of the feeder flags (bits 8 to 14), 0 to 127.
pub open spec fn handwriting_evidence(flags: i32) -> i32 {
    (flags >> 8) & 127
}

pub open spec fn spec_handwriting_summary(flags: i32) -> Seq<char> {
    let mode = handwriting_mode(flags);
    if mode == 1 {
        "Handwriting: Off"@
    } else if mode == 2 {
        "Handwriting: On (manual); stroke assistance "@ + activity(flags)
    } else if mode == 3 {
        "Handwriting: Auto; stroke assistance "@ + activity(flags) + "; evidence "@ + decimal(
            handwriting_evidence(flags) as nat,
        ) + "/100 (heuristic)"@
    } else {
        "Handwriting mode unavailable (older feeder); stroke assistance "@ + activity(flags)
    }
}

fn push_activity(out: &mut String, flags: i32)
    ensures
        final(out)@ == old(out)@ + activity(flags),
{
    if flags & 32 != 0 {
        push_str(out, "active");
    } else {
        push_str(out, "idle");
    }
}

/// Report the running feeder's handwriting mode separately from assistance on the
/// current stroke.
pub fn handwriting_summary(flags: i32) -> (s: String)
    ensures
        s@ == spec_handwriting_summary(flags),
{
    let mode = (flags >> 16) & 3;
    let mut s = String::new();
    if mode == 1 {
        push_str(&mut s, "Handwriting: Off");
    } else if mode == 2 {
        push_str(&mut s, "Handwriting: On (manual); stroke assistance ");
        push_activity(&mut s, flags);
    } else if mode == 3 {
        let evidence = (flags >> 8) & 127;
        assert(0 <= (flags >> 8) & 127 < 128) by (bit_vector);
        push_str(&mut s, "Handwriting: Auto; stroke assistance ");
        push_activity(&mut s, flags);
        push_str(&mut s, "; evidence ");
        push_decimal(&mut s, evidence as u64);
        push_str(&mut s, "/100 (heuristic)");
    } else {
        push_str(&mut s, "Handwriting mode unavailable (older feeder); stroke assistance ");
        push_activity(&mut s, flags);
    }
    assert(s@ =~= spec_handwriting_summary(flags));
    s
}

/// What the tablet and the software can measure, independent of any running feeder.
pub open spec fn capabilities() -> Seq<char> {
    "CTL-460: 1,024 measured pressure values; no measured tilt; two pen side buttons.\r\nSoftware: 4,098 pressure values (0-4097); synthetic Ink API uses 0-1024."@
}

pub open spec fn backend_name(backend: u32) -> Seq<char> {
    if backend == 1 {
        "Virtual HID"@
    } else if backend == 2 {
        "Synthetic Windows Ink"@
    } else {
        "Starting"@
    }
}

pub open spec fn pen_state(p: PenData) -> Seq<char> {
    if p.flags & 1 != 0 {
        "touching"@
    } else if p.spec_in_range() {
        "hovering"@
    } else {
        "out of range"@
    }
}

pub open spec fn spec_summary(state: FeederState) -> Seq<char> {
    match state {
        FeederState::Unavailable => capabilities() + "\r\nFeeder stopped / unavailable in this Windows session."@,
        FeederState::Unresponsive => capabilities() + "\r\nFeeder stopped or unresponsive; live values unavailable."@,
        FeederState::Running { pid, backend, hz, latency, pen } => match pen {
            None => capabilities() + "\r\n"@ + backend_name(backend)
                + ": waiting for tablet input. Move the pen; if it stays unresponsive, reconnect the tablet and restart the driver. Feeder PID "@
                + decimal(pid as nat) + "."@,
            Some(p) => capabilities() + "\r\n"@ + backend_name(backend) + ", "@ + decimal(hz as nat)
                + " Hz target; pen "@ + pen_state(p) + "; pressure "@ + signed_decimal(p.raw as int) + "/1023 -> "@
                + signed_decimal(p.pressure as int) + "/4097.\r\n"@ + spec_handwriting_summary(p.flags)
                + ". Last read-to-submit: "@ + decimal(latency as nat) + " us. Feeder PID "@ + decimal(pid as nat)
                + "."@,
        },
    }
}

fn push_capabilities(out: &mut String)
    ensures
        final(out)@ == old(out)@ + capabilities(),
{
    push_str(
        out,
        "CTL-460: 1,024 measured pressure values; no measured tilt; two pen side buttons.\r\nSoftware: 4,098 pressure values (0-4097); synthetic Ink API uses 0-1024.",
    );
}

fn push_backend(out: &mut String, backend: u32)
    ensures
        final(out)@ == old(out)@ + backend_name(backend),
{
    if backend == 1 {
        push_str(out, "Virtual HID");
    } else if backend == 2 {
        push_str(out, "Synthetic Windows Ink");
    } else {
        push_str(out, "Starting");
    }
}

fn push_pen_state(out: &mut String, p: &PenData)
    ensures
        final(out)@ == old(out)@ + pen_state(*p),
{
    if p.flags & 1 != 0 {
        push_str(out, "touching");
    } else if p.in_range() {
        push_str(out, "hovering");
    } else {
        push_str(out, "out of range");
    }
}

/// Capabilities and live feeder status, worded from what the feeder reports.
pub fn summary(state: &FeederState) -> (s: String)
    ensures
        s@ == spec_summary(*state),
{
    let mut s = String::new();
    push_capabilities(&mut s);
    match state {
        FeederState::Unavailable => {
            push_str(&mut s, "\r\nFeeder stopped / unavailable in this Windows session.");
        },
        FeederState::Unresponsive => {
            push_str(&mut s, "\r\nFeeder stopped or unresponsive; live values unavailable.");
        },
        FeederState::Running { pid, backend, hz, latency, pen } => {
            push_str(&mut s, "\r\n");
            push_backend(&mut s, *backend);
            match pen {
                None => {
                    push_str(
                        &mut s,
                        ": waiting for tablet input. Move the pen; if it stays unresponsive, reconnect the tablet and restart the driver. Feeder PID ",
                    );
                    push_decimal(&mut s, *pid as u64);
                    push_str(&mut s, ".");
                },
                Some(p) => {
                    push_str(&mut s, ", ");
                    push_decimal(&mut s, *hz as u64);
                    push_str(&mut s, " Hz target; pen ");
                    push_pen_state(&mut s, p);
                    push_str(&mut s, "; pressure ");
                    push_signed(&mut s, p.raw as i64);
                    push_str(&mut s, "/1023 -> ");
                    push_signed(&mut s, p.pressure as i64);
                    push_str(&mut s, "/4097.\r\n");
                    let writing = handwriting_summary(p.flags);
                    push_str(&mut s, writing.as_str());
                    push_str(&mut s, ". Last read-to-submit: ");
                    push_decimal(&mut s, *latency as u64);
                    push_str(&mut s, " us. Feeder PID ");
                    push_decimal(&mut s, *pid as u64);
                    push_str(&mut s, ".");
                },
            }
        },
    }
    assert(s@ =~= spec_summary(*state));
    s
}

} // verus!
