use ctl460_rust::status::{handwriting_summary, summary, FeederState};
use ctl460_rust::wintab::pen::PenData;

const CAPS: &str = "CTL-460: 1,024 measured pressure values; no measured tilt; two pen side buttons.\r\nSoftware: 4,098 pressure values (0-4097); synthetic Ink API uses 0-1024.";

#[test]
fn handwriting_modes_are_worded_separately_from_stroke_assistance() {
    assert_eq!(handwriting_summary(1 << 16), "Handwriting: Off");
    assert_eq!(handwriting_summary((2 << 16) | 32), "Handwriting: On (manual); stroke assistance active");
    assert_eq!(
        handwriting_summary((3 << 16) | (87 << 8)),
        "Handwriting: Auto; stroke assistance idle; evidence 87/100 (heuristic)"
    );
    assert_eq!(
        handwriting_summary(0),
        "Handwriting mode unavailable (older feeder); stroke assistance idle"
    );
    assert_eq!(
        handwriting_summary(-1),
        "Handwriting: Auto; stroke assistance active; evidence 127/100 (heuristic)"
    );
}

#[test]
fn summary_without_a_feeder() {
    assert_eq!(
        summary(&FeederState::Unavailable),
        format!("{CAPS}\r\nFeeder stopped / unavailable in this Windows session.")
    );
    assert_eq!(
        summary(&FeederState::Unresponsive),
        format!("{CAPS}\r\nFeeder stopped or unresponsive; live values unavailable.")
    );
}

#[test]
fn summary_of_a_running_feeder() {
    let waiting = FeederState::Running { pid: 4321, backend: 2, hz: 200, latency: 350, pen: None };
    assert_eq!(
        summary(&waiting),
        format!("{CAPS}\r\nSynthetic Windows Ink: waiting for tablet input. Move the pen; if it stays unresponsive, reconnect the tablet and restart the driver. Feeder PID 4321.")
    );
    let pen = PenData { flags: 8 | (1 << 16), raw: 512, pressure: 2050, ..PenData::default() };
    let live = FeederState::Running { pid: 7, backend: 1, hz: 133, latency: 0, pen: Some(pen) };
    assert_eq!(
        summary(&live),
        format!("{CAPS}\r\nVirtual HID, 133 Hz target; pen hovering; pressure 512/1023 -> 2050/4097.\r\nHandwriting: Off. Last read-to-submit: 0 us. Feeder PID 7.")
    );
    let touching = PenData { flags: 9, raw: -3, pressure: 0, ..PenData::default() };
    let state = FeederState::Running { pid: 1, backend: 9, hz: 1000, latency: 65, pen: Some(touching) };
    assert!(summary(&state).contains("Starting, 1000 Hz target; pen touching; pressure -3/1023 -> 0/4097."));
}
