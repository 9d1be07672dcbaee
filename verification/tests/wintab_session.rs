use ctl460_rust::wintab::pen::PenData;
use ctl460_rust::wintab::routing::apply_pressure;
use ctl460_rust::wintab::session::{Cursor, Data, Record};
use ctl460_rust::wintab::words::default_words;

fn record(id: u32, pid: u32, order: i64) -> Record {
    Record {
        id,
        pid,
        order,
        enabled: 1,
        words: default_words(250, 1920, 1080),
        ..Record::empty()
    }
}

/// An opened context: a new context selects every cursor.
fn context(id: u32, pid: u32, order: i64) -> Record {
    Record { cursor_mask: [255; 16], ..record(id, pid, order) }
}

#[test]
fn foreground_app_reclaims_contexts_from_a_background_drawing_app() {
    let mut d = Data::zeroed();
    for (index, pid, order) in [(2, 100, 1), (3, 100, 2), (4, 200, 3)] {
        d.contexts[index] = record(index as u32 + 1, pid, order);
    }
    d.order = 3;
    d.capture = 5;
    assert!(d.foreground(100).0);
    assert!(d.contexts[3].order > d.contexts[2].order);
    assert!(d.contexts[2].order > d.contexts[4].order);
    assert_eq!(d.contexts[3].words[1], 4);
    assert_eq!(d.contexts[4].words[1], 2);
    assert_eq!(d.capture, 0);
    assert!(!d.foreground(100).0);
    assert!(!d.foreground(0).0);
    assert!(!d.foreground(300).0);
    assert!(d.foreground(200).0);
    assert_eq!(d.contexts[4].words[1], 4);
}

fn pen(x: i32, y: i32, flags: i32) -> PenData {
    PenData { x, y, flags, pressure: 100, ..PenData::default() }
}

#[test]
fn routing_picks_the_top_context_and_replays_the_cached_decision() {
    let mut d = Data::zeroed();
    d.cursors = [Cursor::standard(), Cursor::standard()];
    d.contexts[2] = context(3, 100, 1);
    d.contexts[3] = context(4, 200, 2);
    d.order = 2;
    // A sample in range over the whole tablet: the topmost context (order 2) wins.
    let (routed, _) = d.route(pen(7360, 4600, 8), 1, 1, 0);
    let (sample, winner) = routed.unwrap();
    assert_eq!(winner, 4);
    assert_eq!(sample.x, 7360);
    // A second reader of the same sequence gets the same decision.
    let (again, notices) = d.route(pen(0, 0, 0), 1, 1, 0);
    assert_eq!(again, Some((sample, 4)));
    assert!(notices.is_empty());
    // An older sequence is ignored.
    assert_eq!(d.route(pen(7360, 4600, 8), 1, 0, 0).0, None);
    // Focus moves to process 100: its context is raised and receives the next sample.
    let (routed, _) = d.route(pen(7360, 4600, 8), 1, 2, 100);
    assert_eq!(routed.unwrap().1, 3);
    // Out of range: nobody wins.
    let (routed, _) = d.route(pen(7360, 4600, 0), 1, 3, 100);
    assert_eq!(routed.unwrap().1, 0);
}

#[test]
fn a_new_feeder_restarts_routing() {
    let mut d = Data::zeroed();
    d.cursors = [Cursor::standard(), Cursor::standard()];
    d.contexts[2] = context(3, 100, 1);
    d.order = 1;
    assert_eq!(d.route(pen(10, 10, 8), 1, 5, 0).0.unwrap().1, 3);
    assert_eq!(d.route(pen(10, 10, 8), 1, 4, 0).0, None);
    // Another owner starts over at any sequence.
    assert_eq!(d.route(pen(10, 10, 8), 2, 1, 0).0.unwrap().1, 3);
    assert_eq!(d.route_owner, 2);
}

#[test]
fn pressure_marks_hold_the_tip_with_hysteresis() {
    let mut c = Cursor::standard();
    c.marks = [100, 200];
    let mut held = 0;
    let p = apply_pressure(pen(0, 0, 8 | 1), &c, &mut held);
    assert_eq!((p.flags & 1, held), (0, 0)); // 100 < press mark 200
    let p = apply_pressure(PenData { pressure: 250, ..pen(0, 0, 8) }, &c, &mut held);
    assert_eq!((p.flags & 1, held), (1, 1));
    let p = apply_pressure(PenData { pressure: 150, ..pen(0, 0, 8) }, &c, &mut held);
    assert_eq!((p.flags & 1, held), (1, 1)); // still above the release mark
    let p = apply_pressure(PenData { pressure: 100, ..pen(0, 0, 8) }, &c, &mut held);
    assert_eq!((p.flags & 1, held), (0, 0));
    // Out of range clears everything.
    let p = apply_pressure(PenData { pressure: 300, ..pen(0, 0, 0) }, &c, &mut held);
    assert_eq!((p.flags, p.pressure, held), (0, 0, 0));
}

#[test]
fn custom_response_interpolates_the_table() {
    let mut c = Cursor::standard();
    c.response_custom = 1;
    c.response = [0; 256];
    c.response[255] = 4097;
    let mut held = 0;
    let p = apply_pressure(PenData { pressure: 4097, ..pen(0, 0, 8) }, &c, &mut held);
    assert_eq!(p.pressure, 4097);
    let p = apply_pressure(PenData { pressure: 0, ..pen(0, 0, 8) }, &c, &mut held);
    assert_eq!(p.pressure, 0);
}
