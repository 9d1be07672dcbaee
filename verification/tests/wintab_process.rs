use ctl460_rust::wintab::pen::PenData;
use ctl460_rust::wintab::process::State;
use ctl460_rust::wintab::session::{Data, Notice};
use ctl460_rust::wintab::words::default_words;

const IN_RANGE: i32 = 8;
const TIP: i32 = 1;

fn pen(x: i32, y: i32, pressure: i32, flags: i32, time: u32) -> PenData {
    PenData { time, x, y, pressure, flags, tilt_x: 0, tilt_y: 0, raw: 0 }
}

fn one_context(id: usize) -> State {
    let mut s = State::new();
    s.insert(id, "Sketch".to_string(), default_words(250, 1920, 1080), 0x500, true, 250);
    s.order = vec![id];
    s
}

#[test]
fn the_chosen_context_queues_the_sample_and_holds_a_pressed_pen() {
    let mut s = one_context(3);
    let p = pen(100, 100, 500, IN_RANGE | TIP, 1);
    let notices = s.ingest(p, true, &None, &vec![]);
    assert_eq!(
        notices,
        vec![
            Notice { window: 0x500, base: 0x7ff0, offset: 5, wparam: 3, lparam: 1 },
            Notice { window: 0x500, base: 0x7ff0, offset: 0, wparam: 1, lparam: 3 },
        ]
    );
    let c = &s.contexts[0].1;
    assert_eq!(c.queue.len(), 1);
    assert_eq!((c.queue[0].serial, c.queue[0].buttons, c.queue[0].status, c.queue[0].previous), (1, 1, 0, None));
    assert_eq!(c.previous, Some(p));
    assert_eq!(s.capture, Some(3));
}

#[test]
fn losing_focus_sends_an_out_of_range_packet() {
    let mut s = one_context(3);
    let p = pen(100, 100, 500, IN_RANGE | TIP, 1);
    s.ingest(p, true, &None, &vec![]);
    let notices = s.ingest(p, false, &None, &vec![]);
    assert_eq!(notices[0], Notice { window: 0x500, base: 0x7ff0, offset: 5, wparam: 3, lparam: 0 });
    let c = &s.contexts[0].1;
    assert_eq!(c.queue.len(), 2);
    let exit = c.queue[1];
    assert_eq!((exit.serial, exit.buttons, exit.status, exit.pen.pressure, exit.pen.flags), (2, 0, 1, 0, 0));
    assert_eq!(exit.previous, Some(p));
    assert_eq!(c.previous, None);
    assert_eq!(s.capture, None);
}

#[test]
fn a_full_queue_loses_packets_and_marks_the_loss() {
    let mut s = one_context(3);
    s.contexts[0].1.capacity = 1;
    s.ingest(pen(100, 100, 500, IN_RANGE | TIP, 1), true, &None, &vec![]);
    s.ingest(pen(200, 100, 500, IN_RANGE | TIP, 2), true, &None, &vec![]);
    let c = &s.contexts[0].1;
    assert_eq!(c.queue.len(), 1);
    assert_eq!(c.queue[0].status, 2);
    assert!(c.overflow);
    assert_eq!(c.serial, 2);
    let read = s.take_packets(3, 5, true);
    assert_eq!(read.len(), 1);
    assert!(s.contexts[0].1.queue.is_empty() && !s.contexts[0].1.overflow);
    assert!(s.take_packets(3, 0, true).is_empty());
    assert!(s.take_packets(9, 5, true).is_empty());
}

#[test]
fn serial_windows_wrap_and_reads_remove_what_they_select() {
    let mut s = one_context(3);
    s.contexts[0].1.serial = u32::MAX - 1;
    for (i, x) in [100, 200, 300, 400].into_iter().enumerate() {
        s.ingest(pen(x, 100, 500, IN_RANGE | TIP, i as u32), true, &None, &vec![]);
    }
    let serials: Vec<u32> = s.contexts[0].1.queue.iter().map(|p| p.serial).collect();
    assert_eq!(serials, vec![u32::MAX, 0, 1, 2]);
    assert_eq!(s.queue_ends(3), Some((u32::MAX, 2)));
    let (copied, total) = s.packets_in_window(3, u32::MAX, 0, 1, false).unwrap();
    assert_eq!((copied.len(), total, copied[0].serial), (1, 2, u32::MAX));
    assert_eq!(s.contexts[0].1.queue.len(), 4);
    let (_, total) = s.packets_in_window(3, u32::MAX, 0, 0, true).unwrap();
    assert_eq!(total, 2);
    let serials: Vec<u32> = s.contexts[0].1.queue.iter().map(|p| p.serial).collect();
    assert_eq!(serials, vec![1, 2]);
    assert!(s.packets_in_window(3, 0, 1, -1, true).is_none());
    assert_eq!(s.take_serial(3, 2).map(|p| p.serial), Some(2));
    assert!(s.contexts[0].1.queue.is_empty());
    assert_eq!(s.take_serial(3, 7), None);
}

#[test]
fn a_routed_winner_moves_to_the_top() {
    let mut s = one_context(3);
    s.insert(4, "Paint".to_string(), default_words(250, 1920, 1080), 0x600, true, 250);
    s.order = vec![3, 4];
    let p = pen(100, 100, 0, IN_RANGE, 1);
    s.ingest_routed(Some((p, 4)), &None, &vec![]);
    assert_eq!(s.order, vec![4, 3]);
    assert_eq!(s.contexts[1].1.queue.len(), 1);
    assert!(s.contexts[0].1.queue.is_empty());
    s.ingest_routed(None, &None, &vec![]);
    assert_eq!(s.contexts[1].1.previous, None);
}

#[test]
fn syncing_follows_the_session() {
    let mut d = Data::zeroed();
    let a = d.add("A", default_words(250, 1920, 1080), 0x500, true, 100, 250).0.unwrap();
    let b = d.add("B", default_words(250, 1920, 1080), 0x600, true, 100, 250).0.unwrap();
    let mut s = State::new();
    s.insert(a, "A".to_string(), default_words(250, 1920, 1080), 0x500, true, 250);
    s.insert(b, "B".to_string(), default_words(250, 1920, 1080), 0x600, true, 250);
    s.insert(99, "Gone".to_string(), default_words(250, 1920, 1080), 0, true, 250);
    s.sync(&d.contexts);
    assert_eq!(s.order, vec![b, a]);
    assert_eq!(s.contexts.len(), 2);
    assert_eq!(s.contexts[0].1.revision, d.contexts[2].revision);
    s.release_capture(a);
    assert!(s.has_room());
}
