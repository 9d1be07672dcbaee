use ctl460_rust::wintab::session::{Data, Manager};
use ctl460_rust::wintab::words::default_words;

const OWNER: u32 = 100;
const OTHER: u32 = 200;

fn open(d: &mut Data, name: &str, pid: u32) -> usize {
    d.add(name, default_words(250, 1920, 1080), 0x1000, true, pid, 250).0.unwrap()
}

#[test]
fn contexts_open_on_top_and_obscure_the_ones_below() {
    let mut d = Data::zeroed();
    let (id, notices) = d.add("Sketch", default_words(250, 1920, 1080), 0x1000, true, OWNER, 200);
    assert_eq!(id, Some(3));
    let c = d.contexts[2];
    assert_eq!((c.id, c.pid, c.order, c.revision, c.enabled, c.queue_capacity), (3, OWNER, 1, 1, 1, 128));
    assert_eq!(c.cursor_mask, [255; 16]);
    assert_eq!(c.words[1], 4);
    assert_eq!(c.words[5], 200);
    assert_eq!(c.name[..6], "Sketch".encode_utf16().collect::<Vec<u16>>()[..]);
    assert_eq!(d.next, 4);
    assert!(!notices.is_empty());
    let second = open(&mut d, "Paint", OTHER);
    assert_eq!(second, 4);
    assert_eq!(d.contexts[3].order, 2);
    // The first context lies under the second one now.
    assert_eq!(d.contexts[2].words[1], 2);
    assert_eq!(d.contexts[3].words[1], 4);
}

#[test]
fn fresh_ids_skip_the_taken_ones_and_wrap_past_the_defaults() {
    let mut d = Data::zeroed();
    d.next = 0x7fff_ffff;
    d.managers[0] = Manager { window: 0, id: 3, pid: OWNER, base: 0x7ff0, reserved: 0 };
    assert_eq!(d.next_id(), 0x7fff_ffff);
    assert_eq!(d.next_id(), 4);
    assert_eq!(d.next, 5);
}

#[test]
fn only_the_owner_or_a_manager_may_change_a_context() {
    let mut d = Data::zeroed();
    let id = open(&mut d, "Sketch", OWNER);
    assert_eq!(d.close(id, OTHER), (false, vec![]));
    assert!(!d.enable(id, false, OTHER).0);
    assert!(!d.queue_capacity(id, 512, OTHER));
    d.managers[0] = Manager { window: 0, id: 9, pid: OTHER, base: 0x7ff0, reserved: 0 };
    assert!(d.manager(9, OTHER));
    assert!(!d.manager(9, OWNER));
    assert!(d.queue_capacity(id, 512, OTHER));
    assert_eq!((d.contexts[2].queue_capacity, d.contexts[2].revision), (512, 2));
    assert!(d.close(id, OTHER).0);
    assert_eq!(d.contexts[2].id, 0);
    assert_eq!(d.close(id, OTHER), (false, vec![]));
}

#[test]
fn disabling_and_lowering_update_the_statuses() {
    let mut d = Data::zeroed();
    let a = open(&mut d, "A", OWNER);
    let b = open(&mut d, "B", OWNER);
    assert_eq!(d.contexts[2].words[1], 2);
    assert!(d.enable(b, false, OWNER).0);
    assert_eq!((d.contexts[3].enabled, d.contexts[3].revision, d.contexts[3].words[1]), (0, 2, 1));
    assert_eq!(d.contexts[2].words[1], 4);
    assert!(d.enable(b, true, OWNER).0);
    assert!(d.overlap(b, false, OWNER).0);
    assert!(d.contexts[3].order < d.contexts[2].order);
    assert_eq!(d.contexts[3].words[1], 2);
    assert!(d.overlap(b, true, OWNER).0);
    assert_eq!(d.contexts[3].order, 3);
    assert_eq!(d.contexts[2].words[1], 2);
    let (changed, notices) = d.cursor_mask(a, [1; 16], OWNER);
    assert!(changed && notices.len() == 1);
    assert_eq!(d.contexts[2].cursor_mask, [1; 16]);
}

#[test]
fn contexts_of_ended_processes_are_pruned() {
    let mut d = Data::zeroed();
    open(&mut d, "A", OWNER);
    open(&mut d, "B", OTHER);
    d.managers[0] = Manager { window: 0, id: 9, pid: 300, base: 0, reserved: 0 };
    assert_eq!(d.prune_candidates(OWNER), vec![OTHER, 300]);
    d.prune(&vec![OTHER, 300]);
    assert_eq!(d.contexts[3].id, 0);
    assert_eq!(d.managers[0].id, 0);
    assert_eq!(d.contexts[2].id, 3);
    assert_eq!(d.contexts[2].words[1], 4);
}

#[test]
fn virtual_ids_report_the_defaults_and_a_change_keeps_foreign_locks() {
    let mut d = Data::zeroed();
    d.contexts[0].id = 1;
    d.contexts[1].id = 2;
    d.contexts[1].words = default_words(250, 1920, 1080);
    let system = d.get(0x7fff0002).unwrap();
    assert_eq!((system.id, system.words[4]), (0x7fff0002, u32::MAX));
    assert_eq!(d.get(0x7fff0004).unwrap().words[4], 0);
    assert_eq!(d.defaults(true).unwrap().id, 2);
    assert!(d.get(77).is_none());
    let id = open(&mut d, "Sketch", OTHER);
    let mut words = default_words(250, 1920, 1080);
    words[0] = 0;
    let (changed, _) = d.set(id, "Renamed", words, OWNER, 250, |current: [u32; 33], _requested: [u32; 33]| current);
    assert!(!changed);
    d.managers[0] = Manager { window: 0, id: 9, pid: OWNER, base: 0, reserved: 0 };
    let (changed, _) = d.set(id, "Renamed", words, OWNER, 250, |current: [u32; 33], _requested: [u32; 33]| current);
    assert!(changed);
    assert_eq!(d.contexts[2].words[0], default_words(250, 1920, 1080)[0]);
    assert_eq!(d.contexts[2].revision, 2);
    assert_eq!(d.contexts[2].name[..7], "Renamed".encode_utf16().collect::<Vec<u16>>()[..]);
}
