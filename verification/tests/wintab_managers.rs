use ctl460_rust::wintab::managers::{packed_marks, MgrOutcome, Supplied, DEFAULT_CONTEXT};
use ctl460_rust::wintab::session::{Cursor, Data, Notice};
use ctl460_rust::wintab::words::default_words;

const OWNER: u32 = 100;
const OTHER: u32 = 200;

fn session_with_manager() -> (Data, usize) {
    let mut d = Data::zeroed();
    d.cursors = [Cursor::standard(), Cursor::standard()];
    let id = d.open_manager(0x2000, true, 0, OWNER);
    (d, id)
}

#[test]
fn managers_open_with_the_default_base_and_close_once() {
    let (mut d, id) = session_with_manager();
    assert_eq!(id, 3);
    assert_eq!((d.managers[0].id, d.managers[0].pid, d.managers[0].window, d.managers[0].base), (3, OWNER, 0x2000, 0x7ff0));
    assert_eq!(d.open_manager(0x2000, true, 0xfff1, OWNER), 0);
    assert_eq!(d.open_manager(0x2000, false, 0, OWNER), 0);
    let second = d.open_manager(0, true, 0x4000, OTHER);
    assert_eq!(second, 4);
    assert_eq!(d.managers[1].base, 0x4000);
    assert!(!d.close_manager(id, OTHER));
    assert!(d.close_manager(id, OWNER));
    assert_eq!(d.managers[0].id, 0);
    assert!(!d.close_manager(id, OWNER));
}

#[test]
fn every_manager_slot_taken_refuses_another() {
    let mut d = Data::zeroed();
    let mut opened = 0;
    while d.open_manager(0, true, 0, OWNER) != 0 {
        opened += 1;
    }
    assert_eq!(opened, d.managers.len());
}

#[test]
fn enabling_a_cursor_tells_the_listening_managers() {
    let (mut d, id) = session_with_manager();
    let (done, notices) = d.enable_cursor(id, 1, false, OWNER);
    assert!(done);
    assert_eq!(d.cursors[1].enabled, 0);
    assert_eq!(d.cursors[0].enabled, 1);
    assert_eq!(d.revision, 1);
    assert_eq!(notices, vec![Notice { window: 0x2000, base: 0x7ff0, offset: 6, wparam: id, lparam: 201 | (2 << 16) }]);
    assert_eq!(d.enable_cursor(id, 2, true, OWNER), (false, vec![]));
    assert_eq!(d.enable_cursor(id, 0, true, OTHER), (false, vec![]));
}

#[test]
fn button_maps_are_checked_before_they_change() {
    let (mut d, id) = session_with_manager();
    let mut logical = [0u8; 32];
    logical[0] = 2;
    logical[1] = 32;
    assert_eq!(d.button_map(id, 0, Supplied::Given(logical), Supplied::Absent, OWNER), MgrOutcome::Refused);
    let mut system = [0u8; 32];
    system[0] = 10;
    assert_eq!(d.button_map(id, 0, Supplied::Absent, Supplied::Given(system), OWNER), MgrOutcome::Unsupported);
    assert_eq!(d.revision, 0);
    logical[1] = 31;
    system[0] = 9;
    assert!(matches!(d.button_map(id, 0, Supplied::Given(logical), Supplied::Given(system), OWNER), MgrOutcome::Done(_)));
    assert_eq!(d.cursors[0].button_map, logical);
    assert_eq!(d.cursors[0].system_map, system);
    assert!(matches!(d.button_map(id, 0, Supplied::Default, Supplied::Default, OWNER), MgrOutcome::Done(_)));
    let identity: Vec<u8> = (0..32).collect();
    assert_eq!(d.cursors[0].button_map[..], identity[..]);
    assert_eq!(d.cursors[0].system_map[..3], [1, 4, 0]);
    assert_eq!(d.button_map(id, 0, Supplied::Default, Supplied::Default, OTHER), MgrOutcome::Refused);
}

#[test]
fn pressure_marks_and_their_packed_form() {
    let (mut d, id) = session_with_manager();
    assert_eq!(d.pressure_marks(id, 0, Supplied::Absent, Supplied::Given(()), OWNER), MgrOutcome::Unsupported);
    assert_eq!(d.pressure_marks(id, 0, Supplied::Given([5, 4098]), Supplied::Absent, OWNER), MgrOutcome::Refused);
    let (normal, tangent) = packed_marks((300 << 16) | 20, 0);
    assert!(matches!(normal, Supplied::Given([20, 300])));
    assert!(matches!(tangent, Supplied::Absent));
    assert!(matches!(d.pressure_marks(id, 1, normal, tangent, OWNER), MgrOutcome::Done(_)));
    assert_eq!(d.cursors[1].marks, [20, 300]);
    let (normal, tangent) = packed_marks(u32::MAX, u32::MAX);
    assert!(matches!(normal, Supplied::Default) && matches!(tangent, Supplied::Default));
    assert!(matches!(d.pressure_marks(id, 1, normal, tangent, OWNER), MgrOutcome::Done(_)));
    assert_eq!(d.cursors[1].marks, [0, 1]);
}

#[test]
fn a_pressure_table_of_the_caller_is_custom_and_the_default_is_linear() {
    let (mut d, id) = session_with_manager();
    let mut table = [7u32; 256];
    table[255] = 4098;
    assert_eq!(d.pressure_response(id, 0, Supplied::Given(table), Supplied::Absent, OWNER), MgrOutcome::Refused);
    table[255] = 4097;
    assert!(matches!(d.pressure_response(id, 0, Supplied::Given(table), Supplied::Absent, OWNER), MgrOutcome::Done(_)));
    assert_eq!((d.cursors[0].response[0], d.cursors[0].response_custom), (7, 1));
    assert!(matches!(d.pressure_response(id, 0, Supplied::Default, Supplied::Default, OWNER), MgrOutcome::Done(_)));
    assert_eq!(d.cursors[0].response_custom, 0);
    assert_eq!((d.cursors[0].response[0], d.cursors[0].response[1], d.cursors[0].response[255]), (0, 16, 4097));
    assert_eq!(d.pressure_response(id, 0, Supplied::Absent, Supplied::Given(()), OWNER), MgrOutcome::Unsupported);
}

#[test]
fn the_out_of_bounds_extension_needs_its_flag() {
    let (mut d, id) = session_with_manager();
    assert_eq!(d.manager_extension(id, 0, None, OWNER), (false, vec![]));
    assert_eq!(d.manager_extension(id, 1, Some(1), OWNER), (false, vec![]));
    let (done, notices) = d.manager_extension(id, 0, Some(5), OWNER);
    assert!(done);
    assert_eq!(d.out_of_bounds, 1);
    assert_eq!(notices[0].lparam, 301 | (6 << 16));
    assert!(d.manager_extension(id, 0, Some(0), OWNER).0);
    assert_eq!(d.out_of_bounds, 0);
}

#[test]
fn managers_see_the_contexts_from_the_top() {
    let (mut d, id) = session_with_manager();
    let a = d.add("A", default_words(250, 1920, 1080), 0x1000, true, OTHER, 250).0.unwrap();
    let b = d.add("B", default_words(250, 1920, 1080), 0x1100, true, OTHER, 250).0.unwrap();
    assert_eq!(d.context_ids(id, OWNER), Some(vec![b as u32, a as u32]));
    assert_eq!(d.context_ids(id, OTHER), None);
    assert_eq!(d.context_owner(id, a, OWNER), 0x1000);
    assert_eq!(d.context_owner(id, 999, OWNER), 0);
    assert_eq!(d.context_owner(id, a, OTHER), 0);
}

#[test]
fn default_context_ids() {
    let (d, id) = session_with_manager();
    assert_eq!(d.default_context(id, u32::MAX, false, OWNER), DEFAULT_CONTEXT);
    assert_eq!(d.default_context(id, u32::MAX, true, OWNER), 0x7fff0002);
    assert_eq!(d.default_context(id, 0, false, OWNER), 0x7fff0003);
    assert_eq!(d.default_context(id, 0, true, OWNER), 0x7fff0004);
    assert_eq!(d.default_context(id, 1, true, OWNER), 0);
    assert_eq!(d.default_context(id, 0, true, OTHER), 0);
}
