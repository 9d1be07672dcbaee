use ctl460_rust::wintab::session::Record;
use ctl460_rust::wintab::system_output::{mouse_flag, requests_system_pen, ButtonPlan, InputRoute, SystemButtons};
use ctl460_rust::wintab::words::default_words;

#[test]
fn only_a_foreground_enabled_pressure_system_context_selects_mouse_input() {
    let mut records: [Record; 2] = [Record::empty(), Record::empty()];
    records[0].id = 3;
    records[0].pid = 101;
    records[0].enabled = 1;
    records[0].words = default_words(250, 1920, 1080);
    assert!(!requests_system_pen(&records, 101)); // Digitizing context.
    records[0].words[0] |= 1;
    assert!(requests_system_pen(&records, 101));
    assert!(!requests_system_pen(&records, 202)); // Background client.
    assert!(!requests_system_pen(&records, 0));
    records[0].enabled = 0;
    assert!(!requests_system_pen(&records, 101));
    records[0].enabled = 1;
    records[0].words[6] &= !0x400;
    assert!(!requests_system_pen(&records, 101)); // Cursor-only utility.
}

#[test]
fn changing_foreground_input_api_keeps_the_same_path_through_release() {
    let mut route = InputRoute::default();
    assert!(route.update(true, false));
    assert!(route.update(true, true));
    assert!(route.update(false, true));
    assert!(route.update(false, false));
    assert!(!route.update(false, false));
    assert!(!route.update(false, true));
    assert!(!route.update(true, true));
    assert!(!route.update(true, false));
    assert!(route.update(true, false));
}

#[test]
fn system_click_double_click_drag_and_cleanup() {
    let mut map = [0; 32];
    map[0] = 1;
    map[1] = 5;
    map[2] = 9;
    let mut p = ButtonPlan::default();
    assert_eq!(p.update(1, map, true), vec![mouse_flag(0, true)]);
    assert!(p.update(1, map, true).is_empty());
    assert_eq!(p.update(0, map, true), vec![mouse_flag(0, false)]);
    assert_eq!(
        p.update(2, map, true),
        vec![
            mouse_flag(1, true),
            mouse_flag(1, false),
            mouse_flag(1, true),
            mouse_flag(1, false)
        ]
    );
    assert!(p.update(2, map, true).is_empty());
    p.update(0, map, true);
    assert_eq!(p.update(4, map, true), vec![mouse_flag(2, true)]);
    assert!(p.update(0, map, true).is_empty());
    assert_eq!(p.update(4, map, true), vec![mouse_flag(2, false)]);
    p.update(0, map, true);
    p.update(4, map, true);
    assert_eq!(p.update(0, map, false), vec![mouse_flag(2, false)]);
}

#[test]
fn classic_wintab_default_tip_emits_down_up_and_releases_on_route_change() {
    let mut map = [0; 32];
    map[0] = 1;
    map[1] = 4;
    let mut plan = ButtonPlan::default();
    assert!(plan.update(0, map, true).is_empty());
    assert_eq!(plan.update(1, map, true), vec![mouse_flag(0, true)]);
    assert!(plan.update(1, map, true).is_empty());
    assert_eq!(plan.update(0, map, true), vec![mouse_flag(0, false)]);
    assert_eq!(
        plan.update(3, map, true),
        vec![mouse_flag(0, true), mouse_flag(1, true)]
    );
    assert_eq!(
        plan.update(3, map, false),
        vec![mouse_flag(0, false), mouse_flag(1, false)]
    );
    assert!(plan.update(0, map, false).is_empty());
}

#[test]
fn mouse_flags_are_the_windows_event_values() {
    assert_eq!(mouse_flag(0, true), 0x0002);
    assert_eq!(mouse_flag(0, false), 0x0004);
    assert_eq!(mouse_flag(1, true), 0x0008);
    assert_eq!(mouse_flag(1, false), 0x0010);
    assert_eq!(mouse_flag(2, true), 0x0020);
    assert_eq!(mouse_flag(2, false), 0x0040);
}

#[test]
fn default_preferences_promote_native_buttons_and_custom_ones_plan_mouse_events() {
    let identity: [u8; 32] = std::array::from_fn(|i| i as u8);
    let mut system = [0u8; 32];
    system[0] = 1;
    system[1] = 4;
    let mut buttons = SystemButtons::default();
    assert!(!buttons.prepare(Some((identity, system)), 1, true));
    assert!(buttons.flush().is_empty());
    assert!(!buttons.prepare(None, 1, true));
    assert!(buttons.prepare_with_route(Some((identity, system)), 1, true, true));
    let pending = buttons.flush();
    assert_eq!(pending, vec![mouse_flag(0, true)]);
    assert!(buttons.should_send(pending[0], false));
    assert!(!buttons.should_send(pending[0], true));
    buttons.sent(pending[0]);
    assert!(buttons.should_send(mouse_flag(0, false), false));
    assert_eq!(buttons.owned_releases(), vec![mouse_flag(0, false)]);
    buttons.sent(mouse_flag(0, false));
    assert!(buttons.owned_releases().is_empty());
    assert!(!buttons.should_send(mouse_flag(0, false), false));
}

#[test]
fn a_map_entry_out_of_range_matters_only_for_a_pressed_button() {
    let mut logical: [u8; 32] = std::array::from_fn(|i| i as u8);
    logical[1] = 200;
    let mut system = [0u8; 32];
    system[0] = 1;
    system[1] = 4;
    let mut buttons = SystemButtons::default();
    // Only the tip is pressed, so the second entry is never used.
    assert!(buttons.prepare(Some((logical, system)), 1, true));
    assert_eq!(buttons.flush(), vec![mouse_flag(0, true)]);
}
