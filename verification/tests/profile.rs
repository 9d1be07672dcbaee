use ctl460_rust::profile::{ProfileSettings, RealChecks, RealSetting};
use ctl460_rust::protocol::Sample;

fn passing() -> RealChecks {
    RealChecks { circle_smoothing: true, pen_control: true, pressure_nodes: true, out_of_range: None }
}

#[test]
fn the_built_in_profiles_are_valid() {
    assert_eq!(ProfileSettings::default().validate(&passing()), Ok(()));
    let simple = ProfileSettings::simple_default();
    assert_eq!((simple.handwriting_mode.as_str(), simple.handwriting_filter.as_str()), ("on", "minimal"));
    assert_eq!(simple.validate(&passing()), Ok(()));
}

#[test]
fn problems_are_reported_in_check_order() {
    let mut p = ProfileSettings::default();
    p.backend = "usb".into();
    p.floor = 1023;
    assert_eq!(p.validate(&passing()), Err("backend must be 'ink' or 'hid'".into()));
    let checks = RealChecks { pen_control: false, ..passing() };
    assert_eq!(p.validate(&checks), Err("pen_control must be finite and within 0..100".into()));
    p.backend = "hid".into();
    assert_eq!(p.validate(&passing()), Err("Require 0 <= floor < ceiling <= 1023".into()));
    p.floor = 0;
    p.press_off = 3;
    assert_eq!(p.validate(&passing()), Err("Require press_off < press_on <= 1023".into()));
    p.press_off = 1;
    p.output_hz = 59;
    let checks = RealChecks { out_of_range: Some(RealSetting::Gamma), ..passing() };
    assert_eq!(p.validate(&checks), Err("gamma must be finite and within 0.2..=4".into()));
    assert_eq!(p.validate(&passing()), Err("output_hz must be 60..=500; stale_ms must be 30..=1000".into()));
}

#[test]
fn names_and_distances_are_checked() {
    let mut p = ProfileSettings::default();
    p.handwriting_filter = "smooth".into();
    assert_eq!(
        p.validate(&passing()),
        Err("handwriting_filter must be 'legacy', 'raw', 'minimal', or 'responsive'".into())
    );
    p.handwriting_filter = "responsive".into();
    p.double_click_distance = 41;
    assert_eq!(p.validate(&passing()), Err("double_click_distance must be 0..40 screen pixels".into()));
    p.double_click_distance = 40;
    p.handwriting_mode = "always".into();
    assert_eq!(p.validate(&passing()), Err("handwriting_mode must be 'off', 'on', or 'auto'".into()));
    p.handwriting_mode = "auto".into();
    p.button2 = "Jump".into();
    assert_eq!(p.validate(&passing()), Err("Unsupported button action".into()));
    p.button2 = "Double click".into();
    assert_eq!(p.validate(&passing()), Ok(()));
    let nodes = RealChecks { pressure_nodes: false, ..passing() };
    assert!(p.validate(&nodes).unwrap_err().starts_with("Pressure nodes must increase"));
}

#[test]
fn erase_is_held_by_either_assigned_button() {
    let mut p = ProfileSettings::default();
    p.button2 = "Erase (hold)".into();
    assert!(p.button_eraser([false, true]));
    assert!(!p.button_eraser([true, false]));
    p.button1 = "Erase (hold)".into();
    assert!(p.button_eraser([true, false]));
    assert!(!p.button_eraser([false, false]));
}

#[test]
fn a_drawing_preset_keeps_mapping_and_shortcuts() {
    let mut mine = ProfileSettings::default();
    mine.left_handed = true;
    mine.double_click_distance = 12;
    mine.button1 = "Undo (Ctrl+Z)".into();
    mine.backend = "hid".into();
    let mut preset = ProfileSettings::simple_default();
    preset.floor = 40;
    preset.left_handed = false;
    let merged = mine.drawing_profile(preset);
    assert!(merged.left_handed);
    assert_eq!((merged.double_click_distance, merged.floor), (12, 40));
    assert_eq!((merged.button1.as_str(), merged.backend.as_str()), ("Undo (Ctrl+Z)", "hid"));
    assert_eq!(merged.handwriting_mode, "on");
}

#[test]
fn side_buttons_follow_their_assignments_and_erasing_wins() {
    let mut p = ProfileSettings::default();
    let sample = Sample { in_range: true, barrel: true, second_button: true, ..Default::default() };
    let (held, out) = p.assign_buttons(sample);
    assert_eq!(held, [true, true]);
    assert!(out.barrel && !out.eraser);
    p.button2 = "Erase (hold)".into();
    let (_, out) = p.assign_buttons(sample);
    assert!(out.eraser && !out.barrel);
    let away = Sample { in_range: false, ..sample };
    let (held, out) = p.assign_buttons(away);
    assert_eq!(held, [false, false]);
    assert!(!out.barrel && !out.eraser);
}
