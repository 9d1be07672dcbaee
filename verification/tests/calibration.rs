use ctl460_rust::calibration::{export_path, stage_prompt, validate_profile_path, Extension};
use ctl460_rust::calibration::{check_profile_size, check_profile_version};

const NAME_ERROR: &str = "Use a name ending in .calibration_profile (for example, Pencil.calibration_profile).";

#[test]
fn profiles_need_their_own_extension_in_any_case() {
    assert_eq!(validate_profile_path(&Extension::Text("calibration_profile".into())), Ok(()));
    assert_eq!(validate_profile_path(&Extension::Text("Calibration_PROFILE".into())), Ok(()));
    assert_eq!(validate_profile_path(&Extension::Text("toml".into())), Err(NAME_ERROR.to_string()));
    assert_eq!(validate_profile_path(&Extension::Missing), Err(NAME_ERROR.to_string()));
    assert_eq!(validate_profile_path(&Extension::NotUnicode), Err(NAME_ERROR.to_string()));
}

#[test]
fn exports_append_the_extension_only_to_bare_names() {
    assert_eq!(export_path(&Extension::Missing, true), Ok(true));
    assert_eq!(export_path(&Extension::Text("calibration_profile".into()), true), Ok(false));
    assert_eq!(export_path(&Extension::Text("txt".into()), true), Err(NAME_ERROR.to_string()));
    assert_eq!(export_path(&Extension::Missing, false), Err(NAME_ERROR.to_string()));
}

#[test]
fn stage_prompts_name_the_pressure_to_use() {
    let rules = "\r\n\r\nClick OK, then draw at least two strokes inside the square, lifting between them. Recording starts with the first stroke and lasts 8 seconds. Strokes elsewhere are ignored.";
    assert_eq!(stage_prompt(0), format!("Light strokes: use gentle tip contact.{rules}"));
    assert_eq!(stage_prompt(1), format!("Medium strokes: use your normal, comfortable drawing pressure.{rules}"));
    assert_eq!(stage_prompt(2), format!("Firm strokes: use comfortably firm pressure. Never press hard.{rules}"));
    assert_eq!(stage_prompt(7), stage_prompt(2));
}

use ctl460_rust::calibration::{check_anchors, Session};

/// Two strokes of 100 samples at the given raw pressures, starting at `t`.
fn record_strokes(s: &mut Session, t: u64, pressures: [i32; 2]) {
    let mut now = t;
    for p in pressures {
        for _ in 0..100 {
            s.sample(now, p, true);
            now += 1;
        }
        s.sample(now, 0, false);
        now += 1;
    }
}

#[test]
fn a_stage_records_the_median_of_trimmed_strokes() {
    let mut s = Session::default();
    s.arm(1_000);
    assert_eq!(s.tick(5_000), None);
    record_strokes(&mut s, 1_000, [300, 320]);
    assert_eq!(s.started, Some(1_000));
    assert_eq!(s.tick(8_999), None);
    assert_eq!(s.tick(9_000), Some(Ok(false)));
    assert_eq!(s.anchors, vec![320]);
    assert_eq!(s.stage, 1);
    assert!(!s.active);
}

#[test]
fn a_stage_without_contact_times_out() {
    let mut s = Session::default();
    s.arm(0);
    assert_eq!(s.tick(119_999), None);
    assert_eq!(
        s.tick(120_000),
        Some(Err("No pen contact received. Check the driver, then record this stage again.".to_string()))
    );
    assert!(!s.active);
    assert_eq!(s.tick(200_000), None);
}

#[test]
fn short_or_single_strokes_do_not_make_a_stage() {
    let mut s = Session::default();
    s.arm(0);
    for t in 0..200 {
        s.sample(t, 500, true);
    }
    s.sample(200, 500, false);
    // Below 3 or above 1023 ends a stroke too; 19 samples do not count.
    for t in 300..319 {
        s.sample(t, 500, true);
    }
    s.sample(319, 1024, true);
    assert_eq!(
        s.tick(8_000),
        Some(Err("Draw at least two strokes during this stage, lifting between them. Please retry.".to_string()))
    );
    assert!(s.anchors.is_empty());
}

#[test]
fn stages_must_rise_by_forty_and_three_complete_the_session() {
    let mut s = Session::default();
    s.arm(0);
    record_strokes(&mut s, 0, [100, 100]);
    assert_eq!(s.tick(8_000), Some(Ok(false)));
    s.arm(10_000);
    record_strokes(&mut s, 10_000, [130, 130]);
    assert_eq!(
        s.tick(18_000),
        Some(Err("Pressure levels were too close or out of order. Retry with distinct, comfortable pressure; do not press hard.".to_string()))
    );
    assert_eq!(s.stage, 1);
    s.arm(20_000);
    record_strokes(&mut s, 20_000, [400, 400]);
    assert_eq!(s.tick(28_000), Some(Ok(false)));
    s.arm(30_000);
    record_strokes(&mut s, 30_000, [800, 800]);
    assert_eq!(s.tick(38_000), Some(Ok(true)));
    assert_eq!(s.anchors, vec![100, 400, 800]);
    assert_eq!(check_anchors(&s.anchors), Ok(()));
}

#[test]
fn anchors_must_be_three_spaced_values() {
    let error = Err("Three distinct light, medium and firm pressure measurements are required.".to_string());
    assert_eq!(check_anchors(&vec![20, 60, 100]), Ok(()));
    assert_eq!(check_anchors(&vec![19, 60, 100]), error.clone());
    assert_eq!(check_anchors(&vec![20, 59, 100]), error.clone());
    assert_eq!(check_anchors(&vec![100, 500, 981]), error.clone());
    assert_eq!(check_anchors(&vec![100, 500]), error);
}

#[test]
fn profile_files_are_bounded_and_versioned() {
    assert_eq!(check_profile_size(65_536), Ok(()));
    assert_eq!(check_profile_size(65_537), Err("Calibration profile is too large (maximum 64 KiB).".to_string()));
    assert_eq!(check_profile_version(1), Ok(()));
    assert_eq!(check_profile_version(2), Err("Unsupported calibration profile version.".to_string()));
}
