use ctl460_rust::device_selection::{automatic_index, is_pen_collection};
use ctl460_rust::protocol::{decode, DecodeError, ReportFormat, Sample};

#[test]
fn a_touching_report_decodes_position_pressure_and_buttons() {
    // in range, valid, ready, tip and barrel; x = 0x1234, y = 0x0567, pressure = 0x0200
    let report = [2, 0xe3, 0x34, 0x12, 0x67, 0x05, 0x00, 0x02, 0];
    let s = decode(&report, ReportFormat::Native9).unwrap();
    assert_eq!(
        s,
        Sample {
            x: 0x1234,
            y: 0x0567,
            pressure: 0x200,
            in_range: true,
            position_valid: true,
            tip: true,
            barrel: true,
            second_button: false,
            eraser: false,
        }
    );
}

#[test]
fn an_out_of_range_report_with_stale_bytes_still_releases() {
    let report = [2, 0x63, 0xff, 0xff, 0xff, 0xff, 0xff, 0xff, 0];
    assert_eq!(decode(&report, ReportFormat::Native9), Ok(Sample::default()));
}

#[test]
fn the_legacy_wrapper_must_be_chosen_and_decodes_the_same() {
    let native = [2, 0xc8, 0x10, 0x00, 0x20, 0x00, 0x00, 0x00, 0];
    let wrapped = [9, 2, 0xc8, 0x10, 0x00, 0x20, 0x00, 0x00, 0x00, 0, 7];
    assert_eq!(decode(&wrapped, ReportFormat::Wacom11), decode(&native, ReportFormat::Native9));
    assert_eq!(decode(&wrapped, ReportFormat::Native9), Err(DecodeError::Length));
    assert!(decode(&native, ReportFormat::Wacom11).is_err());
    let eraser = decode(&native, ReportFormat::Native9).unwrap();
    assert!(eraser.eraser && !eraser.tip);
}

#[test]
fn reports_out_of_bounds_or_of_another_id_are_refused() {
    assert_eq!(decode(&[1, 0, 0, 0, 0, 0, 0, 0, 0], ReportFormat::Native9), Err(DecodeError::ReportId));
    // x = 14721 with a valid position
    assert_eq!(decode(&[2, 0xc0, 0x81, 0x39, 0, 0, 0, 0, 0], ReportFormat::Native9), Err(DecodeError::Bounds));
    // pressure 1024 while ready
    assert_eq!(decode(&[2, 0xa0, 0, 0, 0, 0, 0x00, 0x04, 0], ReportFormat::Native9), Err(DecodeError::Bounds));
    // the same pressure is ignored when not ready
    assert_eq!(decode(&[2, 0x80, 0, 0, 0, 0, 0x00, 0x04, 0], ReportFormat::Native9).unwrap().pressure, 0);
}

#[test]
fn only_the_pen_collection_is_chosen_automatically() {
    assert!(is_pen_collection(0, 0x0d, 1));
    assert!(!is_pen_collection(1, 0x0d, 1));
    assert!(!is_pen_collection(0, 0x01, 2));
    assert_eq!(automatic_index(&[(1, 1, 2), (0, 0x0d, 1)]), Ok(1));
    assert_eq!(
        automatic_index(&[(1, 1, 2)]),
        Err("CTL-460 pen interface not found. Reconnect the tablet and refresh. The mouse and auxiliary interfaces cannot initialize pen mode.".to_string())
    );
    assert_eq!(
        automatic_index(&[(0, 0x0d, 1), (0, 0x0d, 1)]),
        Err("Multiple CTL-460 pens found. Select the pen you want to use.".to_string())
    );
}
