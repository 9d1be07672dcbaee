use ctl460_rust::options::options;

fn args(list: &[&str]) -> Vec<String> {
    list.iter().map(|s| s.to_string()).collect()
}

#[test]
fn no_arguments_means_help() {
    let o = options(&args(&[])).unwrap();
    assert_eq!(o.command, "help");
    assert_eq!(o.device, None);
    assert!(!o.legacy && !o.initialize);
}

#[test]
fn flags_fill_the_options() {
    let o = options(&args(&[
        "run", "--device", "2", "--config", "pen.toml", "--wacom11", "--init", "--trace", "t.bin",
        "--device-path", "\\\\?\\hid", "--stop-event", "Stop",
    ]))
    .unwrap();
    assert_eq!(o.command, "run");
    assert_eq!(o.device, Some(2));
    assert_eq!(o.config.as_deref(), Some("pen.toml"));
    assert!(o.legacy && o.initialize);
    assert_eq!(o.trace.as_deref(), Some("t.bin"));
    assert_eq!(o.device_path.as_deref(), Some("\\\\?\\hid"));
    assert_eq!(o.stop_event.as_deref(), Some("Stop"));
    assert_eq!(options(&args(&["list", "--device", "+7"])).unwrap().device, Some(7));
}

#[test]
fn each_mistake_has_its_message() {
    let err = |list: &[&str]| options(&args(list)).unwrap_err();
    assert_eq!(err(&["launch"]), "Unknown command: launch; use --help");
    assert_eq!(err(&["run", "--device"]), "Missing --device index");
    assert_eq!(err(&["run", "--device", "x"]), "Invalid device index");
    assert_eq!(err(&["run", "--device", "-1"]), "Invalid device index");
    assert_eq!(err(&["run", "--config"]), "Missing --config filename");
    assert_eq!(err(&["run", "--trace"]), "Missing trace filename");
    assert_eq!(err(&["run", "--device-path"]), "Missing HID path");
    assert_eq!(err(&["run", "--stop-event"]), "Missing event name");
    assert_eq!(err(&["run", "--fast"]), "Unknown option: --fast");
    assert_eq!(err(&["capture", "--trace", "t.bin"]), "--trace is only supported with run");
}

#[test]
fn a_device_index_reads_like_a_usize() {
    let device = |text: &str| options(&args(&["list", "--device", text])).map(|o| o.device);
    assert_eq!(device("0"), Ok(Some(0)));
    assert_eq!(device("007"), Ok(Some(7)));
    assert_eq!(device(&usize::MAX.to_string()), Ok(Some(usize::MAX)));
    let too_big = format!("{}0", usize::MAX);
    assert_eq!(device(&too_big), Err("Invalid device index".to_string()));
    assert_eq!(device("+"), Err("Invalid device index".to_string()));
    assert_eq!(device(""), Err("Invalid device index".to_string()));
    assert_eq!(device("1 "), Err("Invalid device index".to_string()));
    assert_eq!(device("++1"), Err("Invalid device index".to_string()));
}
