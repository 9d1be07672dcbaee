use ctl460_rust::presets::Library;

fn names(l: &Library<u8>) -> Vec<String> {
    l.presets().iter().map(|p| p.name.clone()).collect()
}

#[test]
fn names_are_trimmed_checked_and_never_reused() {
    let mut l: Library<u8> = Library::new();
    assert_eq!(l.add("  Pencil  ", 1, Ok(())), Ok(()));
    assert_eq!(names(&l), vec!["Pencil".to_string()]);
    let taken = Err("Choose a new name; existing presets are never overwritten (maximum 128).".to_string());
    assert_eq!(l.add("PENCIL", 2, Ok(())), taken);
    assert_eq!(l.presets()[0].shape, 1);
    let bad = Err("Use a name of 1-64 characters other than Default or Unsaved copy.".to_string());
    assert_eq!(l.add("   ", 3, Ok(())), bad);
    assert_eq!(l.add("Default", 3, Ok(())), bad);
    assert_eq!(l.add("unsaved COPY", 3, Ok(())), bad);
    assert_eq!(l.add("tab\there", 3, Ok(())), bad);
    assert_eq!(l.add(&"x".repeat(65), 3, Ok(())), bad);
    assert_eq!(l.add(&"x".repeat(64), 3, Ok(())), Ok(()));
    assert_eq!(l.add("Ink", 4, Err("gamma must be finite and within 0.2..=4".into())), Err("gamma must be finite and within 0.2..=4".to_string()));
    assert_eq!(l.presets().len(), 2);
}

#[test]
fn a_library_holds_at_most_128_presets() {
    let mut l: Library<u8> = Library::default();
    for i in 0..128 {
        assert_eq!(l.add(&format!("P{i}"), 0, Ok(())), Ok(()));
    }
    assert!(l.add("One more", 0, Ok(())).is_err());
    assert_eq!(l.presets().len(), 128);
}

#[test]
fn deleting_needs_the_exact_name_and_undoes_an_add() {
    let mut l: Library<u8> = Library::new();
    l.add("Soft", 1, Ok(())).unwrap();
    l.add(" Hard ", 2, Ok(())).unwrap();
    assert_eq!(l.remove("soft"), Err("Only saved custom presets can be deleted".to_string()));
    assert_eq!(l.remove("Hard"), Ok(()));
    assert_eq!(names(&l), vec!["Soft".to_string()]);
    assert_eq!(l.remove("Soft"), Ok(()));
    assert!(l.presets().is_empty());
}
