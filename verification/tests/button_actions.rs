use ctl460_rust::button_actions::{
    action_shortcut, captured_shortcut, shortcut, validate, Bindings, InputCode, InputSink, SinkEvents,
};

/// Records injected input; `held` is what the user already holds, `refuse` fails the
/// n-th send (counting from 0).
struct Recorder {
    events: Vec<(InputCode, bool)>,
    held: Vec<InputCode>,
    sends: usize,
    refuse: Option<usize>,
}

impl Recorder {
    fn new() -> Self {
        Recorder { events: Vec::new(), held: Vec::new(), sends: 0, refuse: None }
    }
}

impl InputSink for Recorder {
    // The history is a specification-only item; `events` above is the recorder's own copy.
    fn events(&self) -> SinkEvents {
        unreachable!()
    }
    fn held(&self, code: InputCode) -> bool {
        self.held.contains(&code)
    }
    fn send(&mut self, code: InputCode, up: bool) -> Result<(), String> {
        let n = self.sends;
        self.sends += 1;
        if self.refuse == Some(n) {
            return Err("refused".to_string());
        }
        self.events.push((code, up));
        Ok(())
    }
}

fn bindings(first: &str, second: &str) -> Bindings {
    Bindings::new([first.to_string(), second.to_string()])
}

#[test]
fn shortcut_parses_modifiers_first_then_one_key() {
    assert_eq!(shortcut("Ctrl+Z").unwrap(), vec![0x11, 0x5a]);
    assert_eq!(shortcut("ctrl + shift + s").unwrap(), vec![0x11, 0x10, 0x53]);
    assert_eq!(shortcut("Space").unwrap(), vec![0x20]);
    assert_eq!(shortcut("F5").unwrap(), vec![0x74]);
    assert_eq!(shortcut("F24").unwrap(), vec![0x87]);
    assert_eq!(shortcut("Win+Numpad7").unwrap(), vec![0x5b, 0x67]);
    assert_eq!(shortcut("Alt+PgDn").unwrap(), vec![0x12, 0x22]);
}

#[test]
fn shortcut_refuses_malformed_chords() {
    let error = "Use a shortcut such as Ctrl+Z, Ctrl+Shift+S, Space or F5".to_string();
    assert_eq!(shortcut("Ctrl+Ctrl+Z"), Err(error.clone()));
    assert_eq!(shortcut("Ctrl+Shift"), Err(error.clone()));
    assert_eq!(shortcut("A+B"), Err(error.clone()));
    assert_eq!(shortcut("F25"), Err(error.clone()));
    assert_eq!(shortcut("F0"), Err(error.clone()));
    assert_eq!(shortcut(""), Err(error.clone()));
    assert_eq!(shortcut(&"A".repeat(81)), Err(error));
}

#[test]
fn actions_name_their_chords() {
    assert_eq!(action_shortcut("Undo (Ctrl+Z)"), Some("Ctrl+Z".to_string()));
    assert_eq!(action_shortcut("Brush (B)"), Some("B".to_string()));
    assert_eq!(action_shortcut("Shortcut: Ctrl+Alt+K"), Some("Ctrl+Alt+K".to_string()));
    assert_eq!(action_shortcut("Left click"), None);
}

#[test]
fn validate_accepts_built_in_and_valid_custom_actions() {
    assert_eq!(validate("Double click"), Ok(()));
    assert_eq!(validate("Shortcut: Ctrl+Shift+S"), Ok(()));
    assert_eq!(
        validate("Shortcut: Ctrl+"),
        Err("Use a shortcut such as Ctrl+Z, Ctrl+Shift+S, Space or F5".to_string())
    );
    assert_eq!(validate("Launch rockets"), Err("Unsupported button action".to_string()));
}

#[test]
fn captured_keys_use_names_the_parser_accepts() {
    let chord = captured_shortcut(0x5a, [true, true, false, false]).unwrap();
    assert_eq!(chord, "Ctrl+Shift+Z");
    assert_eq!(shortcut(&chord).unwrap(), vec![0x11, 0x10, 0x5a]);
    assert_eq!(captured_shortcut(0x74, [false; 4]).unwrap(), "F5");
    assert_eq!(captured_shortcut(0x63, [false, false, true, true]).unwrap(), "Alt+Win+Numpad3");
    assert_eq!(captured_shortcut(0xdd, [false; 4]).unwrap(), "RightBracket");
    assert_eq!(
        captured_shortcut(0x91, [true, false, false, false]),
        Err("This key is not supported. Try another key or combination.".to_string())
    );
}

#[test]
fn held_actions_press_while_held_and_release_on_lift() {
    let mut b = bindings("Left click", "Pan (hold Space)");
    let mut input = Recorder::new();
    assert_eq!(b.update(&mut input, [true, false]), Ok(false));
    assert_eq!(input.events, vec![(InputCode::LeftMouse, false)]);
    assert_eq!(b.update(&mut input, [true, true]), Ok(false));
    assert_eq!(input.events[1], (InputCode::Key(0x20), false));
    assert_eq!(b.update(&mut input, [false, true]), Ok(false));
    assert_eq!(input.events[2], (InputCode::LeftMouse, true));
    assert_eq!(b.update(&mut input, [false, false]), Ok(false));
    assert_eq!(input.events[3], (InputCode::Key(0x20), true));
    assert_eq!(input.events.len(), 4);
}

#[test]
fn right_click_is_reported_not_injected() {
    let mut b = bindings("Right click", "None");
    let mut input = Recorder::new();
    assert_eq!(b.update(&mut input, [true, false]), Ok(true));
    assert_eq!(b.update(&mut input, [false, true]), Ok(false));
    assert!(input.events.is_empty());
}

#[test]
fn a_shortcut_fires_once_per_press_and_unwinds_its_chord() {
    let mut b = bindings("Undo (Ctrl+Z)", "None");
    let mut input = Recorder::new();
    assert_eq!(b.update(&mut input, [true, false]), Ok(false));
    let ctrl = InputCode::Key(0x11);
    let z = InputCode::Key(0x5a);
    assert_eq!(input.events, vec![(ctrl, false), (z, false), (z, true), (ctrl, true)]);
    // Still held: nothing more.
    assert_eq!(b.update(&mut input, [true, false]), Ok(false));
    assert_eq!(input.events.len(), 4);
}

#[test]
fn a_key_the_user_already_holds_is_left_alone() {
    let mut b = bindings("Shortcut: Ctrl+C", "None");
    let mut input = Recorder::new();
    input.held.push(InputCode::Key(0x11));
    assert_eq!(b.update(&mut input, [true, false]), Ok(false));
    let c = InputCode::Key(0x43);
    assert_eq!(input.events, vec![(c, false), (c, true)]);
}

#[test]
fn double_click_sends_two_full_clicks() {
    let mut b = bindings("Double click", "None");
    let mut input = Recorder::new();
    assert_eq!(b.update(&mut input, [true, false]), Ok(false));
    let l = InputCode::LeftMouse;
    assert_eq!(input.events, vec![(l, false), (l, true), (l, false), (l, true)]);
}

#[test]
fn a_failed_release_stays_owned_and_release_all_retries_it() {
    let mut b = bindings("Middle click", "None");
    let mut input = Recorder::new();
    assert_eq!(b.update(&mut input, [true, false]), Ok(false));
    input.refuse = Some(1);
    assert_eq!(b.update(&mut input, [false, false]), Err("refused".to_string()));
    assert_eq!(input.events, vec![(InputCode::MiddleMouse, false)]);
    assert_eq!(b.release_all(&mut input), Ok(()));
    assert_eq!(input.events, vec![(InputCode::MiddleMouse, false), (InputCode::MiddleMouse, true)]);
    // Nothing is owned any more: a second stop releases nothing.
    assert_eq!(b.release_all(&mut input), Ok(()));
    assert_eq!(input.events.len(), 2);
}

#[test]
fn release_all_only_releases_what_the_binding_pressed() {
    let mut b = bindings("Left click", "Middle click");
    let mut input = Recorder::new();
    input.held.push(InputCode::LeftMouse);
    assert_eq!(b.update(&mut input, [true, true]), Ok(false));
    assert_eq!(input.events, vec![(InputCode::MiddleMouse, false)]);
    assert_eq!(b.release_all(&mut input), Ok(()));
    assert_eq!(input.events[1], (InputCode::MiddleMouse, true));
    assert_eq!(input.events.len(), 2);
}

#[test]
fn a_partial_chord_is_unwound_when_a_press_is_refused() {
    let mut b = bindings("Undo (Ctrl+Z)", "None");
    let mut input = Recorder::new();
    // Sends: Ctrl down (0), Z down (1, refused), Ctrl up (2).
    input.refuse = Some(1);
    assert_eq!(b.update(&mut input, [true, false]), Err("refused".to_string()));
    assert_eq!(input.events, vec![(InputCode::Key(0x11), false), (InputCode::Key(0x11), true)]);
    assert_eq!(input.sends, 3);
    // Nothing stays owned: stopping releases nothing.
    assert_eq!(b.release_all(&mut input), Ok(()));
    assert_eq!(input.sends, 3);
}

#[test]
fn release_all_goes_newest_first_and_keeps_what_was_refused() {
    let mut b = bindings("Left click", "Middle click");
    let mut input = Recorder::new();
    assert_eq!(b.update(&mut input, [true, true]), Ok(false));
    assert_eq!(input.events, vec![(InputCode::LeftMouse, false), (InputCode::MiddleMouse, false)]);
    // The newest (middle) is released first; its release is refused, the left one is taken.
    input.refuse = Some(2);
    assert_eq!(b.release_all(&mut input), Err("refused".to_string()));
    assert_eq!(input.events[2], (InputCode::LeftMouse, true));
    assert_eq!(input.sends, 4);
    // Only the refused middle button stays owned.
    assert_eq!(b.release_all(&mut input), Ok(()));
    assert_eq!(input.events[3], (InputCode::MiddleMouse, true));
    assert_eq!(input.sends, 5);
}

#[test]
fn a_lifted_hold_action_is_released_and_an_unchanged_state_sends_nothing() {
    let mut b = bindings("Left click", "None");
    let mut input = Recorder::new();
    assert_eq!(b.update(&mut input, [true, false]), Ok(false));
    assert_eq!(b.update(&mut input, [true, false]), Ok(false));
    assert_eq!(input.events, vec![(InputCode::LeftMouse, false)]);
    assert_eq!(b.update(&mut input, [false, false]), Ok(false));
    assert_eq!(input.events, vec![(InputCode::LeftMouse, false), (InputCode::LeftMouse, true)]);
}
