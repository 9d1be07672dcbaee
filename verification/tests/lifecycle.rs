use ctl460_rust::lifecycle::{lift_before_hover, transition, Event, Kind, PenState};

fn frame(in_range: bool, contact: bool, eraser: bool) -> PenState {
    PenState { in_range, contact, barrel: false, eraser }
}

fn kinds(events: &[Event]) -> Vec<(Kind, bool)> {
    events.iter().map(|e| (e.kind, e.new_pointer)).collect()
}

#[test]
fn hover_touch_lift_and_leave() {
    let out = frame(false, false, false);
    let hover = frame(true, false, false);
    let touch = frame(true, true, false);
    assert_eq!(kinds(&transition(out, hover)), vec![(Kind::Update, true)]);
    assert_eq!(kinds(&transition(hover, touch)), vec![(Kind::Down, false)]);
    assert_eq!(kinds(&transition(touch, touch)), vec![(Kind::Update, false)]);
    let lift = transition(touch, hover);
    assert_eq!(kinds(&lift), vec![(Kind::Up, false), (Kind::Update, false)]);
    assert!(!lift[0].from_next && !lift[0].state.contact && lift[1].from_next);
    assert_eq!(kinds(&transition(touch, out)), vec![(Kind::Up, false), (Kind::Exit, false)]);
    assert!(transition(out, out).is_empty());
}

#[test]
fn a_tool_change_ends_the_old_pointer_first() {
    let pen = frame(true, true, false);
    let eraser = frame(true, true, true);
    assert_eq!(
        kinds(&transition(pen, eraser)),
        vec![(Kind::Up, false), (Kind::Exit, false), (Kind::Down, true)]
    );
}

#[test]
fn contact_is_lifted_before_hovering() {
    let touch = PenState { in_range: true, contact: true, barrel: true, eraser: false };
    let hover = frame(true, false, false);
    let up = lift_before_hover(touch, hover).unwrap();
    assert_eq!(up, PenState { in_range: true, contact: false, barrel: false, eraser: false });
    assert_eq!(lift_before_hover(touch, touch), None);
    assert_eq!(lift_before_hover(hover, hover), None);
}
