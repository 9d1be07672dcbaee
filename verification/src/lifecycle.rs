//! Plans pointer transitions for a pen frame stream independently of the Windows API.
//! Decisions read only a frame's range, contact, barrel and tool flags; each planned event
//! carries either the new frame or the previous one with those flags and pressure cleared.
//! The caller commits an event only after injecting it, which makes retries safe.
use vstd::prelude::*;

verus! {

#[derive(Clone, Copy, Debug, PartialEq, Eq, Structural)]
pub enum Kind {
    Down,
    Update,
    Up,
    Exit,
}

/// The flags of a frame that lifecycle decisions read.
#[derive(Clone, Copy, Debug, PartialEq, Eq, Structural)]
pub struct PenState {
    pub in_range: bool,
    pub contact: bool,
    pub barrel: bool,
    pub eraser: bool,
}

/// One pointer event. With `from_next` it carries the new frame; otherwise it carries the
/// previous frame with the flags of `state` and zero pressure.
#[derive(Clone, Copy, Debug, PartialEq, Eq, Structural)]
pub struct Event {
    pub kind: Kind,
    pub new_pointer: bool,
    pub state: PenState,
    pub from_next: bool,
}

/// A frame ended in contact: contact and barrel cleared.
pub open spec fn lifted(s: PenState) -> PenState {
    PenState { contact: false, barrel: false, ..s }
}

/// A frame that left range: range, contact and barrel cleared.
pub open spec fn left(s: PenState) -> PenState {
    PenState { in_range: false, contact: false, barrel: false, ..s }
}

pub open spec fn spec_lift_before_hover(previous: PenState, next: PenState) -> Option<PenState> {
    if previous.contact && (!next.contact || !next.in_range) {
        Some(lifted(previous))
    } else {
        None
    }
}

/// Finish contact at its last submitted location before moving or leaving in hover.
/// Shared by every output; never extends contact after a physical lift.
pub fn lift_before_hover(previous: PenState, next: PenState) -> (r: Option<PenState>)
    ensures
        r == spec_lift_before_hover(previous, next),
{
    if previous.contact && (!next.contact || !next.in_range) {
        Some(PenState { contact: false, barrel: false, ..previous })
    } else {
        None
    }
}

pub open spec fn up_event(s: PenState) -> Event {
    Event { kind: Kind::Up, new_pointer: false, state: lifted(s), from_next: false }
}

pub open spec fn exit_event(s: PenState) -> Event {
    Event { kind: Kind::Exit, new_pointer: false, state: left(s), from_next: false }
}

/// Ending the pointer of `old`: an Up if it is in contact, then an Exit if it is in range.
pub open spec fn end_events(old: PenState) -> Seq<Event> {
    (if old.contact {
        seq![up_event(old)]
    } else {
        seq![]
    }) + (if old.in_range {
        seq![exit_event(old)]
    } else {
        seq![]
    })
}

/// The events that take the pointer from frame `previous` to frame `next`. A change of
/// tool ends the old pointer first; leaving range ends it; a lift in range is an Up before
/// the new frame, which is a Down when contact begins and an Update otherwise.
pub open spec fn spec_transition(previous: PenState, next: PenState) -> Seq<Event> {
    if !next.in_range {
        end_events(previous)
    } else {
        let swap = previous.in_range && previous.eraser != next.eraser;
        let first = if swap {
            end_events(previous)
        } else {
            seq![]
        };
        let old = if swap {
            left(previous)
        } else {
            previous
        };
        let lift = old.contact && !next.contact;
        let second = if lift {
            seq![up_event(old)]
        } else {
            seq![]
        };
        let last = if lift {
            lifted(old)
        } else {
            old
        };
        first + second + seq![
            Event {
                kind: if next.contact && !last.contact {
                    Kind::Down
                } else {
                    Kind::Update
                },
                new_pointer: !last.in_range,
                state: next,
                from_next: true,
            },
        ]
    }
}

fn end(events: &mut Vec<Event>, pen: &mut PenState)
    ensures
        final(events)@ == old(events)@ + end_events(*old(pen)),
        *final(pen) == (if old(pen).in_range {
            left(*old(pen))
        } else if old(pen).contact {
            lifted(*old(pen))
        } else {
            *old(pen)
        }),
{
    let ghost start = *pen;
    if pen.contact {
        pen.contact = false;
        pen.barrel = false;
        events.push(Event { kind: Kind::Up, new_pointer: false, state: *pen, from_next: false });
    }
    if pen.in_range {
        pen.in_range = false;
        pen.barrel = false;
        events.push(Event { kind: Kind::Exit, new_pointer: false, state: *pen, from_next: false });
    }
    assert(events@ =~= old(events)@ + end_events(start));
}

/// Plan the events from frame `previous` to frame `next`.
pub fn transition(previous: PenState, next: PenState) -> (events: Vec<Event>)
    ensures
        events@ == spec_transition(previous, next),
{
    let mut events: Vec<Event> = Vec::new();
    let mut old = previous;
    if old.in_range && next.in_range && old.eraser != next.eraser {
        end(&mut events, &mut old);
    }
    if !next.in_range {
        end(&mut events, &mut old);
        assert(events@ =~= spec_transition(previous, next));
        return events;
    }
    if let Some(up) = lift_before_hover(old, next) {
        events.push(Event { kind: Kind::Up, new_pointer: false, state: up, from_next: false });
        old = up;
    }
    let kind = if next.contact && !old.contact {
        Kind::Down
    } else {
        Kind::Update
    };
    events.push(Event { kind, new_pointer: !old.in_range, state: next, from_next: true });
    assert(events@ =~= spec_transition(previous, next));
    events
}

/// The pointer as Windows tracks it: in range, in contact.
pub open spec fn pointer_of(s: PenState) -> (bool, bool) {
    (s.in_range, s.contact)
}

/// A frame the pen can report: contact only in range.
pub open spec fn consistent(s: PenState) -> bool {
    s.contact ==> s.in_range
}

/// The pointer after one event, if the event is allowed there: Down starts contact, Up
/// ends it in range, Exit leaves range without contact, Update keeps contact; a new
/// pointer is announced exactly when the pointer was out of range.
pub open spec fn pointer_step(p: (bool, bool), e: Event) -> Option<(bool, bool)> {
    let (in_range, contact) = p;
    match e.kind {
        Kind::Down => if !contact && e.new_pointer == !in_range && e.state.in_range && e.state.contact {
            Some((true, true))
        } else {
            None
        },
        Kind::Update => if e.new_pointer == !in_range && e.state.in_range && e.state.contact == contact {
            Some((true, contact))
        } else {
            None
        },
        Kind::Up => if in_range && contact && !e.new_pointer && e.state.in_range && !e.state.contact {
            Some((true, false))
        } else {
            None
        },
        Kind::Exit => if in_range && !contact && !e.new_pointer && !e.state.in_range && !e.state.contact {
            Some((false, false))
        } else {
            None
        },
    }
}

/// The pointer after a sequence of events, if every event is allowed where it occurs.
pub open spec fn pointer_after(p: (bool, bool), events: Seq<Event>) -> Option<(bool, bool)>
    decreases events.len(),
{
    if events.len() == 0 {
        Some(p)
    } else {
        match pointer_after(p, events.drop_last()) {
            Some(q) => pointer_step(q, events.last()),
            None => None,
        }
    }
}

proof fn lemma_pointer_after_append(p: (bool, bool), a: Seq<Event>, b: Seq<Event>)
    requires
        pointer_after(p, a) is Some,
    ensures
        pointer_after(p, a + b) == pointer_after(pointer_after(p, a)->0, b),
    decreases b.len(),
{
    if b.len() == 0 {
        assert(a + b =~= a);
    } else {
        assert((a + b).drop_last() =~= a + b.drop_last());
        lemma_pointer_after_append(p, a, b.drop_last());
    }
}

proof fn lemma_pointer_after_one(p: (bool, bool), e: Event)
    ensures
        pointer_after(p, seq![e]) == pointer_step(p, e),
{
    assert(seq![e].drop_last() =~= Seq::<Event>::empty());
    assert(pointer_after(p, Seq::<Event>::empty()) == Some(p));
}

proof fn lemma_pointer_after_none(p: (bool, bool))
    ensures
        pointer_after(p, Seq::<Event>::empty()) == Some(p),
{
}

proof fn lemma_end_events(old: PenState)
    requires
        consistent(old),
    ensures
        pointer_after(pointer_of(old), end_events(old)) == Some((false, false)),
{
    let ups: Seq<Event> = if old.contact { seq![up_event(old)] } else { seq![] };
    let exits: Seq<Event> = if old.in_range { seq![exit_event(old)] } else { seq![] };
    let mid = if old.contact { (true, false) } else { pointer_of(old) };
    if old.contact {
        lemma_pointer_after_one(pointer_of(old), up_event(old));
    } else {
        lemma_pointer_after_none(pointer_of(old));
    }
    assert(pointer_after(pointer_of(old), ups) == Some(mid));
    lemma_pointer_after_append(pointer_of(old), ups, exits);
    if old.in_range {
        lemma_pointer_after_one(mid, exit_event(old));
    } else {
        lemma_pointer_after_none(mid);
    }
    assert(end_events(old) == ups + exits);
}

/// Each planned transition follows the pointer protocol: from a consistent frame the
/// events are allowed one after another, and they leave the pointer exactly as the new
/// consistent frame reports it. So the plans of a frame stream chain into one valid
/// pointer history, which never extends contact after a physical lift.
pub proof fn lemma_transition_follows_protocol(previous: PenState, next: PenState)
    requires
        consistent(previous),
        consistent(next),
    ensures
        pointer_after(pointer_of(previous), spec_transition(previous, next)) == Some(pointer_of(next)),
{
    let p = pointer_of(previous);
    if !next.in_range {
        lemma_end_events(previous);
    } else {
        let swap = previous.in_range && previous.eraser != next.eraser;
        let first: Seq<Event> = if swap { end_events(previous) } else { seq![] };
        let old = if swap { left(previous) } else { previous };
        let lift = old.contact && !next.contact;
        let second: Seq<Event> = if lift { seq![up_event(old)] } else { seq![] };
        let last = if lift { lifted(old) } else { old };
        let fin = Event {
            kind: if next.contact && !last.contact { Kind::Down } else { Kind::Update },
            new_pointer: !last.in_range,
            state: next,
            from_next: true,
        };
        assert(pointer_after(p, first) == Some(pointer_of(old))) by {
            if swap {
                lemma_end_events(previous);
            } else {
                lemma_pointer_after_none(p);
            }
        }
        lemma_pointer_after_append(p, first, second);
        assert(pointer_after(pointer_of(old), second) == Some(pointer_of(last))) by {
            if lift {
                lemma_pointer_after_one(pointer_of(old), up_event(old));
            } else {
                lemma_pointer_after_none(pointer_of(old));
            }
        }
        lemma_pointer_after_append(p, first + second, seq![fin]);
        lemma_pointer_after_one(pointer_of(last), fin);
        assert(spec_transition(previous, next) =~= first + second + seq![fin]);
    }
}

/// A change of tool in range always ends the old pointer: the new frame starts a new
/// pointer, and no planned event but the new frame's is in contact.
pub proof fn lemma_tool_change_starts_new_pointer(previous: PenState, next: PenState)
    requires
        previous.in_range,
        next.in_range,
        previous.eraser != next.eraser,
    ensures
        spec_transition(previous, next).last().new_pointer,
        spec_transition(previous, next).last().from_next,
        forall|i: int|
            0 <= i < spec_transition(previous, next).len() - 1 ==> !(#[trigger] spec_transition(
                previous,
                next,
            )[i]).state.contact,
{
}

} // verus!
