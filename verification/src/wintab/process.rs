//! The contexts of one client process: what it keeps of each open context (the
//! session's settings, its own packet queue and serial numbers), which context holds the
//! pen, and how a routed sample becomes packets and messages.
use vstd::prelude::*;
use super::pen::{PenData, HARDWARE_PROXIMITY};
use super::routing::{logical_buttons, spec_logical_buttons};
use super::session::{
    CONTEXTS, Cursor, Manager, Notice, Record, manager_notices, push_manager_notices, sort_slots, sorted_members,
};
use super::saved::{from_utf16_lossy, lemma_until_zero, until_zero, utf16_lossy};
use crate::text::{chars_of, same_chars};
use super::words::{
    SUPPORTED, Words, changes, context_sample, cursor_selected, notification_allowed, spec_changes,
    spec_context_sample, spec_cursor_selected, spec_notification_allowed, spec_validated, validated,
};

verus! {

/// One queued packet: the sample as the context sees it, and what it reports.
#[derive(Clone, Copy, Debug, PartialEq, Eq)]
pub struct Packet {
    pub serial: u32,
    pub pen: PenData,
    pub buttons: u32,
    pub changed: u32,
    /// The sample before this one, for relative fields.
    pub previous: Option<PenData>,
    pub status: u32,
}

/// A context as this process keeps it.
pub struct Context {
    pub revision: u32,
    pub cursor_mask: [u8; 16],
    pub name: String,
    pub words: Words,
    pub window: usize,
    pub enabled: bool,
    /// Oldest packet first.
    pub queue: Vec<Packet>,
    pub capacity: usize,
    /// The last sample delivered.
    pub previous: Option<PenData>,
    /// A packet was lost since the last one queued.
    pub overflow: bool,
    pub serial: u32,
}

/// A context as mathematical values.
pub struct ContextView {
    pub revision: u32,
    pub cursor_mask: [u8; 16],
    pub name: Seq<char>,
    pub words: Words,
    pub window: usize,
    pub enabled: bool,
    pub queue: Seq<Packet>,
    pub capacity: usize,
    pub previous: Option<PenData>,
    pub overflow: bool,
    pub serial: u32,
}

impl View for Context {
    type V = ContextView;

    open spec fn view(&self) -> ContextView {
        ContextView {
            revision: self.revision,
            cursor_mask: self.cursor_mask,
            name: self.name@,
            words: self.words,
            window: self.window,
            enabled: self.enabled,
            queue: self.queue@,
            capacity: self.capacity,
            previous: self.previous,
            overflow: self.overflow,
            serial: self.serial,
        }
    }
}

/// The sample fields of a sample that is not there.
pub open spec fn zero_pen() -> PenData {
    PenData { time: 0, x: 0, y: 0, pressure: 0, flags: 0, tilt_x: 0, tilt_y: 0, raw: 0 }
}

pub open spec fn or_zero(p: Option<PenData>) -> PenData {
    match p {
        Some(q) => q,
        None => zero_pen(),
    }
}

/// The session's cursor preferences are usable: every logical button lies in 0..32.
pub open spec fn cursors_ok(cursors: Option<[Cursor; 2]>) -> bool {
    cursors matches Some(c) ==> c@[0].wf() && c@[1].wf()
}

/// The logical buttons of a sample: through the cursor's button map while the session is
/// there, the physical ones otherwise.
pub open spec fn spec_buttons(p: PenData, cursors: Option<[Cursor; 2]>) -> u32 {
    match cursors {
        Some(c) => spec_logical_buttons(p, c),
        None => (p.flags as u32) & 3,
    }
}

pub fn pen_buttons(p: PenData, cursors: &Option<[Cursor; 2]>) -> (r: u32)
    requires
        cursors_ok(*cursors),
    ensures
        r == spec_buttons(p, *cursors),
{
    match cursors {
        Some(c) => logical_buttons(p, c),
        None => (p.flags as u32) & 3,
    }
}

/// What changed since the last delivered sample (everything for the first one).
pub open spec fn changed_fields(previous: Option<PenData>, p: PenData, cursors: Option<[Cursor; 2]>) -> u32 {
    let prior = or_zero(previous);
    if previous is None {
        SUPPORTED
    } else {
        spec_changes(prior, p, spec_buttons(prior, cursors), spec_buttons(p, cursors))
    }
}

/// The context asks for this sample: its cursor is selected, and a field it watches
/// changed or a button it watches went down or up.
pub open spec fn spec_selected(c: ContextView, p: PenData, cursors: Option<[Cursor; 2]>) -> bool {
    let prior = or_zero(c.previous);
    let before = spec_buttons(prior, cursors);
    let now = spec_buttons(p, cursors);
    let down = now & !before;
    let up = before & !now;
    spec_cursor_selected(c.cursor_mask@, p) && (changed_fields(c.previous, p, cursors) & c.words@[8] & c.words@[6]
        & !0x7fu32 != 0 || down & c.words@[9] != 0 || up & c.words@[10] != 0)
}

pub fn selected(c: &Context, p: PenData, cursors: &Option<[Cursor; 2]>) -> (r: bool)
    requires
        cursors_ok(*cursors),
    ensures
        r == spec_selected(c@, p, *cursors),
{
    if !cursor_selected(&c.cursor_mask, p) {
        return false;
    }
    let prior = match c.previous {
        Some(q) => q,
        None => PenData::zero(),
    };
    let before = pen_buttons(prior, cursors);
    let now = pen_buttons(p, cursors);
    let down = now & !before;
    let up = before & !now;
    let changed = if c.previous.is_none() {
        SUPPORTED
    } else {
        changes(prior, p, before, now)
    };
    changed & c.words[8] & c.words[6] & !0x7fu32 != 0 || down & c.words[9] != 0 || up & c.words[10] != 0
}

/// The proximity message's parameter: in range in the low word, hardware proximity
/// changed in the high word.
pub open spec fn proximity_flags(p: PenData) -> isize {
    (if p.spec_in_range() { 1isize } else { 0isize }) | (if p.flags & HARDWARE_PROXIMITY != 0 { 0x10000isize } else { 0isize })
}

/// The message to the context's own window, if it has one and asked for this kind; a
/// parameter of `isize::MIN` stands for the context's id.
pub open spec fn own_notice(c: ContextView, id: usize, offset: u32, wp: usize, lp: isize) -> Seq<Notice> {
    if c.window != 0 && spec_notification_allowed(c.words@[0], offset) {
        seq![Notice {
            window: c.window as u64,
            base: c.words@[3],
            offset,
            wparam: wp,
            lparam: if lp == isize::MIN { id as isize } else { lp },
        }]
    } else {
        seq![]
    }
}

fn push_own_notice(out: &mut Vec<Notice>, c: &Context, id: usize, offset: u32, wp: usize, lp: isize)
    ensures
        final(out)@ == old(out)@ + own_notice(c@, id, offset, wp, lp),
{
    if c.window != 0 && notification_allowed(c.words[0], offset) {
        out.push(
            Notice {
                window: c.window as u64,
                base: c.words[3],
                offset,
                wparam: wp,
                lparam: if lp == isize::MIN { id as isize } else { lp },
            },
        );
    }
    assert(out@ =~= old(out)@ + own_notice(c@, id, offset, wp, lp));
}

/// The button events of a sample for contexts that ask for them, from bit 0 up to bit
/// `n`: each watched button that went down (`2 << 16`) or up (`1 << 16`), with its number.
pub open spec fn button_events(delta: u32, now: u32, down_mask: u32, up_mask: u32, n: nat) -> Seq<u32>
    decreases n,
{
    if n == 0 {
        seq![]
    } else {
        let bit = (n - 1) as u32;
        let earlier = button_events(delta, now, down_mask, up_mask, (n - 1) as nat);
        if delta & (1u32 << bit) != 0 {
            let down = now & (1u32 << bit) != 0;
            let mask = if down { down_mask } else { up_mask };
            if mask & (1u32 << bit) != 0 {
                earlier.push(bit | if down { 2u32 << 16u32 } else { 1u32 << 16u32 })
            } else {
                earlier
            }
        } else {
            earlier
        }
    }
}

/// The packets one sample makes: one per button event when the context asks for
/// button events (one plain packet when there is none), else one with the buttons.
pub open spec fn sample_events(w: Seq<u32>, before: u32, now: u32) -> Seq<u32> {
    if w[7] & 0x40 != 0 {
        let e = button_events(before ^ now, now, w[9], w[10], 32);
        if e.len() == 0 {
            seq![0u32]
        } else {
            e
        }
    } else {
        seq![now]
    }
}

/// Queue the packet of event number `k` (buttons `b`): a full queue loses it and marks
/// the newest packet; otherwise the packet records any loss before it and the packet and
/// change messages go out.
pub open spec fn post_one(c: ContextView, id: usize, pen: PenData, status: u32, changed: u32, prior: PenData, k: int, b: u32) -> (
    ContextView,
    Seq<Notice>,
) {
    let serial = vstd::wrapping::u32_specs::wrapping_add(c.serial, 1);
    if c.capacity == 0 || c.queue.len() >= c.capacity {
        let n = c.queue.len();
        let queue = if n > 0 {
            c.queue.update(n - 1, Packet { status: c.queue[n - 1].status | 2, ..c.queue[n - 1] })
        } else {
            c.queue
        };
        (ContextView { serial, overflow: true, queue, ..c }, seq![])
    } else {
        let packet = Packet {
            serial,
            pen,
            buttons: b,
            changed,
            previous: if k == 0 { c.previous } else { Some(pen) },
            status: status | if c.overflow { 2u32 } else { 0u32 },
        };
        (ContextView { serial, overflow: false, queue: c.queue.push(packet), previous: Some(pen), ..c }, (if (prior.flags ^ pen.flags) & 4 != 0
            || c.previous is None {
            own_notice(c, id, 7, serial as usize, isize::MIN)
        } else {
            seq![]
        }) + own_notice(c, id, 0, serial as usize, isize::MIN))
    }
}

/// The packets of events `events`, in order, queued one after another.
pub open spec fn post_all(c: ContextView, id: usize, pen: PenData, status: u32, changed: u32, prior: PenData, events: Seq<u32>) -> (
    ContextView,
    Seq<Notice>,
)
    decreases events.len(),
{
    if events.len() == 0 {
        (c, seq![])
    } else {
        let (c1, n1) = post_all(c, id, pen, status, changed, prior, events.drop_last());
        let (c2, n2) = post_one(c1, id, pen, status, changed, prior, events.len() - 1, events.last());
        (c2, n1 + n2)
    }
}

/// Delivering a sample to a context: the proximity message when the pen came or went
/// (to the listening managers too), then the sample's packets.
pub open spec fn spec_post_sample(
    c: ContextView,
    id: usize,
    pen: PenData,
    status: u32,
    cursors: Option<[Cursor; 2]>,
    managers: Seq<Manager>,
) -> (ContextView, Seq<Notice>) {
    let prior = or_zero(c.previous);
    let before = spec_buttons(prior, cursors);
    let now = spec_buttons(pen, cursors);
    let proximity = if prior.spec_in_range() != pen.spec_in_range() {
        manager_notices(managers, 5, id, proximity_flags(pen)) + own_notice(c, id, 5, id, proximity_flags(pen))
    } else {
        seq![]
    };
    let events = sample_events(c.words@, before, now);
    let (c2, n2) = post_all(c, id, pen, status, changed_fields(c.previous, pen, cursors), prior, events);
    (c2, proximity + n2)
}

fn events_of(w: &Words, before: u32, now: u32) -> (r: Vec<u32>)
    ensures
        r@ == sample_events(w@, before, now),
{
    if w[7] & 0x40 != 0 {
        let delta = before ^ now;
        let mut events: Vec<u32> = Vec::new();
        let mut bit: u32 = 0;
        while bit < 32
            invariant
                bit <= 32,
                delta == before ^ now,
                events@ == button_events(delta, now, w@[9], w@[10], bit as nat),
            decreases 32 - bit,
        {
            if delta & (1u32 << bit) != 0 {
                let down = now & (1u32 << bit) != 0;
                let mask = if down { w[9] } else { w[10] };
                if mask & (1u32 << bit) != 0 {
                    events.push(bit | if down { 2u32 << 16u32 } else { 1u32 << 16u32 });
                }
            }
            bit += 1;
        }
        if events.len() == 0 {
            events.push(0);
            assert(events@ =~= seq![0u32]);
        }
        events
    } else {
        let v = vec![now];
        assert(v@ =~= seq![now]);
        v
    }
}

fn post_one_exec(c: &mut Context, id: usize, pen: PenData, status: u32, changed: u32, prior: PenData, k: usize, b: u32, out: &mut Vec<Notice>)
    ensures
        (final(c)@, final(out)@) == ({
            let (c2, n) = post_one(old(c)@, id, pen, status, changed, prior, k as int, b);
            (c2, old(out)@ + n)
        }),
{
    let ghost before = c@;
    let ghost out0 = out@;
    c.serial = c.serial.wrapping_add(1);
    if c.capacity == 0 || c.queue.len() >= c.capacity {
        c.overflow = true;
        let n = c.queue.len();
        if n > 0 {
            let last = c.queue[n - 1];
            c.queue.set(n - 1, Packet { status: last.status | 2, ..last });
        }
        assert(c@ =~= post_one(before, id, pen, status, changed, prior, k as int, b).0);
        assert(out@ =~= out0 + post_one(before, id, pen, status, changed, prior, k as int, b).1);
        return;
    }
    let error = c.overflow;
    c.overflow = false;
    let previous = if k == 0 { c.previous } else { Some(pen) };
    c.queue.push(Packet { serial: c.serial, pen, buttons: b, changed, previous, status: status | if error { 2u32 } else { 0u32 } });
    if (prior.flags ^ pen.flags) & 4 != 0 || c.previous.is_none() {
        let serial = c.serial;
        push_own_notice(out, c, id, 7, serial as usize, isize::MIN);
    }
    let serial = c.serial;
    push_own_notice(out, c, id, 0, serial as usize, isize::MIN);
    c.previous = Some(pen);
    assert(c@ =~= post_one(before, id, pen, status, changed, prior, k as int, b).0);
    assert(out@ =~= out0 + post_one(before, id, pen, status, changed, prior, k as int, b).1);
}

/// Deliver a sample to context `id`.
pub fn post_sample(
    c: &mut Context,
    id: usize,
    pen: PenData,
    status: u32,
    cursors: &Option<[Cursor; 2]>,
    managers: &Vec<Manager>,
) -> (notices: Vec<Notice>)
    requires
        cursors_ok(*cursors),
    ensures
        (final(c)@, notices@) == spec_post_sample(old(c)@, id, pen, status, *cursors, managers@),
{
    let ghost c0 = c@;
    let prior = match c.previous {
        Some(q) => q,
        None => PenData::zero(),
    };
    let before = pen_buttons(prior, cursors);
    let now = pen_buttons(pen, cursors);
    let changed = if c.previous.is_none() {
        SUPPORTED
    } else {
        changes(prior, pen, before, now)
    };
    let mut notices: Vec<Notice> = Vec::new();
    if prior.in_range() != pen.in_range() {
        let flags: isize = (if pen.in_range() { 1isize } else { 0isize }) | (if pen.flags & HARDWARE_PROXIMITY != 0 {
            0x10000isize
        } else {
            0isize
        });
        push_manager_notices(&mut notices, managers, 5, id, flags);
        push_own_notice(&mut notices, c, id, 5, id, flags);
    }
    let ghost proximity = notices@;
    let events = events_of(&c.words, before, now);
    let mut k: usize = 0;
    while k < events.len()
        invariant
            k <= events@.len(),
            events@ == sample_events(c0.words@, before, now),
            (c@, notices@) == ({
                let (c2, n) = post_all(c0, id, pen, status, changed, prior, events@.take(k as int));
                (c2, proximity + n)
            }),
        decreases events@.len() - k,
    {
        let ghost mid = c@;
        let ghost n_mid = notices@;
        post_one_exec(c, id, pen, status, changed, prior, k, events[k], &mut notices);
        proof {
            assert(events@.take(k as int + 1).drop_last() =~= events@.take(k as int));
            let (c1, n1) = post_all(c0, id, pen, status, changed, prior, events@.take(k as int));
            let (c2, n2) = post_one(c1, id, pen, status, changed, prior, k as int, events@[k as int]);
            assert(notices@ =~= proximity + (n1 + n2));
        }
        k += 1;
    }
    assert(events@.take(events@.len() as int) =~= events@);
    notices
}

/// The contexts this process opened, by id (no id twice), the ids from the top of the
/// overlap order, and the context that holds the pen while a grabbing button is down.
pub struct State {
    pub contexts: Vec<(usize, Context)>,
    pub order: Vec<usize>,
    pub capture: Option<usize>,
}

pub struct StateView {
    pub contexts: Seq<(usize, ContextView)>,
    pub order: Seq<usize>,
    pub capture: Option<usize>,
}

pub open spec fn entries_view(cs: Seq<(usize, Context)>) -> Seq<(usize, ContextView)> {
    cs.map_values(|e: (usize, Context)| (e.0, e.1@))
}

impl View for State {
    type V = StateView;

    open spec fn view(&self) -> StateView {
        StateView { contexts: entries_view(self.contexts@), order: self.order@, capture: self.capture }
    }
}

/// No context id occurs twice.
pub open spec fn distinct_ids(cs: Seq<(usize, ContextView)>) -> bool {
    forall|i: int, j: int| 0 <= i < cs.len() && 0 <= j < cs.len() && i != j ==> (#[trigger] cs[i]).0 != (#[trigger] cs[j]).0
}

/// Context ids are distinct and never zero.
pub open spec fn good_ids(cs: Seq<(usize, ContextView)>) -> bool {
    distinct_ids(cs) && forall|i: int| 0 <= i < cs.len() ==> (#[trigger] cs[i]).0 != 0
}

/// The first entry from `k` on with id `id`.
pub open spec fn find_from(cs: Seq<(usize, ContextView)>, id: usize, k: int) -> Option<int>
    decreases cs.len() - k,
{
    if k < 0 || k >= cs.len() {
        None
    } else if cs[k].0 == id {
        Some(k)
    } else {
        find_from(cs, id, k + 1)
    }
}

pub open spec fn find(cs: Seq<(usize, ContextView)>, id: usize) -> Option<int> {
    find_from(cs, id, 0)
}

proof fn lemma_find_from(cs: Seq<(usize, ContextView)>, id: usize, k: int)
    requires
        0 <= k,
    ensures
        find_from(cs, id, k) matches Some(i) ==> k <= i < cs.len() && cs[i].0 == id && forall|m: int|
            k <= m < i ==> (#[trigger] cs[m]).0 != id,
        find_from(cs, id, k) is None ==> forall|m: int| k <= m < cs.len() ==> (#[trigger] cs[m]).0 != id,
    decreases cs.len() - k,
{
    if k < cs.len() {
        lemma_find_from(cs, id, k + 1);
    }
}

impl State {
    /// The index of context `id`.
    pub fn index_of(&self, id: usize) -> (r: Option<usize>)
        ensures
            r matches Some(i) ==> find(self@.contexts, id) == Some(i as int) && i < self.contexts@.len()
                && self.contexts@[i as int].0 == id,
            r is None ==> find(self@.contexts, id) is None,
    {
        let ghost cs = self@.contexts;
        proof {
            lemma_find_from(cs, id, 0);
        }
        let mut i: usize = 0;
        while i < self.contexts.len()
            invariant
                i <= self.contexts@.len(),
                cs == self@.contexts,
                find(cs, id) == find_from(cs, id, i as int),
                find(cs, id) matches Some(j) ==> j < cs.len() && cs[j].0 == id,
            decreases self.contexts@.len() - i,
        {
            assert(cs[i as int].0 == self.contexts@[i as int].0);
            if self.contexts[i].0 == id {
                return Some(i);
            }
            i += 1;
        }
        None
    }
}

/// The context holding the pen, while it is still open and enabled.
pub open spec fn spec_captured(s: StateView) -> Option<usize> {
    match s.capture {
        Some(id) => match find(s.contexts, id) {
            Some(i) => if s.contexts[i].1.enabled { Some(id) } else { None },
            None => None,
        },
        None => None,
    }
}

/// Context `id` can take the sample: open, enabled, the sample lies in its area, and it
/// asks for it.
pub open spec fn eligible(cs: Seq<(usize, ContextView)>, id: usize, pen: PenData, cursors: Option<[Cursor; 2]>) -> bool {
    match find(cs, id) {
        Some(i) => {
            let c = cs[i].1;
            c.enabled && pen.spec_in_range() && match spec_context_sample(c.words@, pen, false) {
                Some((p, _)) => spec_selected(c, p, cursors),
                None => false,
            }
        },
        None => false,
    }
}

/// The first eligible context in the overlap order from position `k` on.
pub open spec fn first_eligible(cs: Seq<(usize, ContextView)>, order: Seq<usize>, pen: PenData, cursors: Option<[Cursor; 2]>, k: int) -> Option<usize>
    decreases order.len() - k,
{
    if k < 0 || k >= order.len() {
        None
    } else if eligible(cs, order[k], pen, cursors) {
        Some(order[k])
    } else {
        first_eligible(cs, order, pen, cursors, k + 1)
    }
}

/// The context that receives a sample: only in the foreground and in range; the one
/// holding the pen, else the first eligible one from the top.
pub open spec fn spec_chosen(s: StateView, pen: PenData, foreground: bool, cursors: Option<[Cursor; 2]>) -> Option<usize> {
    if foreground && pen.spec_in_range() {
        match spec_captured(s) {
            Some(id) => Some(id),
            None => first_eligible(s.contexts, s.order, pen, cursors, 0),
        }
    } else {
        None
    }
}

/// The pen leaves a context: focus lost, out of range, its cursor deselected, another
/// context chosen, or the sample outside its area.
pub open spec fn leaving(c: ContextView, id: usize, pen: PenData, foreground: bool, chosen: Option<usize>, captured: Option<usize>) -> bool {
    !foreground || !pen.spec_in_range() || !spec_cursor_selected(c.cursor_mask@, pen) || (chosen is Some && Some(id)
        != chosen) || spec_context_sample(c.words@, pen, captured == Some(id)) is None
}

/// The out-of-range sample a context gets when the pen leaves it.
pub open spec fn exit_pen(q: PenData, pen: PenData) -> PenData {
    PenData { flags: (q.flags & 4) | (pen.flags & HARDWARE_PROXIMITY), pressure: 0, ..q }
}

/// A context the pen leaves while it was in range gets an out-of-range packet and
/// forgets its last sample.
pub open spec fn leave_one(
    c: ContextView,
    id: usize,
    pen: PenData,
    foreground: bool,
    chosen: Option<usize>,
    captured: Option<usize>,
    cursors: Option<[Cursor; 2]>,
    managers: Seq<Manager>,
) -> (ContextView, Seq<Notice>) {
    match c.previous {
        Some(q) => if leaving(c, id, pen, foreground, chosen, captured) && q.spec_in_range() {
            let (c2, n) = spec_post_sample(c, id, exit_pen(q, pen), 1, cursors, managers);
            (ContextView { previous: None, ..c2 }, n)
        } else {
            (c, seq![])
        },
        None => (c, seq![]),
    }
}

/// `leave_one` applied to the first `k` contexts in turn.
pub open spec fn leave_all(
    cs: Seq<(usize, ContextView)>,
    k: int,
    pen: PenData,
    foreground: bool,
    chosen: Option<usize>,
    captured: Option<usize>,
    cursors: Option<[Cursor; 2]>,
    managers: Seq<Manager>,
) -> (Seq<(usize, ContextView)>, Seq<Notice>)
    decreases k,
{
    if k <= 0 || k > cs.len() {
        (cs, seq![])
    } else {
        let (cs1, n1) = leave_all(cs, k - 1, pen, foreground, chosen, captured, cursors, managers);
        let (c2, n2) = leave_one(cs1[k - 1].1, cs1[k - 1].0, pen, foreground, chosen, captured, cursors, managers);
        (cs1.update(k - 1, (cs1[k - 1].0, c2)), n1 + n2)
    }
}

/// A sample reaching this process: contexts the pen left get their out-of-range
/// packet; the chosen context gets the sample when it asks for it, and holds the pen
/// while a button it grabs is down.
pub open spec fn spec_ingest(s: StateView, pen: PenData, foreground: bool, cursors: Option<[Cursor; 2]>, managers: Seq<Manager>) -> (
    StateView,
    Seq<Notice>,
) {
    let captured = spec_captured(s);
    let chosen = spec_chosen(s, pen, foreground, cursors);
    let (cs1, n1) = leave_all(s.contexts, s.contexts.len() as int, pen, foreground, chosen, captured, cursors, managers);
    match chosen {
        Some(id) => match find(cs1, id) {
            Some(i) => {
                let c = cs1[i].1;
                let (cs2, n2) = match spec_context_sample(c.words@, pen, captured == Some(id)) {
                    Some((p, status)) => if spec_selected(c, p, cursors) {
                        let (c2, n) = spec_post_sample(c, id, p, status, cursors, managers);
                        (cs1.update(i, (id, c2)), n)
                    } else {
                        (cs1, seq![])
                    },
                    None => (cs1, seq![]),
                };
                let grab = c.words@[9] & c.words@[10];
                let capture = if spec_buttons(pen, cursors) & grab != 0 && pen.spec_in_range() { Some(id) } else { None };
                (StateView { contexts: cs2, capture, ..s }, n1 + n2)
            },
            None => (StateView { contexts: cs1, capture: None, ..s }, n1),
        },
        None => (StateView { contexts: cs1, capture: None, ..s }, n1),
    }
}

fn is_leaving(c: &Context, id: usize, pen: PenData, foreground: bool, chosen: Option<usize>, captured: Option<usize>) -> (r: bool)
    ensures
        r == leaving(c@, id, pen, foreground, chosen, captured),
{
    let grabbed = match captured {
        Some(k) => k == id,
        None => false,
    };
    let other = match chosen {
        Some(k) => k != id,
        None => false,
    };
    !foreground || !pen.in_range() || !cursor_selected(&c.cursor_mask, pen) || other || context_sample(
        &c.words,
        pen,
        grabbed,
    ).is_none()
}

impl State {
    pub open spec fn wf(&self) -> bool {
        good_ids(self@.contexts)
    }

    fn captured(&self) -> (r: Option<usize>)
        ensures
            r == spec_captured(self@),
    {
        match self.capture {
            Some(id) => match self.index_of(id) {
                Some(i) => {
                    assert(self@.contexts[i as int].1 == self.contexts@[i as int].1@);
                    if self.contexts[i].1.enabled {
                        Some(id)
                    } else {
                        None
                    }
                },
                None => None,
            },
            None => None,
        }
    }

    fn is_eligible(&self, id: usize, pen: PenData, cursors: &Option<[Cursor; 2]>) -> (r: bool)
        requires
            cursors_ok(*cursors),
        ensures
            r == eligible(self@.contexts, id, pen, *cursors),
    {
        match self.index_of(id) {
            Some(i) => {
                let c = &self.contexts[i].1;
                assert(self@.contexts[i as int].1 == c@);
                if !(c.enabled && pen.in_range()) {
                    return false;
                }
                match context_sample(&c.words, pen, false) {
                    Some((p, _)) => selected(c, p, cursors),
                    None => false,
                }
            },
            None => false,
        }
    }

    fn chosen(&self, pen: PenData, foreground: bool, cursors: &Option<[Cursor; 2]>) -> (r: Option<usize>)
        requires
            cursors_ok(*cursors),
        ensures
            r == spec_chosen(self@, pen, foreground, *cursors),
    {
        if !(foreground && pen.in_range()) {
            return None;
        }
        if let Some(id) = self.captured() {
            return Some(id);
        }
        let mut k: usize = 0;
        while k < self.order.len()
            invariant
                k <= self.order@.len(),
                cursors_ok(*cursors),
                foreground && pen.spec_in_range(),
                spec_captured(self@) is None,
                first_eligible(self@.contexts, self@.order, pen, *cursors, 0) == first_eligible(
                    self@.contexts,
                    self@.order,
                    pen,
                    *cursors,
                    k as int,
                ),
            decreases self.order@.len() - k,
        {
            let id = self.order[k];
            if self.is_eligible(id, pen, cursors) {
                return Some(id);
            }
            k += 1;
        }
        None
    }

    /// Deliver a routed sample to this process's contexts (`foreground`: the sample's
    /// route chose this process).
    pub fn ingest(&mut self, pen: PenData, foreground: bool, cursors: &Option<[Cursor; 2]>, managers: &Vec<Manager>) -> (notices: Vec<
        Notice,
    >)
        requires
            old(self).wf(),
            cursors_ok(*cursors),
        ensures
            final(self).wf(),
            (final(self)@, notices@) == spec_ingest(old(self)@, pen, foreground, *cursors, managers@),
    {
        let ghost s0 = self@;
        let captured = self.captured();
        let chosen = self.chosen(pen, foreground, cursors);
        let mut notices: Vec<Notice> = Vec::new();
        let mut i: usize = 0;
        while i < self.contexts.len()
            invariant
                i <= self.contexts@.len() == s0.contexts.len(),
                cursors_ok(*cursors),
                self@.order == s0.order,
                self@.capture == s0.capture,
                (self@.contexts, notices@) == leave_all(
                    s0.contexts,
                    i as int,
                    pen,
                    foreground,
                    chosen,
                    captured,
                    *cursors,
                    managers@,
                ),
                forall|m: int| 0 <= m < s0.contexts.len() ==> (#[trigger] self@.contexts[m]).0 == s0.contexts[m].0,
                forall|m: int| i <= m < s0.contexts.len() ==> (#[trigger] self@.contexts[m]) == s0.contexts[m],
            decreases s0.contexts.len() - i,
        {
            let ghost before = self@.contexts;
            let ghost n_before = notices@;
            let (id, mut c) = self.contexts.remove(i);
            assert(before[i as int] == (id, c@));
            let leave = is_leaving(&c, id, pen, foreground, chosen, captured);
            let mut more: Vec<Notice> = Vec::new();
            if let Some(q) = c.previous {
                if leave && q.in_range() {
                    let exit = PenData { flags: (q.flags & 4) | (pen.flags & HARDWARE_PROXIMITY), pressure: 0, ..q };
                    more = post_sample(&mut c, id, exit, 1, cursors, managers);
                    c.previous = None;
                }
            }
            proof {
                let (c2, n2) = leave_one(before[i as int].1, id, pen, foreground, chosen, captured, *cursors, managers@);
                assert(c@ == c2);
                assert(more@ == n2);
            }
            self.contexts.insert(i, (id, c));
            notices.append(&mut more);
            proof {
                assert(entries_view(self.contexts@) =~= before.update(i as int, (id, c@)));
            }
            i += 1;
        }
        let ghost s1 = self@.contexts;
        let ghost n1 = notices@;
        assert(s0.contexts.len() as int == i);
        assert((s1, n1) == leave_all(s0.contexts, s0.contexts.len() as int, pen, foreground, chosen, captured, *cursors, managers@));
        match chosen {
            Some(id) => match self.index_of(id) {
                Some(i) => {
                    let (cid, mut c) = self.contexts.remove(i);
                    assert(s1[i as int] == (cid, c@));
                    let ghost c0 = c@;
                    assert(s1.update(i as int, (cid, c0)) =~= s1);
                    let grabbed = match captured {
                        Some(k) => k == id,
                        None => false,
                    };
                    let grab = c.words[9] & c.words[10];
                    if let Some((p, status)) = context_sample(&c.words, pen, grabbed) {
                        if selected(&c, p, cursors) {
                            let mut more = post_sample(&mut c, id, p, status, cursors, managers);
                            notices.append(&mut more);
                        }
                    }
                    self.contexts.insert(i, (cid, c));
                    assert(entries_view(self.contexts@) =~= s1.update(i as int, (cid, c@)));
                    let held = pen_buttons(pen, cursors);
                    self.capture = if held & grab != 0 && pen.in_range() {
                        Some(id)
                    } else {
                        None
                    };
                },
                None => {
                    self.capture = None;
                },
            },
            None => {
                self.capture = None;
            },
        }
        proof {
            lemma_keep_ids(self@.contexts, s0.contexts);
        }
        notices
    }
}

/// Entries with the same ids, place by place, keep the ids distinct.
proof fn lemma_keep_ids(cs: Seq<(usize, ContextView)>, s0: Seq<(usize, ContextView)>)
    requires
        good_ids(s0),
        cs.len() == s0.len(),
        forall|m: int| 0 <= m < s0.len() ==> (#[trigger] cs[m]).0 == s0[m].0,
    ensures
        good_ids(cs),
{
    assert forall|a: int| 0 <= a < cs.len() implies (#[trigger] cs[a]).0 != 0 by {
        assert(cs[a].0 == s0[a].0);
    }
    assert forall|a: int, b: int| 0 <= a < cs.len() && 0 <= b < cs.len() && a != b implies (#[trigger] cs[a]).0 != (
    #[trigger] cs[b]).0 by {
        assert(cs[a].0 == s0[a].0);
        assert(cs[b].0 == s0[b].0);
    }
}

/// `s` without any `id`, in order.
pub open spec fn without(s: Seq<usize>, id: usize) -> Seq<usize>
    decreases s.len(),
{
    if s.len() == 0 {
        s
    } else {
        let r = without(s.drop_last(), id);
        if s.last() != id {
            r.push(s.last())
        } else {
            r
        }
    }
}

/// A sample after the session's routing: nothing (the pen is released everywhere), or
/// the sample and the context that won it, which goes to the top when it is ours.
pub open spec fn spec_ingest_routed(s: StateView, routed: Option<(PenData, usize)>, cursors: Option<[Cursor; 2]>, managers: Seq<Manager>) -> (
    StateView,
    Seq<Notice>,
) {
    match routed {
        None => spec_ingest(s, zero_pen(), false, cursors, managers),
        Some((pen, winner)) => if find(s.contexts, winner) is Some {
            spec_ingest(StateView { order: seq![winner] + without(s.order, winner), ..s }, pen, true, cursors, managers)
        } else {
            spec_ingest(s, pen, false, cursors, managers)
        },
    }
}

/// The packets from the oldest up to `max`, and the queue after taking them (when
/// `remove`): a drained queue also forgets a loss.
pub open spec fn spec_take(c: ContextView, max: i32, remove: bool) -> (Seq<Packet>, ContextView) {
    let count = if max as int <= c.queue.len() { max as int } else { c.queue.len() as int };
    let rest = c.queue.skip(count);
    (c.queue.take(count), if remove {
        ContextView { queue: rest, overflow: if rest.len() == 0 { false } else { c.overflow }, ..c }
    } else {
        c
    })
}

/// The first packet with serial `serial` from position `k` on.
pub open spec fn serial_at(q: Seq<Packet>, serial: u32, k: int) -> Option<int>
    decreases q.len() - k,
{
    if k < 0 || k >= q.len() {
        None
    } else if q[k].serial == serial {
        Some(k)
    } else {
        serial_at(q, serial, k + 1)
    }
}

proof fn lemma_serial_at(q: Seq<Packet>, serial: u32, k: int)
    requires
        0 <= k,
    ensures
        serial_at(q, serial, k) matches Some(i) ==> k <= i < q.len() && q[i].serial == serial,
    decreases q.len() - k,
{
    if k < q.len() {
        lemma_serial_at(q, serial, k + 1);
    }
}

/// A serial lies in the window from `begin` to `end`, which may wrap past the largest
/// serial.
pub open spec fn in_window(serial: u32, begin: u32, end: u32) -> bool {
    vstd::wrapping::u32_specs::wrapping_sub(serial, begin) <= vstd::wrapping::u32_specs::wrapping_sub(end, begin)
}

/// The packets of `q` inside (`inside`) or outside the window, in order.
pub open spec fn window_part(q: Seq<Packet>, begin: u32, end: u32, inside: bool) -> Seq<Packet>
    decreases q.len(),
{
    if q.len() == 0 {
        q
    } else {
        let r = window_part(q.drop_last(), begin, end, inside);
        if in_window(q.last().serial, begin, end) == inside {
            r.push(q.last())
        } else {
            r
        }
    }
}

impl State {
    /// Deliver the outcome of the session's routing of a sample.
    pub fn ingest_routed(
        &mut self,
        routed: Option<(PenData, usize)>,
        cursors: &Option<[Cursor; 2]>,
        managers: &Vec<Manager>,
    ) -> (notices: Vec<Notice>)
        requires
            old(self).wf(),
            cursors_ok(*cursors),
        ensures
            final(self).wf(),
            (final(self)@, notices@) == spec_ingest_routed(old(self)@, routed, *cursors, managers@),
    {
        match routed {
            None => self.ingest(PenData::zero(), false, cursors, managers),
            Some((pen, winner)) => {
                if self.index_of(winner).is_none() {
                    return self.ingest(pen, false, cursors, managers);
                }
                let mut order: Vec<usize> = vec![winner];
                let mut k: usize = 0;
                while k < self.order.len()
                    invariant
                        k <= self.order@.len(),
                        order@ == seq![winner] + without(self.order@.take(k as int), winner),
                    decreases self.order@.len() - k,
                {
                    assert(self.order@.take(k as int + 1).drop_last() =~= self.order@.take(k as int));
                    if self.order[k] != winner {
                        order.push(self.order[k]);
                    }
                    proof {
                        assert(self.order@.take(k as int + 1).last() == self.order@[k as int]);
                        assert(order@ =~= seq![winner] + without(self.order@.take(k as int + 1), winner));
                    }
                    k += 1;
                }
                assert(self.order@.take(self.order@.len() as int) =~= self.order@);
                self.order = order;
                self.ingest(pen, true, cursors, managers)
            },
        }
    }

    /// Read up to `max` packets of context `id`, oldest first, removing them when
    /// `remove`. Nothing for an unknown context or a `max` below one.
    pub fn take_packets(&mut self, id: usize, max: i32, remove: bool) -> (r: Vec<Packet>)
        requires
            old(self).wf(),
        ensures
            final(self).wf(),
            max <= 0 || find(old(self)@.contexts, id) is None ==> r@.len() == 0 && final(self)@ == old(self)@,
            max > 0 ==> match find(old(self)@.contexts, id) {
                Some(i) => {
                    let (taken, c2) = spec_take(old(self)@.contexts[i].1, max, remove);
                    &&& r@ == taken
                    &&& final(self)@ == (StateView { contexts: old(self)@.contexts.update(i, (id, c2)), ..old(self)@ })
                },
                None => true,
            },
    {
        if max <= 0 {
            return Vec::new();
        }
        let i = match self.index_of(id) {
            Some(i) => i,
            None => return Vec::new(),
        };
        let ghost s0 = self@;
        let (cid, mut c) = self.contexts.remove(i);
        assert(s0.contexts[i as int] == (cid, c@));
        let ghost c0 = c@;
        let count: usize = if (max as usize) <= c.queue.len() { max as usize } else { c.queue.len() };
        let mut taken: Vec<Packet> = Vec::new();
        let mut k: usize = 0;
        while k < count
            invariant
                k <= count <= c.queue@.len(),
                taken@ == c.queue@.take(k as int),
            decreases count - k,
        {
            taken.push(c.queue[k]);
            assert(taken@ =~= c.queue@.take(k as int + 1));
            k += 1;
        }
        if remove {
            let mut rest: Vec<Packet> = Vec::new();
            let mut m: usize = count;
            while m < c.queue.len()
                invariant
                    count <= m <= c.queue@.len(),
                    rest@ == c.queue@.subrange(count as int, m as int),
                decreases c.queue@.len() - m,
            {
                rest.push(c.queue[m]);
                assert(rest@ =~= c.queue@.subrange(count as int, m as int + 1));
                m += 1;
            }
            assert(rest@ =~= c0.queue.skip(count as int));
            c.queue = rest;
            if c.queue.len() == 0 {
                c.overflow = false;
            }
        }
        assert(c@ == spec_take(c0, max, remove).1);
        self.contexts.insert(i, (cid, c));
        assert(entries_view(self.contexts@) =~= s0.contexts.update(i as int, (id, c@)));
        proof {
            lemma_keep_ids(self@.contexts, s0.contexts);
        }
        taken
    }
}

impl State {
    /// The packet with serial `serial` of context `id`, removing it and every older one.
    pub fn take_serial(&mut self, id: usize, serial: u32) -> (r: Option<Packet>)
        requires
            old(self).wf(),
        ensures
            final(self).wf(),
            match find(old(self)@.contexts, id) {
                Some(i) => {
                    let c = old(self)@.contexts[i].1;
                    match serial_at(c.queue, serial, 0) {
                        Some(k) => r == Some(c.queue[k]) && final(self)@ == (StateView {
                            contexts: old(self)@.contexts.update(i, (id, ContextView { queue: c.queue.skip(k + 1), ..c })),
                            ..old(self)@
                        }),
                        None => r is None && final(self)@ == old(self)@,
                    }
                },
                None => r is None && final(self)@ == old(self)@,
            },
    {
        let i = match self.index_of(id) {
            Some(i) => i,
            None => return None,
        };
        let ghost s0 = self@;
        assert(s0.contexts[i as int].1 == self.contexts@[i as int].1@);
        let mut k: usize = 0;
        proof {
            lemma_serial_at(s0.contexts[i as int].1.queue, serial, 0);
        }
        while k < self.contexts[i].1.queue.len() && self.contexts[i].1.queue[k].serial != serial
            invariant
                i < self.contexts@.len(),
                self@ == s0,
                s0.contexts[i as int].1 == self.contexts@[i as int].1@,
                k <= self.contexts@[i as int].1.queue@.len(),
                serial_at(s0.contexts[i as int].1.queue, serial, 0) == serial_at(s0.contexts[i as int].1.queue, serial, k as int),
            decreases self.contexts@[i as int].1.queue@.len() - k,
        {
            k += 1;
        }
        if k == self.contexts[i].1.queue.len() {
            return None;
        }
        let (cid, mut c) = self.contexts.remove(i);
        let found = c.queue[k];
        let mut rest: Vec<Packet> = Vec::new();
        let mut m: usize = k + 1;
        while m < c.queue.len()
            invariant
                k < m <= c.queue@.len(),
                rest@ == c.queue@.subrange(k as int + 1, m as int),
            decreases c.queue@.len() - m,
        {
            rest.push(c.queue[m]);
            assert(rest@ =~= c.queue@.subrange(k as int + 1, m as int + 1));
            m += 1;
        }
        assert(rest@ =~= c.queue@.skip(k as int + 1));
        c.queue = rest;
        self.contexts.insert(i, (cid, c));
        assert(entries_view(self.contexts@) =~= s0.contexts.update(i as int, (id, c@)));
        proof {
            lemma_keep_ids(self@.contexts, s0.contexts);
        }
        Some(found)
    }

    /// The packets of context `id` whose serials lie in the window from `begin` to `end`:
    /// up to `max` of them, and how many there are; with `remove`, every one of them
    /// leaves the queue. `None` for an unknown context or a negative `max`.
    pub fn packets_in_window(&mut self, id: usize, begin: u32, end: u32, max: i32, remove: bool) -> (r: Option<(Vec<Packet>, usize)>)
        requires
            old(self).wf(),
        ensures
            final(self).wf(),
            max < 0 || find(old(self)@.contexts, id) is None ==> r is None && final(self)@ == old(self)@,
            max >= 0 ==> match find(old(self)@.contexts, id) {
                Some(i) => {
                    let c = old(self)@.contexts[i].1;
                    let inside = window_part(c.queue, begin, end, true);
                    let count = if max as int <= inside.len() { max as int } else { inside.len() as int };
                    &&& r matches Some((copied, total)) && copied@ == inside.take(count) && total == inside.len()
                    &&& final(self)@ == if remove {
                        StateView {
                            contexts: old(self)@.contexts.update(
                                i,
                                (id, ContextView { queue: window_part(c.queue, begin, end, false), ..c }),
                            ),
                            ..old(self)@
                        }
                    } else {
                        old(self)@
                    }
                },
                None => true,
            },
    {
        if max < 0 {
            return None;
        }
        let i = match self.index_of(id) {
            Some(i) => i,
            None => return None,
        };
        let ghost s0 = self@;
        let (cid, mut c) = self.contexts.remove(i);
        assert(s0.contexts[i as int] == (cid, c@));
        let ghost q = c.queue@;
        let mut inside: Vec<Packet> = Vec::new();
        let mut outside: Vec<Packet> = Vec::new();
        let mut k: usize = 0;
        while k < c.queue.len()
            invariant
                k <= c.queue@.len(),
                q == c.queue@,
                inside@ == window_part(q.take(k as int), begin, end, true),
                outside@ == window_part(q.take(k as int), begin, end, false),
            decreases c.queue@.len() - k,
        {
            let p = c.queue[k];
            assert(q.take(k as int + 1).drop_last() =~= q.take(k as int));
            if p.serial.wrapping_sub(begin) <= end.wrapping_sub(begin) {
                inside.push(p);
            } else {
                outside.push(p);
            }
            proof {
                assert(q.take(k as int + 1).last() == p);
                assert(inside@ =~= window_part(q.take(k as int + 1), begin, end, true));
                assert(outside@ =~= window_part(q.take(k as int + 1), begin, end, false));
            }
            k += 1;
        }
        assert(q.take(q.len() as int) =~= q);
        let total = inside.len();
        let count: usize = if (max as usize) <= total { max as usize } else { total };
        let mut copied: Vec<Packet> = Vec::new();
        let mut m: usize = 0;
        while m < count
            invariant
                m <= count <= inside@.len(),
                copied@ == inside@.take(m as int),
            decreases count - m,
        {
            copied.push(inside[m]);
            assert(copied@ =~= inside@.take(m as int + 1));
            m += 1;
        }
        if remove {
            c.queue = outside;
        }
        self.contexts.insert(i, (cid, c));
        assert(entries_view(self.contexts@) =~= s0.contexts.update(i as int, (id, c@)));
        assert(!remove ==> s0.contexts.update(i as int, (id, c@)) =~= s0.contexts);
        proof {
            lemma_keep_ids(self@.contexts, s0.contexts);
        }
        Some((copied, total))
    }

    /// The serials of the oldest and newest queued packets of context `id`.
    pub fn queue_ends(&self, id: usize) -> (r: Option<(u32, u32)>)
        ensures
            r == match find(self@.contexts, id) {
                Some(i) => {
                    let q = self@.contexts[i].1.queue;
                    if q.len() > 0 { Some((q[0].serial, q.last().serial)) } else { None }
                },
                None => None,
            },
    {
        match self.index_of(id) {
            Some(i) => {
                let q = &self.contexts[i].1.queue;
                assert(self@.contexts[i as int].1.queue == q@);
                if q.len() > 0 {
                    Some((q[0].serial, q[q.len() - 1].serial))
                } else {
                    None
                }
            },
            None => None,
        }
    }

    /// Empty the queue of context `id` and forget a loss (before its size changes).
    pub fn reset_queue(&mut self, id: usize)
        requires
            old(self).wf(),
        ensures
            final(self).wf(),
            final(self)@ == match find(old(self)@.contexts, id) {
                Some(i) => StateView {
                    contexts: old(self)@.contexts.update(
                        i,
                        (id, ContextView { queue: seq![], overflow: false, ..old(self)@.contexts[i].1 }),
                    ),
                    ..old(self)@
                },
                None => old(self)@,
            },
    {
        if let Some(i) = self.index_of(id) {
            let ghost s0 = self@;
            let (cid, mut c) = self.contexts.remove(i);
            assert(s0.contexts[i as int] == (cid, c@));
            c.queue = Vec::new();
            c.overflow = false;
            self.contexts.insert(i, (cid, c));
            assert(entries_view(self.contexts@) =~= s0.contexts.update(i as int, (id, c@)));
            proof {
            lemma_keep_ids(self@.contexts, s0.contexts);
        }
        }
    }

    /// Context `id` no longer holds the pen (closed or disabled).
    pub fn release_capture(&mut self, id: usize)
        ensures
            final(self)@ == (StateView {
                capture: if old(self)@.capture == Some(id) { None } else { old(self)@.capture },
                ..old(self)@
            }),
    {
        if self.capture == Some(id) {
            self.capture = None;
        }
    }
}

/// Retained entries keep their ids, which stay distinct and nonzero.
proof fn lemma_retained_ids(cs: Seq<(usize, ContextView)>, records: Seq<Record>)
    requires
        good_ids(cs),
    ensures
        good_ids(retained(cs, records)),
        forall|x: int| 0 <= x < retained(cs, records).len() ==> exists|y: int| 0 <= y < cs.len() && (#[trigger] retained(cs, records)[x]).0 == cs[y].0,
    decreases cs.len(),
{
    if cs.len() > 0 {
        let d = cs.drop_last();
        assert(good_ids(d)) by {
            assert forall|a: int, b: int| 0 <= a < d.len() && 0 <= b < d.len() && a != b implies (#[trigger] d[a]).0 != (#[trigger] d[b]).0 by {
                assert(d[a] == cs[a] && d[b] == cs[b]);
            }
            assert forall|a: int| 0 <= a < d.len() implies (#[trigger] d[a]).0 != 0 by {
                assert(d[a] == cs[a]);
            }
        }
        lemma_retained_ids(d, records);
        let r = retained(d, records);
        assert forall|x: int| 0 <= x < r.len() implies (#[trigger] r[x]).0 != cs.last().0 by {
            let y = choose|y: int| 0 <= y < d.len() && r[x].0 == d[y].0;
            assert(d[y] == cs[y]);
        }
        assert forall|x: int| 0 <= x < r.len() implies exists|y: int| 0 <= y < cs.len() && (#[trigger] r[x]).0 == cs[y].0 by {
            let y = choose|y: int| 0 <= y < d.len() && r[x].0 == d[y].0;
            assert(d[y] == cs[y]);
        }
    }
}

/// The first slot from `k` on whose record has id `id` (the length when none has).
pub open spec fn id_slot(records: Seq<Record>, id: u32, k: int) -> int
    decreases records.len() - k,
{
    if k < 0 || k >= records.len() {
        records.len() as int
    } else if records[k].id == id {
        k
    } else {
        id_slot(records, id, k + 1)
    }
}

proof fn lemma_id_slot(records: Seq<Record>, id: u32, k: int, j: int)
    requires
        0 <= k <= j < records.len(),
        records[j].id == id,
    ensures
        k <= id_slot(records, id, k) <= j,
        records[id_slot(records, id, k)].id == id,
    decreases j - k,
{
    if records[k].id != id {
        lemma_id_slot(records, id, k + 1, j);
    }
}

/// The records with the overlap place that orders them: that of the first record with
/// the same id.
pub open spec fn keyed(records: Seq<Record>) -> Seq<Record> {
    Seq::new(records.len(), |j: int| Record { order: records[id_slot(records, records[j].id, 0)].order, ..records[j] })
}

/// The first live record from slot `k` on with id `id`.
pub open spec fn record_for(records: Seq<Record>, id: usize, k: int) -> Option<int>
    decreases records.len() - k,
{
    if k < 0 || k >= records.len() {
        None
    } else if records[k].id as usize == id && records[k].id != 0 {
        Some(k)
    } else {
        record_for(records, id, k + 1)
    }
}

proof fn lemma_record_for(records: Seq<Record>, id: usize, k: int)
    requires
        0 <= k,
    ensures
        record_for(records, id, k) matches Some(j) ==> k <= j < records.len() && records[j].id as usize == id
            && records[j].id != 0,
    decreases records.len() - k,
{
    if k < records.len() {
        lemma_record_for(records, id, k + 1);
    }
}

/// The name a record carries, as text.
pub open spec fn record_name(r: Record) -> Seq<char> {
    utf16_lossy(until_zero(r.name@))
}

/// A context brought up to date with its record: a change of anything but its status
/// empties the queue and forgets the last sample; a new revision (a queue resize) empties
/// the queue too.
pub open spec fn refreshed(c: ContextView, r: Record) -> ContextView {
    let settings_changed = c.words@.update(1, r.words@[1]) != r.words@ || c.enabled != (r.enabled != 0) || c.name
        != record_name(r) || c.capacity != r.queue_capacity as usize || c.cursor_mask@ != r.cursor_mask@;
    let c1 = if settings_changed { ContextView { queue: seq![], previous: None, overflow: false, ..c } } else { c };
    let c2 = if c.revision != r.revision { ContextView { queue: seq![], overflow: false, ..c1 } } else { c1 };
    ContextView {
        revision: r.revision,
        cursor_mask: r.cursor_mask,
        name: record_name(r),
        words: r.words,
        enabled: r.enabled != 0,
        capacity: r.queue_capacity as usize,
        ..c2
    }
}

/// The contexts still in the session, in order, each brought up to date.
pub open spec fn retained(cs: Seq<(usize, ContextView)>, records: Seq<Record>) -> Seq<(usize, ContextView)>
    decreases cs.len(),
{
    if cs.len() == 0 {
        cs
    } else {
        let r = retained(cs.drop_last(), records);
        match record_for(records, cs.last().0, 0) {
            Some(j) => r.push((cs.last().0, refreshed(cs.last().1, records[j]))),
            None => r,
        }
    }
}

/// The slots below `n` whose record names one of the contexts, in slot order.
pub open spec fn member_slots(records: Seq<Record>, cs: Seq<(usize, ContextView)>, n: int) -> Seq<usize>
    decreases n,
{
    if n <= 0 {
        seq![]
    } else {
        let r = member_slots(records, cs, n - 1);
        if find(cs, records[n - 1].id as usize) is Some {
            r.push((n - 1) as usize)
        } else {
            r
        }
    }
}

proof fn lemma_member_slots(records: Seq<Record>, cs: Seq<(usize, ContextView)>, n: int)
    requires
        0 <= n <= records.len() <= usize::MAX,
    ensures
        forall|x: int| 0 <= x < member_slots(records, cs, n).len() ==> #[trigger] member_slots(records, cs, n)[x] < n,
        forall|x: int, y: int|
            0 <= x < y < member_slots(records, cs, n).len() ==> #[trigger] member_slots(records, cs, n)[x]
                < #[trigger] member_slots(records, cs, n)[y],
    decreases n,
{
    if n > 0 {
        lemma_member_slots(records, cs, n - 1);
        let r = member_slots(records, cs, n - 1);
        if find(cs, records[n - 1].id as usize) is Some {
            let m = r.push((n - 1) as usize);
            assert forall|x: int| 0 <= x < m.len() implies #[trigger] m[x] < n by {
                if x < r.len() {
                    assert(m[x] == r[x]);
                }
            }
            assert forall|x: int, y: int| 0 <= x < y < m.len() implies #[trigger] m[x] < #[trigger] m[y] by {
                assert(m[x] == r[x]);
                assert(r[x] < n - 1);
                if y < r.len() {
                    assert(m[y] == r[y]);
                }
            }
        }
    }
}

fn record_text(r: &Record) -> (s: String)
    ensures
        s@ == record_name(*r),
{
    let mut units: Vec<u16> = Vec::new();
    let mut k: usize = 0;
    while k < 40 && r.name[k] != 0
        invariant
            k <= 40,
            units@ == r.name@.take(k as int),
            forall|j: int| 0 <= j < k ==> r.name@[j] != 0,
        decreases 40 - k,
    {
        units.push(r.name[k]);
        assert(units@ =~= r.name@.take(k as int + 1));
        k += 1;
    }
    proof {
        lemma_until_zero(r.name@, k as int);
    }
    from_utf16_lossy(units.as_slice())
}

fn same_words(a: &Words, b: &Words) -> (r: bool)
    ensures
        r == (a@ == b@),
{
    let mut i: usize = 0;
    while i < 33
        invariant
            i <= 33,
            forall|k: int| 0 <= k < i ==> a@[k] == b@[k],
        decreases 33 - i,
    {
        if a[i] != b[i] {
            return false;
        }
        i += 1;
    }
    assert(a@ =~= b@);
    true
}

fn same_mask(a: &[u8; 16], b: &[u8; 16]) -> (r: bool)
    ensures
        r == (a@ == b@),
{
    let mut i: usize = 0;
    while i < 16
        invariant
            i <= 16,
            forall|k: int| 0 <= k < i ==> a@[k] == b@[k],
        decreases 16 - i,
    {
        if a[i] != b[i] {
            return false;
        }
        i += 1;
    }
    assert(a@ =~= b@);
    true
}

fn refresh(c: &mut Context, r: &Record)
    ensures
        final(c)@ == refreshed(old(c)@, *r),
{
    let ghost c0 = c@;
    let name = record_text(r);
    let mut kept = c.words;
    kept[1] = r.words[1];
    assert(kept@ =~= c0.words@.update(1, r.words@[1]));
    let same_name = same_chars(&chars_of(c.name.as_str()), &chars_of(name.as_str()));
    if !same_words(&kept, &r.words) || c.enabled != (r.enabled != 0) || !same_name || c.capacity != r.queue_capacity as usize
        || !same_mask(&c.cursor_mask, &r.cursor_mask) {
        c.queue = Vec::new();
        c.previous = None;
        c.overflow = false;
    }
    if c.revision != r.revision {
        c.queue = Vec::new();
        c.overflow = false;
    }
    c.revision = r.revision;
    c.cursor_mask = r.cursor_mask;
    c.name = name;
    c.words = r.words;
    c.enabled = r.enabled != 0;
    c.capacity = r.queue_capacity as usize;
    assert(c@ =~= refreshed(c0, *r));
}

impl State {
    /// Bring this process's contexts up to date with the session's records: contexts no
    /// longer there are dropped, the others refreshed, and the overlap order read from the
    /// records (from the top; equal places keep the slot order). Nothing changes without
    /// records.
    pub fn sync(&mut self, records: &Vec<Record>)
        requires
            old(self).wf(),
        ensures
            final(self).wf(),
            records@.len() == 0 ==> final(self)@ == old(self)@,
            records@.len() > 0 ==> {
                let cs = retained(old(self)@.contexts, records@);
                &&& final(self)@.contexts == cs
                &&& final(self)@.capture == old(self)@.capture
                &&& exists|ord: Seq<usize>|
                    #![trigger sorted_members(keyed(records@), true, member_slots(records@, cs, records@.len() as int), ord)]
                    sorted_members(keyed(records@), true, member_slots(records@, cs, records@.len() as int), ord)
                        && final(self)@.order == ord.map_values(|j: usize| records@[j as int].id as usize)
            },
    {
        if records.len() == 0 {
            return;
        }
        let ghost s0 = self@;
        let mut rest: Vec<(usize, Context)> = Vec::new();
        std::mem::swap(&mut rest, &mut self.contexts);
        let mut kept: Vec<(usize, Context)> = Vec::new();
        let mut k: usize = 0;
        let n0 = rest.len();
        assert(n0 == s0.contexts.len());
        assert(entries_view(rest@) =~= s0.contexts.skip(0));
        assert(s0.contexts.take(0) =~= seq![]);
        while rest.len() > 0
            invariant
                k + rest@.len() == s0.contexts.len() <= usize::MAX,
                entries_view(rest@) == s0.contexts.skip(k as int),
                entries_view(kept@) == retained(s0.contexts.take(k as int), records@),
                good_ids(s0.contexts),
            decreases rest@.len(),
        {
            let ghost before = kept@;
            let ghost rb = rest@;
            let (id, mut c) = rest.remove(0);
            assert(entries_view(rb)[0] == (id, c@));
            assert(s0.contexts.skip(k as int)[0] == (id, c@));
            assert(rest@ =~= rb.skip(1));
            assert(entries_view(rest@) =~= entries_view(rb).skip(1));
            assert(entries_view(rest@) =~= s0.contexts.skip(k as int + 1));
            assert(s0.contexts.take(k as int + 1).drop_last() =~= s0.contexts.take(k as int));
            assert(s0.contexts.take(k as int + 1).last() == (id, c@));
            let mut j: usize = 0;
            proof {
                lemma_record_for(records@, id, 0);
            }
            while j < records.len() && !(records[j].id as usize == id && records[j].id != 0)
                invariant
                    j <= records@.len(),
                    record_for(records@, id, 0) == record_for(records@, id, j as int),
                decreases records@.len() - j,
            {
                j += 1;
            }
            if j < records.len() {
                refresh(&mut c, &records[j]);
                kept.push((id, c));
                assert(entries_view(kept@) =~= entries_view(before).push((id, c@)));
            }
            k += 1;
        }
        assert(s0.contexts.take(s0.contexts.len() as int) =~= s0.contexts);
        self.contexts = kept;
        proof {
            lemma_retained_ids(s0.contexts, records@);
        }
        let ghost cs = self@.contexts;
        let mut members: Vec<usize> = Vec::new();
        let mut j: usize = 0;
        while j < records.len()
            invariant
                j <= records@.len(),
                cs == self@.contexts,
                members@ == member_slots(records@, cs, j as int),
            decreases records@.len() - j,
        {
            if self.index_of(records[j].id as usize).is_some() {
                members.push(j);
            }
            j += 1;
        }
        proof {
            lemma_member_slots(records@, cs, records@.len() as int);
        }
        let mut keys: Vec<Record> = Vec::new();
        let mut j: usize = 0;
        while j < records.len()
            invariant
                j <= records@.len(),
                keys@ == keyed(records@).take(j as int),
            decreases records@.len() - j,
        {
            let id = records[j].id;
            let mut k: usize = 0;
            proof {
                lemma_id_slot(records@, id, 0, j as int);
            }
            while records[k].id != id
                invariant
                    k <= j < records@.len(),
                    records@[j as int].id == id,
                    id_slot(records@, id, 0) == id_slot(records@, id, k as int),
                    k <= id_slot(records@, id, k as int) <= j,
                decreases j - k,
            {
                proof {
                    lemma_id_slot(records@, id, k as int + 1, j as int);
                }
                k += 1;
            }
            keys.push(Record { order: records[k].order, ..records[j] });
            assert(keys@ =~= keyed(records@).take(j as int + 1));
            j += 1;
        }
        assert(keys@ =~= keyed(records@));
        let ord = sort_slots(&keys, &members, true);
        let mut order: Vec<usize> = Vec::new();
        let mut m: usize = 0;
        while m < ord.len()
            invariant
                m <= ord@.len(),
                forall|x: int| 0 <= x < ord@.len() ==> #[trigger] ord@[x] < records@.len(),
                order@ == ord@.take(m as int).map_values(|j: usize| records@[j as int].id as usize),
            decreases ord@.len() - m,
        {
            order.push(records[ord[m]].id as usize);
            proof {
                assert(ord@.take(m as int + 1).map_values(|j: usize| records@[j as int].id as usize) =~= ord@.take(
                    m as int,
                ).map_values(|j: usize| records@[j as int].id as usize).push(records@[ord@[m as int] as int].id as usize));
            }
            m += 1;
        }
        assert(ord@.take(ord@.len() as int) =~= ord@);
        self.order = order;
    }
}

/// The most contexts one process opens.
pub const MAX_CONTEXTS: usize = 64;

/// `c` is a context as this process starts keeping it when it opens one: the
/// requested settings made valid, every cursor selected, an empty queue of 128.
pub open spec fn opened(c: ContextView, name: Seq<char>, words: Seq<u32>, window: usize, enabled: bool, rate: u32) -> bool {
    &&& c.words@ == spec_validated(words, enabled, rate)
    &&& c.cursor_mask@ == seq![255u8; 16]
    &&& c == (ContextView {
        revision: 0,
        cursor_mask: c.cursor_mask,
        name,
        words: c.words,
        window,
        enabled,
        queue: seq![],
        capacity: 128,
        previous: None,
        overflow: false,
        serial: 0,
    })
}

impl State {
    /// A process with no contexts.
    pub fn new() -> (s: State)
        ensures
            s.wf(),
            s@.contexts.len() == 0 && s@.order.len() == 0 && s@.capture is None,
    {
        let s = State { contexts: Vec::new(), order: Vec::new(), capture: None };
        assert(s@.contexts =~= seq![]);
        s
    }

    /// Another context may be opened.
    pub fn has_room(&self) -> (r: bool)
        ensures
            r == (self@.contexts.len() < MAX_CONTEXTS),
    {
        self.contexts.len() < MAX_CONTEXTS
    }

    /// Keep context `id`, just opened in the session, replacing any context kept under
    /// that id.
    pub fn insert(&mut self, id: usize, name: String, words: Words, window: usize, enabled: bool, rate: u32)
        requires
            old(self).wf(),
            id != 0,
        ensures
            final(self).wf(),
            final(self)@.order == old(self)@.order && final(self)@.capture == old(self)@.capture,
            match find(old(self)@.contexts, id) {
                Some(i) => final(self)@.contexts.len() == old(self)@.contexts.len() && final(self)@.contexts[i].0 == id
                    && final(self)@.contexts == old(self)@.contexts.update(i, (id, final(self)@.contexts[i].1)),
                None => final(self)@.contexts.len() == old(self)@.contexts.len() + 1 && final(self)@.contexts.last().0 == id
                    && final(self)@.contexts.drop_last() == old(self)@.contexts,
            },
            opened(final(self)@.contexts[find(final(self)@.contexts, id)->0].1, name@, words@, window, enabled, rate),
            find(final(self)@.contexts, id) is Some,
    {
        let ghost s0 = self@;
        let ghost text = name@;
        let c = Context {
            revision: 0,
            cursor_mask: [255u8; 16],
            name,
            words: validated(words, enabled, rate),
            window,
            enabled,
            queue: Vec::new(),
            capacity: 128,
            previous: None,
            overflow: false,
            serial: 0,
        };
        assert(c@.cursor_mask@ =~= seq![255u8; 16]);
        assert(c@.queue =~= seq![]);
        assert(opened(c@, text, words@, window, enabled, rate));
        match self.index_of(id) {
            Some(i) => {
                let _ = self.contexts.remove(i);
                self.contexts.insert(i, (id, c));
                assert(self@.contexts =~= s0.contexts.update(i as int, (id, c@)));
                proof {
                    lemma_keep_ids(self@.contexts, s0.contexts);
                    lemma_find_from(self@.contexts, id, 0);
                    lemma_find_unique(self@.contexts, id, i as int);
                }
            },
            None => {
                self.contexts.push((id, c));
                assert(self@.contexts =~= s0.contexts.push((id, c@)));
                proof {
                    lemma_find_from(s0.contexts, id, 0);
                    assert(good_ids(self@.contexts)) by {
                        assert forall|a: int, b: int|
                            0 <= a < self@.contexts.len() && 0 <= b < self@.contexts.len() && a != b implies (
                        #[trigger] self@.contexts[a]).0 != (#[trigger] self@.contexts[b]).0 by {
                            if a < s0.contexts.len() {
                                assert(self@.contexts[a] == s0.contexts[a]);
                            }
                            if b < s0.contexts.len() {
                                assert(self@.contexts[b] == s0.contexts[b]);
                            }
                        }
                        assert forall|a: int| 0 <= a < self@.contexts.len() implies (#[trigger] self@.contexts[a]).0 != 0 by {
                            if a < s0.contexts.len() {
                                assert(self@.contexts[a] == s0.contexts[a]);
                            }
                        }
                    }
                    lemma_find_unique(self@.contexts, id, s0.contexts.len() as int);
                }
            },
        }
    }
}

/// With distinct ids, the entry with id `id` is the one `find` gives.
proof fn lemma_find_unique(cs: Seq<(usize, ContextView)>, id: usize, i: int)
    requires
        good_ids(cs),
        0 <= i < cs.len(),
        cs[i].0 == id,
    ensures
        find(cs, id) == Some(i),
{
    lemma_find_from(cs, id, 0);
    match find(cs, id) {
        Some(j) => {
            if j != i {
                assert(cs[j].0 == cs[i].0);
            }
        },
        None => {
            assert(cs[i].0 == id);
        },
    }
}

proof fn lemma_post_all_bound(c: ContextView, id: usize, pen: PenData, status: u32, changed: u32, prior: PenData, events: Seq<u32>)
    requires
        c.queue.len() <= c.capacity,
    ensures
        post_all(c, id, pen, status, changed, prior, events).0.queue.len() <= c.capacity,
        post_all(c, id, pen, status, changed, prior, events).0.capacity == c.capacity,
    decreases events.len(),
{
    if events.len() > 0 {
        lemma_post_all_bound(c, id, pen, status, changed, prior, events.drop_last());
    }
}

/// Delivering a sample never lets a context's queue grow past its size: a packet that
/// does not fit is lost (and the loss is marked) instead.
pub proof fn lemma_queue_within_capacity(
    c: ContextView,
    id: usize,
    pen: PenData,
    status: u32,
    cursors: Option<[Cursor; 2]>,
    managers: Seq<Manager>,
)
    requires
        c.queue.len() <= c.capacity,
    ensures
        spec_post_sample(c, id, pen, status, cursors, managers).0.queue.len() <= c.capacity,
        spec_post_sample(c, id, pen, status, cursors, managers).0.capacity == c.capacity,
{
    let prior = or_zero(c.previous);
    let events = sample_events(c.words@, spec_buttons(prior, cursors), spec_buttons(pen, cursors));
    lemma_post_all_bound(c, id, pen, status, changed_fields(c.previous, pen, cursors), prior, events);
}

/// Reading packets with removal loses none and keeps their order: what is read followed
/// by what stays is the queue as it was.
pub proof fn lemma_read_then_rest(c: ContextView, max: i32)
    requires
        max > 0,
    ensures
        spec_take(c, max, true).0 + spec_take(c, max, true).1.queue == c.queue,
{
    let count = if max as int <= c.queue.len() { max as int } else { c.queue.len() as int };
    assert(c.queue.take(count) + c.queue.skip(count) =~= c.queue);
}

/// A window read splits the queue: each packet lies either inside the window (and is
/// read) or outside it (and stays).
pub proof fn lemma_window_splits(q: Seq<Packet>, begin: u32, end: u32)
    ensures
        window_part(q, begin, end, true).len() + window_part(q, begin, end, false).len() == q.len(),
        forall|x: int| 0 <= x < window_part(q, begin, end, true).len() ==> in_window(
            #[trigger] window_part(q, begin, end, true)[x].serial,
            begin,
            end,
        ),
        forall|x: int| 0 <= x < window_part(q, begin, end, false).len() ==> !in_window(
            #[trigger] window_part(q, begin, end, false)[x].serial,
            begin,
            end,
        ),
    decreases q.len(),
{
    if q.len() > 0 {
        lemma_window_splits(q.drop_last(), begin, end);
        let a = window_part(q.drop_last(), begin, end, true);
        let b = window_part(q.drop_last(), begin, end, false);
        if in_window(q.last().serial, begin, end) {
            assert forall|x: int| 0 <= x < a.push(q.last()).len() implies in_window(#[trigger] a.push(q.last())[x].serial, begin, end) by {
                if x < a.len() {
                    assert(a.push(q.last())[x] == a[x]);
                }
            }
        } else {
            assert forall|x: int| 0 <= x < b.push(q.last()).len() implies !in_window(#[trigger] b.push(q.last())[x].serial, begin, end) by {
                if x < b.len() {
                    assert(b.push(q.last())[x] == b[x]);
                }
            }
        }
    }
}

} // verus!
