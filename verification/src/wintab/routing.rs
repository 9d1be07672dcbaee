//! Routing of each pen sample to at most one WinTab context. The first process to
//! read a sample decides; every other process replays the cached decision.
use vstd::prelude::*;
use super::pen::{PenData, HARDWARE_PROXIMITY, OUT_OF_BOUNDS};
use super::words::{SUPPORTED, spec_context_sample, context_sample, spec_cursor_selected, cursor_selected, clamp};
use super::session::{
    Cursor, Data, DataView, Notice, Record, Routed, CONTEXTS, ROUTES, live, last_max_order, first_match,
    foreground_step,
};

verus! {

/// The cursor slot (0 pen, 1 eraser) a sample uses.
pub open spec fn cursor_index(p: PenData) -> int {
    if p.spec_eraser() { 1 } else { 0 }
}

/// Bit of a logical button, mapped from a physical button through the cursor's button map.
pub open spec fn mapped_bit(p: PenData, c: Cursor, physical: int) -> u32 {
    if p.flags & (if physical == 0 { 1i32 } else { 2i32 }) != 0 {
        1u32 << c.button_map@[physical]
    } else {
        0
    }
}

/// Logical buttons of a sample: each pressed physical button (tip, barrel) sets its mapped bit.
pub open spec fn spec_logical_buttons(p: PenData, cursors: [Cursor; 2]) -> u32 {
    let c = cursors@[cursor_index(p)];
    mapped_bit(p, c, 0) | mapped_bit(p, c, 1)
}

pub fn logical_buttons(p: PenData, cursors: &[Cursor; 2]) -> (r: u32)
    requires
        cursors@[0].wf(),
        cursors@[1].wf(),
    ensures
        r == spec_logical_buttons(p, *cursors),
{
    let c = &cursors[if p.eraser() { 1 } else { 0 }];
    let b0: u32 = if p.flags & 1 != 0 { 1u32 << c.button_map[0] } else { 0 };
    let b1: u32 = if p.flags & 2 != 0 { 1u32 << c.button_map[1] } else { 0 };
    b0 | b1
}

/// Linear interpolation in the cursor's 256-entry pressure response table.
pub open spec fn response_at(response: Seq<u32>, pressure: int) -> i32 {
    let position = pressure * 255;
    let index = position / 4097;
    let f = position % 4097;
    let next = if index + 1 < 255 { index + 1 } else { 255 };
    ((response[index] * (4097 - f) + response[next] * f + 2048) / 4097) as i32
}

/// The pressure-button state and output pressure after the cursor's marks and response.
/// Returns the adjusted sample and the new held state.
pub open spec fn spec_apply_pressure(p: PenData, c: Cursor, held: u32) -> (PenData, u32) {
    if c.enabled == 0 || !p.spec_in_range() {
        (PenData { flags: 0, pressure: 0, ..p }, 0)
    } else {
        let pressure = clamp(p.pressure as int, 0, 4097);
        let down = c.marks@[1] > c.marks@[0] && if held != 0 {
            pressure > c.marks@[0]
        } else {
            pressure >= c.marks@[1]
        };
        let h: u32 = if down { 1 } else { 0 };
        (
            PenData {
                flags: (p.flags & !1i32) | (h as i32),
                pressure: if c.response_custom != 0 { response_at(c.response@, pressure) } else { p.pressure },
                ..p
            },
            h,
        )
    }
}

/// Apply the cursor's press marks (with hysteresis) and pressure response to a sample.
pub fn apply_pressure(p: PenData, c: &Cursor, held: &mut u32) -> (r: PenData)
    ensures
        (r, *final(held)) == spec_apply_pressure(p, *c, *old(held)),
{
    if c.enabled == 0 || !p.in_range() {
        *held = 0;
        return PenData { flags: 0, pressure: 0, ..p };
    }
    let pressure: u32 = if p.pressure < 0 { 0 } else if p.pressure > 4097 { 4097 } else { p.pressure as u32 };
    let down = c.marks[1] > c.marks[0] && if *held != 0 { pressure > c.marks[0] } else { pressure >= c.marks[1] };
    let h: u32 = if down { 1 } else { 0 };
    *held = h;
    let mut q = PenData { flags: (p.flags & !1i32) | (h as i32), ..p };
    if c.response_custom != 0 {
        let position: u32 = pressure * 255;
        let index: u32 = position / 4097;
        let f: u32 = position % 4097;
        assert(index <= 255) by (nonlinear_arith)
            requires
                pressure <= 4097,
                position == pressure * 255,
                index == position / 4097,
        ;
        let next: u32 = if index + 1 < 255 { index + 1 } else { 255 };
        let a = c.response[index as usize] as u64;
        let b = c.response[next as usize] as u64;
        assert(a * (4097 - f) as u64 <= 0xffff_ffff * 4097) by (nonlinear_arith)
            requires
                a <= 0xffff_ffff,
                f < 4097,
        ;
        assert(b * f as u64 <= 0xffff_ffff * 4097) by (nonlinear_arith)
            requires
                b <= 0xffff_ffff,
                f < 4097,
        ;
        q.pressure = ((a * (4097 - f) as u64 + b * f as u64 + 2048) / 4097) as i32;
    }
    q
}

/// Motion bits (x, y, pressure, orientation) that differ between two samples.
pub open spec fn motion_bits(a: PenData, b: PenData) -> u32 {
    (if a.x != b.x { 0x80u32 } else { 0 }) | (if a.y != b.y { 0x100u32 } else { 0 }) | (if a.pressure
        != b.pressure {
        0x400u32
    } else {
        0
    }) | (if a.tilt_x != b.tilt_x || a.tilt_y != b.tilt_y { 0x1000u32 } else { 0 })
}

/// Which contexts a routing search looks for.
pub enum Query {
    /// The context that holds the pen capture.
    Captured { capture: u32, p: PenData },
    /// A context that would see the sample and asked for one of its changes.
    Motion { p: PenData, motion: u32, down: u32, up: u32 },
    /// The previous winner, when it still sees the stationary sample.
    Stay { winner: u32, p: PenData },
    /// An out-of-bounds-tracking context.
    Tracking { p: PenData },
    /// The remembered out-of-bounds-tracking context.
    TrackingId { obt: u32, p: PenData },
    /// An out-of-bounds-tracking context that sees the sample inside its rectangle.
    TrackingInside { p: PenData },
    /// The open context with this id.
    Id { id: u32 },
}

/// An open, enabled context that accepts the pen end in use.
pub open spec fn selects(r: Record, p: PenData) -> bool {
    live(r) && r.enabled != 0 && spec_cursor_selected(r.cursor_mask@, p)
}

pub open spec fn tracking(r: Record, p: PenData) -> bool {
    selects(r, p) && r.words@[8] & 0x380 != 0
}

pub open spec fn query_matches(q: Query, r: Record) -> bool {
    match q {
        Query::Captured { capture, p } => selects(r, p) && r.id == capture,
        Query::Motion { p, motion, down, up } => selects(r, p) && spec_context_sample(r.words@, p, false) is Some
            && (motion & r.words@[8] & r.words@[6] != 0 || down & r.words@[9] != 0 || up & r.words@[10] != 0),
        Query::Stay { winner, p } => selects(r, p) && r.id == winner && spec_context_sample(r.words@, p, false) is Some,
        Query::Tracking { p } => tracking(r, p),
        Query::TrackingId { obt, p } => tracking(r, p) && r.id == obt,
        Query::TrackingInside { p } => tracking(r, p) && spec_context_sample(r.words@, p, false) is Some,
        Query::Id { id } => live(r) && r.id == id,
    }
}

pub open spec fn query_pred(q: Query) -> spec_fn(Record) -> bool {
    |r: Record| query_matches(q, r)
}

fn matches_query(q: &Query, r: &Record) -> (b: bool)
    ensures
        b == query_matches(*q, *r),
{
    match q {
        Query::Captured { capture, p } => {
            r.id != 0 && r.enabled != 0 && cursor_selected(&r.cursor_mask, *p) && r.id == *capture
        },
        Query::Motion { p, motion, down, up } => {
            r.id != 0 && r.enabled != 0 && cursor_selected(&r.cursor_mask, *p) && context_sample(&r.words, *p, false).is_some()
                && (*motion & r.words[8] & r.words[6] != 0 || *down & r.words[9] != 0 || *up & r.words[10] != 0)
        },
        Query::Stay { winner, p } => {
            r.id != 0 && r.enabled != 0 && cursor_selected(&r.cursor_mask, *p) && r.id == *winner
                && context_sample(&r.words, *p, false).is_some()
        },
        Query::Tracking { p } => {
            r.id != 0 && r.enabled != 0 && cursor_selected(&r.cursor_mask, *p) && r.words[8] & 0x380 != 0
        },
        Query::TrackingId { obt, p } => {
            r.id != 0 && r.enabled != 0 && cursor_selected(&r.cursor_mask, *p) && r.words[8] & 0x380 != 0 && r.id == *obt
        },
        Query::TrackingInside { p } => {
            r.id != 0 && r.enabled != 0 && cursor_selected(&r.cursor_mask, *p) && r.words[8] & 0x380 != 0
                && context_sample(&r.words, *p, false).is_some()
        },
        Query::Id { id } => r.id != 0 && r.id == *id,
    }
}

/// The application contexts (slots 2 and above).
pub open spec fn clients(c: Seq<Record>) -> Seq<Record> {
    c.subrange(2, CONTEXTS as int)
}

/// The first application context matching the query.
fn first_where(c: &Vec<Record>, q: &Query) -> (r: Option<Record>)
    requires
        c@.len() == CONTEXTS,
    ensures
        r == first_match(clients(c@), query_pred(*q)),
{
    let ghost subs = clients(c@);
    let ghost pred = query_pred(*q);
    let mut i: usize = 2;
    while i < CONTEXTS
        invariant
            2 <= i <= CONTEXTS,
            c@.len() == CONTEXTS,
            subs == clients(c@),
            pred == query_pred(*q),
            forall|k: int| 0 <= k < i - 2 ==> !pred(#[trigger] subs[k]),
        decreases CONTEXTS - i,
    {
        let r = c[i];
        if matches_query(q, &r) {
            proof {
                super::session::lemma_first_match_skip(subs, pred, i - 2);
                assert(subs.subrange(i - 2, subs.len() as int)[0] == r);
            }
            return Some(r);
        }
        i += 1;
    }
    proof {
        super::session::lemma_first_match_skip(subs, pred, subs.len() as int);
    }
    None
}

/// Among application contexts matching the query, the last with the greatest overlap order.
fn top_where(c: &Vec<Record>, q: &Query) -> (r: Option<Record>)
    requires
        c@.len() == CONTEXTS,
    ensures
        r == last_max_order(clients(c@), query_pred(*q)),
{
    let ghost subs = clients(c@);
    let ghost pred = query_pred(*q);
    let mut best: Option<Record> = None;
    let mut i: usize = 2;
    while i < CONTEXTS
        invariant
            2 <= i <= CONTEXTS,
            c@.len() == CONTEXTS,
            subs == clients(c@),
            pred == query_pred(*q),
            best == last_max_order(subs.take(i - 2), pred),
        decreases CONTEXTS - i,
    {
        let r = c[i];
        proof {
            assert(subs.take(i - 1).drop_last() =~= subs.take(i - 2));
            assert(subs.take(i - 1).last() == r);
        }
        if matches_query(q, &r) {
            match best {
                None => {
                    best = Some(r);
                },
                Some(b) => {
                    if b.order <= r.order {
                        best = Some(r);
                    }
                },
            }
        }
        i += 1;
    }
    proof {
        assert(subs.take(CONTEXTS - 2) =~= subs);
    }
    best
}

/// The context that a sample selects, before out-of-bounds tracking.
pub open spec fn chosen(subs: Seq<Record>, p: PenData, capture: u32, previous_winner: u32, motion: u32, down: u32, up: u32) -> Option<Record> {
    if !p.spec_in_range() {
        None
    } else {
        match first_match(subs, query_pred(Query::Captured { capture, p })) {
            Some(r) => Some(r),
            None => match last_max_order(subs, query_pred(Query::Motion { p, motion, down, up })) {
                Some(r) => Some(r),
                None => first_match(subs, query_pred(Query::Stay { winner: previous_winner, p })),
            },
        }
    }
}

/// Out-of-bounds tracking: when no context took the sample, tracking is on and the sample lies
/// outside every tracking context, it goes to the remembered tracking context, else the topmost.
pub open spec fn tracking_target(subs: Seq<Record>, p: PenData, out_of_bounds: u32, obt: u32) -> Option<Record> {
    if out_of_bounds == 0 || !p.spec_in_range() || first_match(subs, query_pred(Query::TrackingInside { p })) is Some {
        None
    } else {
        match first_match(subs, query_pred(Query::TrackingId { obt, p })) {
            Some(r) => Some(r),
            None => last_max_order(subs, query_pred(Query::Tracking { p })),
        }
    }
}

pub open spec fn in_range_bit(p: PenData) -> u32 {
    if p.spec_in_range() { 1 } else { 0 }
}

/// The sample after the cursor's pressure handling, flagged when hardware proximity changed.
pub open spec fn shaped(d: DataView, p: PenData) -> (PenData, u32) {
    let (p1, held) = spec_apply_pressure(p, d.cursors@[cursor_index(p)], d.pressure_held[cursor_index(p)]);
    if d.hardware_in_range != in_range_bit(p) {
        (PenData { flags: p1.flags | HARDWARE_PROXIMITY, ..p1 }, held)
    } else {
        (p1, held)
    }
}

/// Motion that counts for selection: everything after proximity entry or a focus change.
pub open spec fn selection_motion(previous: PenData, p: PenData, focus_changed: bool) -> u32 {
    if !previous.spec_in_range() || focus_changed {
        SUPPORTED & !0x7fu32
    } else {
        motion_bits(previous, p)
    }
}

/// The routing decision for a new sample on the session state `d` (after foreground
/// activation): the new state, the sample delivered and the winning context id (0 for none).
#[verifier::opaque]
pub open spec fn decide(d: DataView, p: PenData, owner: u32, sequence: u64, focus_changed: bool) -> (DataView, PenData, u32) {
    let index = cursor_index(p);
    let (p2, held) = shaped(d, p);
    let old_buttons = spec_logical_buttons(d.previous, d.cursors);
    let buttons = spec_logical_buttons(p2, d.cursors);
    let down = buttons & !old_buttons;
    let up = old_buttons & !buttons;
    let motion = selection_motion(d.previous, p2, focus_changed);
    let subs = clients(d.contexts);
    let first = chosen(subs, p2, d.capture, d.previous_winner, motion, down, up);
    let (winner_rec, p3) = match first {
        Some(r) => (Some(r), p2),
        None => match tracking_target(subs, p2, d.out_of_bounds, d.obt_context) {
            Some(r) => (Some(r), PenData { flags: p2.flags | OUT_OF_BOUNDS, ..p2 }),
            None => (None, p2),
        },
    };
    let obt_context = match winner_rec {
        Some(r) => if r.words@[8] & 0x380 != 0 { r.id } else { d.obt_context },
        None => d.obt_context,
    };
    let winner: u32 = match winner_rec {
        Some(r) => r.id,
        None => 0,
    };
    let capture = match first_match(subs, query_pred(Query::Id { id: winner })) {
        Some(r) => if buttons & r.words@[9] & r.words@[10] != 0 { winner } else { 0 },
        None => 0,
    };
    (
        DataView {
            hardware_in_range: in_range_bit(p),
            pressure_held: d.pressure_held.update(index, held),
            obt_context,
            capture,
            previous: p3,
            previous_winner: winner,
            route_sequence: sequence,
            routes: d.routes.update((sequence % 256) as int, Routed { sequence, owner, winner, sample: p3 }),
            ..d
        },
        p3,
        winner,
    )
}

/// Every process replays the first reader's decision: right after a sample is decided,
/// the cache holds it, so a later reader of the same sequence from the same feeder is given
/// the same sample and winner (and, by `route`'s contract, the state stays as it is).
pub proof fn lemma_route_replays(d: DataView, p: PenData, owner: u32, sequence: u64, focus_changed: bool)
    requires
        d.routes.len() == 256,
    ensures
        cache_hit(decide(d, p, owner, sequence, focus_changed).0, owner, sequence),
        decide(d, p, owner, sequence, focus_changed).0.routes[(sequence % 256) as int].sample == decide(
            d,
            p,
            owner,
            sequence,
            focus_changed,
        ).1,
        decide(d, p, owner, sequence, focus_changed).0.routes[(sequence % 256) as int].winner == decide(
            d,
            p,
            owner,
            sequence,
            focus_changed,
        ).2,
{
    reveal(decide);
}

/// A cached decision survives later decisions of the same feeder in other cache slots,
/// and each decision raises the feeder's latest routed sequence to its own: so a replay
/// finds the first reader's decision until the slot is reused, and a sequence at or below
/// the latest that is not cached is refused.
pub proof fn lemma_route_cache_kept(d: DataView, p: PenData, owner: u32, sequence: u64, focus_changed: bool, slot: int)
    requires
        d.routes.len() == 256,
        0 <= slot < 256,
        slot != (sequence % 256) as int,
    ensures
        decide(d, p, owner, sequence, focus_changed).0.routes[slot] == d.routes[slot],
        decide(d, p, owner, sequence, focus_changed).0.routes.len() == 256,
        decide(d, p, owner, sequence, focus_changed).0.route_sequence == sequence,
        decide(d, p, owner, sequence, focus_changed).0.route_owner == d.route_owner,
{
    reveal(decide);
}

/// What every route call of the same feeder keeps: a decision cached for sequence `q`
/// stays cached, under the same feeder, through a routed call for a sequence `q2` in
/// another cache slot (whatever foreground change comes with it); a cached or refused call
/// leaves the state as it is by `route`'s contract. So by induction over the calls in
/// between, every later reader of `q` is given the first reader's decision until its slot
/// is reused, and each routed call raises the latest sequence to its own.
pub proof fn lemma_replay_survives_route(
    d: DataView,
    owner: u32,
    q: u64,
    q2: u64,
    p: PenData,
    pid: u32,
    d2: DataView,
    changed: bool,
    notices: Seq<Notice>,
)
    requires
        d.routes.len() == 256,
        d.route_owner == owner,
        cache_hit(d, owner, q),
        q2 % 256 != q % 256,
        foreground_step(owned_by(d, owner), pid, d2, changed, notices),
    ensures
        cache_hit(decide(d2, p, owner, q2, changed).0, owner, q),
        decide(d2, p, owner, q2, changed).0.routes[(q % 256) as int] == d.routes[(q % 256) as int],
        decide(d2, p, owner, q2, changed).0.routes.len() == 256,
        decide(d2, p, owner, q2, changed).0.route_owner == owner,
        decide(d2, p, owner, q2, changed).0.route_sequence == q2,
{
    reveal(foreground_step);
    reveal(decide);
    assert(owned_by(d, owner) == d);
    assert(d2.routes == d.routes && d2.route_owner == d.route_owner);
}

/// Routing state restarted for a new feeder (owner): capture, history and cache cleared.
pub open spec fn restarted(d: DataView, owner: u32) -> DataView {
    DataView {
        route_owner: owner,
        route_sequence: 0,
        capture: 0,
        previous: PenData { time: 0, x: 0, y: 0, pressure: 0, flags: 0, tilt_x: 0, tilt_y: 0, raw: 0 },
        previous_winner: 0,
        pressure_held: seq![0u32, 0u32],
        hardware_in_range: 0,
        obt_context: 0,
        routes: d.routes.map_values(|r: Routed| Routed { sequence: 0, owner: 0, ..r }),
        ..d
    }
}

pub open spec fn cache_hit(d: DataView, owner: u32, sequence: u64) -> bool {
    let cached = d.routes[(sequence % 256) as int];
    cached.sequence == sequence && cached.owner == owner
}

/// The state after an owner check: restarted when a different feeder publishes.
pub open spec fn owned_by(d: DataView, owner: u32) -> DataView {
    if d.route_owner != owner { restarted(d, owner) } else { d }
}

impl Data {
    /// Route one published sample: the first reader decides which context (if any) receives
    /// it and caches the decision; later readers of the same sequence replay that decision.
    /// `foreground_pid` is the process owning the foreground window. Returns the routed
    /// sample with the winning context id, and the messages to post.
    pub fn route(&mut self, p: PenData, owner: u32, sequence: u64, foreground_pid: u32) -> (r: (
        Option<(PenData, usize)>,
        Vec<Notice>,
    ))
        requires
            old(self).wf(),
            old(self).order <= i64::MAX - CONTEXTS,
        ensures
            final(self).wf(),
            cache_hit(old(self)@, owner, sequence) ==> {
                let cached = old(self)@.routes[(sequence % 256) as int];
                &&& final(self)@ == old(self)@
                &&& r.0 == Some((cached.sample, cached.winner as usize))
                &&& r.1@.len() == 0
            },
            !cache_hit(old(self)@, owner, sequence) && sequence <= owned_by(old(self)@, owner).route_sequence ==> {
                &&& final(self)@ == owned_by(old(self)@, owner)
                &&& r.0 is None
                &&& r.1@.len() == 0
            },
            !cache_hit(old(self)@, owner, sequence) && sequence > owned_by(old(self)@, owner).route_sequence ==>
                exists|d2: DataView, changed: bool| {
                    &&& #[trigger] foreground_step(owned_by(old(self)@, owner), foreground_pid, d2, changed, r.1@)
                    &&& final(self)@ == decide(d2, p, owner, sequence, changed).0
                    &&& r.0 == Some((decide(d2, p, owner, sequence, changed).1, decide(d2, p, owner, sequence, changed).2 as usize))
                },
            old(self).order <= final(self).order <= old(self).order + CONTEXTS,
    {
        let slot = (sequence % 256) as usize;
        let cached = self.routes[slot];
        if cached.sequence == sequence && cached.owner == owner {
            return (Some((cached.sample, cached.winner as usize)), Vec::new());
        }
        if self.route_owner != owner {
            self.restart(owner);
        }
        assert(self@ == owned_by(old(self)@, owner));
        if sequence <= self.route_sequence {
            return (None, Vec::new());
        }
        let ghost d1 = self@;
        let ghost order1 = self.order;
        let (focus_changed, notices) = self.foreground(foreground_pid);
        let ghost d2 = self@;
        let ghost order2 = self.order;
        let (p3, winner) = self.settle(p, owner, sequence, focus_changed);
        let result = (Some((p3, winner as usize)), notices);
        proof {
            assert(old(self).order == order1);
            assert(decide(d2, p, owner, sequence, focus_changed).0.order == d2.order) by {
                reveal(decide);
            }
            assert(self.order == order2);
            assert(foreground_step(owned_by(old(self)@, owner), foreground_pid, d2, focus_changed, result.1@));
            assert(self@ == decide(d2, p, owner, sequence, focus_changed).0);
            assert(result.0 == Some((decide(d2, p, owner, sequence, focus_changed).1,
                decide(d2, p, owner, sequence, focus_changed).2 as usize)));
        }
        result
    }

    /// Restart routing for a new feeder: capture, history and the decision cache are cleared.
    fn restart(&mut self, owner: u32)
        requires
            old(self).wf(),
        ensures
            final(self).wf(),
            final(self)@ == restarted(old(self)@, owner),
    {
            self.route_owner = owner;
            self.route_sequence = 0;
            self.capture = 0;
            self.previous = PenData { time: 0, x: 0, y: 0, pressure: 0, flags: 0, tilt_x: 0, tilt_y: 0, raw: 0 };
            self.previous_winner = 0;
            self.pressure_held = [0, 0];
            self.hardware_in_range = 0;
            self.obt_context = 0;
            let ghost before = self.routes@;
            let mut k: usize = 0;
            while k < ROUTES
                invariant
                    k <= ROUTES,
                    self.routes@.len() == ROUTES,
                    before.len() == ROUTES,
                    forall|j: int| 0 <= j < k ==> #[trigger] self.routes@[j] == (Routed { sequence: 0, owner: 0, ..before[j] }),
                    forall|j: int| k <= j < ROUTES ==> #[trigger] self.routes@[j] == before[j],
                    self.contexts@.len() == CONTEXTS,
                    self.managers@.len() == super::session::MANAGERS,
                    self.cursors@[0].wf(),
                    self.cursors@[1].wf(),
                    self@ == (DataView { routes: self.routes@, ..restarted(old(self)@, owner) }),
                decreases ROUTES - k,
            {
                self.routes[k].sequence = 0;
                self.routes[k].owner = 0;
                k += 1;
            }
            proof {
                assert(self.routes@ =~= before.map_values(|r: Routed| Routed { sequence: 0, owner: 0, ..r }));
                assert(self.pressure_held@ =~= seq![0u32, 0u32]);
            }
    }

    /// Decide the winner of a new sample once ownership, sequence and focus are settled.
    fn settle(&mut self, p: PenData, owner: u32, sequence: u64, focus_changed: bool) -> (r: (PenData, u32))
        requires
            old(self).wf(),
        ensures
            final(self).wf(),
            final(self)@ == decide(old(self)@, p, owner, sequence, focus_changed).0,
            r.0 == decide(old(self)@, p, owner, sequence, focus_changed).1,
            r.1 == decide(old(self)@, p, owner, sequence, focus_changed).2,
    {
        let ghost d2 = self@;
        let slot = (sequence % 256) as usize;
        reveal(decide);
        let index: usize = if p.eraser() { 1 } else { 0 };
        let in_range: u32 = if p.in_range() { 1 } else { 0 };
        let hardware_changed = self.hardware_in_range != in_range;
        self.hardware_in_range = in_range;
        let mut held = self.pressure_held[index];
        let p1 = apply_pressure(p, &self.cursors[index], &mut held);
        self.pressure_held[index] = held;
        let p2 = if hardware_changed { PenData { flags: p1.flags | HARDWARE_PROXIMITY, ..p1 } } else { p1 };
        let previous = self.previous;
        let old_buttons = logical_buttons(previous, &self.cursors);
        let buttons = logical_buttons(p2, &self.cursors);
        let down = buttons & !old_buttons;
        let up = old_buttons & !buttons;
        let motion: u32 = if !previous.in_range() || focus_changed {
            SUPPORTED & !0x7fu32
        } else {
            (if previous.x != p2.x { 0x80u32 } else { 0 }) | (if previous.y != p2.y { 0x100u32 } else { 0 }) | (if previous.pressure
                != p2.pressure {
                0x400u32
            } else {
                0
            }) | (if previous.tilt_x != p2.tilt_x || previous.tilt_y != p2.tilt_y { 0x1000u32 } else { 0 })
        };
        let first = if !p2.in_range() {
            None
        } else {
            match first_where(&self.contexts, &Query::Captured { capture: self.capture, p: p2 }) {
                Some(r) => Some(r),
                None => match top_where(&self.contexts, &Query::Motion { p: p2, motion, down, up }) {
                    Some(r) => Some(r),
                    None => first_where(&self.contexts, &Query::Stay { winner: self.previous_winner, p: p2 }),
                },
            }
        };
        let mut p3 = p2;
        let winner_rec = match first {
            Some(r) => Some(r),
            None => {
                if self.out_of_bounds == 0 || !p2.in_range()
                    || first_where(&self.contexts, &Query::TrackingInside { p: p2 }).is_some() {
                    None
                } else {
                    let t = match first_where(&self.contexts, &Query::TrackingId { obt: self.obt_context, p: p2 }) {
                        Some(r) => Some(r),
                        None => top_where(&self.contexts, &Query::Tracking { p: p2 }),
                    };
                    if t.is_some() {
                        p3 = PenData { flags: p2.flags | OUT_OF_BOUNDS, ..p2 };
                    }
                    t
                }
            },
        };
        if let Some(r) = winner_rec {
            if r.words[8] & 0x380 != 0 {
                self.obt_context = r.id;
            }
        }
        let winner: u32 = match winner_rec {
            Some(r) => r.id,
            None => 0,
        };
        self.capture = match first_where(&self.contexts, &Query::Id { id: winner }) {
            Some(r) => if buttons & r.words[9] & r.words[10] != 0 { winner } else { 0 },
            None => 0,
        };
        self.previous = p3;
        self.previous_winner = winner;
        self.route_sequence = sequence;
        self.routes.set(slot, Routed { sequence, owner, winner, sample: p3 });
        proof {
            let (v, q, w) = decide(d2, p, owner, sequence, focus_changed);
            assert(self.pressure_held@ =~= d2.pressure_held.update(index as int, held));
            assert(self.routes@ =~= d2.routes.update((sequence % 256) as int, Routed { sequence, owner, winner, sample: p3 }));
            assert(self@ == v);
        }
        (p3, winner)
    }
}

} // verus!
