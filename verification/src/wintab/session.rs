//! Session-wide WinTab metadata shared by every process: logical contexts,
//! managers, cursor preferences and the routing of pen samples to one context.
use vstd::prelude::*;
use super::pen::PenData;
use super::words::{Words, spec_rectangles_overlap, rectangles_overlap, spec_notification_allowed, notification_allowed};

verus! {

/// Context slots, of which the first two hold the digitizing and system defaults.
pub const CONTEXTS: usize = 66;
/// Manager slots.
pub const MANAGERS: usize = 16;
/// Slots of the routing-decision cache.
pub const ROUTES: usize = 256;

/// One logical context as published to every process.
#[derive(Clone, Copy)]
pub struct Record {
    pub window: u64,
    pub order: i64,
    pub id: u32,
    pub pid: u32,
    pub revision: u32,
    pub enabled: u32,
    pub name: [u16; 40],
    pub words: Words,
    pub queue_capacity: u32,
    pub cursor_mask: [u8; 16],
}

/// One open manager handle.
#[derive(Clone, Copy)]
pub struct Manager {
    pub window: u64,
    pub id: u32,
    pub pid: u32,
    pub base: u32,
    pub reserved: u32,
}

/// Per-cursor (pen, eraser) preferences set through the manager API.
#[derive(Clone, Copy)]
pub struct Cursor {
    pub enabled: u32,
    pub button_map: [u8; 32],
    pub system_map: [u8; 32],
    pub marks: [u32; 2],
    pub response: [u32; 256],
    pub response_custom: u32,
}

/// One cached routing decision, replayed to every process reading the same sample.
#[derive(Clone, Copy)]
pub struct Routed {
    pub sequence: u64,
    pub owner: u32,
    pub winner: u32,
    pub sample: PenData,
}

/// A window message to post once the session is unlocked: `base + offset` to `window`.
#[derive(Clone, Copy, Debug, PartialEq, Eq)]
pub struct Notice {
    pub window: u64,
    pub base: u32,
    pub offset: u32,
    pub wparam: usize,
    pub lparam: isize,
}

/// The session state.
pub struct Data {
    pub next: u32,
    pub order: i64,
    pub revision: u32,
    pub contexts: Vec<Record>,
    pub managers: Vec<Manager>,
    pub cursors: [Cursor; 2],
    pub route_sequence: u64,
    pub route_owner: u32,
    pub capture: u32,
    pub previous_winner: u32,
    pub pressure_held: [u32; 2],
    pub previous: PenData,
    pub routes: Vec<Routed>,
    pub hardware_in_range: u32,
    pub out_of_bounds: u32,
    pub obt_context: u32,
}

/// The session state as mathematical values.
pub struct DataView {
    pub next: u32,
    pub order: i64,
    pub revision: u32,
    pub contexts: Seq<Record>,
    pub managers: Seq<Manager>,
    pub cursors: [Cursor; 2],
    pub route_sequence: u64,
    pub route_owner: u32,
    pub capture: u32,
    pub previous_winner: u32,
    pub pressure_held: Seq<u32>,
    pub previous: PenData,
    pub routes: Seq<Routed>,
    pub hardware_in_range: u32,
    pub out_of_bounds: u32,
    pub obt_context: u32,
}

impl View for Data {
    type V = DataView;

    open spec fn view(&self) -> DataView {
        DataView {
            next: self.next,
            order: self.order,
            revision: self.revision,
            contexts: self.contexts@,
            managers: self.managers@,
            cursors: self.cursors,
            route_sequence: self.route_sequence,
            route_owner: self.route_owner,
            capture: self.capture,
            previous_winner: self.previous_winner,
            pressure_held: self.pressure_held@,
            previous: self.previous,
            routes: self.routes@,
            hardware_in_range: self.hardware_in_range,
            out_of_bounds: self.out_of_bounds,
            obt_context: self.obt_context,
        }
    }
}

impl Cursor {
    /// Logical button numbers fit a 32-bit button mask.
    pub open spec fn wf(self) -> bool {
        forall|i: int| 0 <= i < 32 ==> #[trigger] self.button_map@[i] < 32
    }
}

impl Data {
    pub open spec fn wf(&self) -> bool {
        &&& self.contexts@.len() == CONTEXTS
        &&& self.managers@.len() == MANAGERS
        &&& self.routes@.len() == ROUTES
        &&& self.cursors@[0].wf()
        &&& self.cursors@[1].wf()
    }
}

pub open spec fn live(r: Record) -> bool {
    r.id != 0
}

/// Context `j` is above context `i` in the overlap order; ties keep the slot order.
pub open spec fn above(c: Seq<Record>, j: int, i: int) -> bool {
    c[j].order > c[i].order || (c[j].order == c[i].order && j < i)
}

/// Context `j` precedes context `i` in ascending overlap order; ties keep the slot order.
pub open spec fn below(c: Seq<Record>, j: int, i: int) -> bool {
    c[j].order < c[i].order || (c[j].order == c[i].order && j < i)
}

pub open spec fn ranks_before(c: Seq<Record>, descending: bool, j: int, i: int) -> bool {
    if descending { above(c, j, i) } else { below(c, j, i) }
}

/// `ord` lists exactly the slots of `members`, strictly ordered by `ranks_before`.
pub open spec fn sorted_members(c: Seq<Record>, descending: bool, members: Seq<usize>, ord: Seq<usize>) -> bool {
    &&& ord.len() == members.len()
    &&& forall|e: usize| ord.contains(e) <==> members.contains(e)
    &&& forall|x: int, y: int| 0 <= x < y < ord.len() ==>
        ranks_before(c, descending, #[trigger] ord[x] as int, #[trigger] ord[y] as int)
}

/// Sort context slots by overlap order (a stable sort of slots given in increasing order).
pub(crate) fn sort_slots(c: &Vec<Record>, members: &Vec<usize>, descending: bool) -> (ord: Vec<usize>)
    requires
        forall|x: int| 0 <= x < members@.len() ==> #[trigger] members@[x] < c@.len(),
        forall|x: int, y: int| 0 <= x < y < members@.len() ==> #[trigger] members@[x] < #[trigger] members@[y],
    ensures
        sorted_members(c@, descending, members@, ord@),
        forall|x: int| 0 <= x < ord@.len() ==> #[trigger] ord@[x] < c@.len(),
{
    let mut ord: Vec<usize> = Vec::new();
    let mut k: usize = 0;
    while k < members.len()
        invariant
            k <= members@.len(),
            forall|x: int| 0 <= x < members@.len() ==> #[trigger] members@[x] < c@.len(),
            forall|x: int, y: int| 0 <= x < y < members@.len() ==> #[trigger] members@[x] < #[trigger] members@[y],
            sorted_members(c@, descending, members@.take(k as int), ord@),
            forall|x: int| 0 <= x < ord@.len() ==> #[trigger] ord@[x] < c@.len(),
        decreases members@.len() - k,
    {
        let e = members[k];
        let ghost taken = members@.take(k as int);
        assert forall|x: int| 0 <= x < ord@.len() implies #[trigger] ord@[x] < e by {
            assert(ord@.contains(ord@[x]));
            assert(taken.contains(ord@[x]));
            let j = choose|j: int| 0 <= j < taken.len() && taken[j] == ord@[x];
            assert(members@[j] < members@[k as int]);
        }
        let mut pos: usize = 0;
        while pos < ord.len()
            invariant
                pos <= ord@.len(),
                e < c@.len(),
                forall|x: int| 0 <= x < ord@.len() ==> #[trigger] ord@[x] < c@.len(),
                forall|x: int| 0 <= x < ord@.len() ==> #[trigger] ord@[x] < e,
                forall|x: int| 0 <= x < pos ==> ranks_before(c@, descending, #[trigger] ord@[x] as int, e as int),
            ensures
                pos == ord@.len() || ranks_before(c@, descending, e as int, ord@[pos as int] as int),
                forall|x: int| 0 <= x < pos ==> ranks_before(c@, descending, #[trigger] ord@[x] as int, e as int),
            decreases ord@.len() - pos,
        {
            let o = ord[pos];
            let ahead = if descending {
                c[e].order > c[o].order || (c[e].order == c[o].order && e < o)
            } else {
                c[e].order < c[o].order || (c[e].order == c[o].order && e < o)
            };
            if ahead {
                break;
            }
            pos += 1;
        }
        let ghost old_ord = ord@;
        ord.insert(pos, e);
        proof {
            old_ord.insert_ensures(pos as int, e);
            assert(ord@ == old_ord.insert(pos as int, e));
            let next = members@.take(k as int + 1);
            assert(next =~= taken.push(e));
            assert forall|v: usize| ord@.contains(v) <==> next.contains(v) by {
                if ord@.contains(v) {
                    let i = choose|i: int| 0 <= i < ord@.len() && ord@[i] == v;
                    if i < pos {
                        assert(old_ord.contains(v));
                    } else if i > pos {
                        assert(old_ord[i - 1] == v);
                        assert(old_ord.contains(v));
                    }
                    if v != e {
                        assert(taken.contains(v));
                        let j = choose|j: int| 0 <= j < taken.len() && taken[j] == v;
                        assert(next[j] == v);
                    } else {
                        assert(next[k as int] == v);
                    }
                }
                if next.contains(v) {
                    let j = choose|j: int| 0 <= j < next.len() && next[j] == v;
                    if j < k {
                        assert(taken[j] == v);
                        assert(taken.contains(v));
                        assert(old_ord.contains(v));
                        let i = choose|i: int| 0 <= i < old_ord.len() && old_ord[i] == v;
                        if i < pos {
                            assert(ord@[i] == v);
                        } else {
                            assert(ord@[i + 1] == v);
                        }
                    } else {
                        assert(ord@[pos as int] == v);
                    }
                }
            }
            assert forall|x: int, y: int| 0 <= x < y < ord@.len() implies
                ranks_before(c@, descending, #[trigger] ord@[x] as int, #[trigger] ord@[y] as int) by {
                if y < pos {
                    assert(old_ord[x] == ord@[x] && old_ord[y] == ord@[y]);
                } else if y == pos {
                    assert(old_ord[x] == ord@[x]);
                } else if x < pos {
                    assert(old_ord[x] == ord@[x] && old_ord[y - 1] == ord@[y]);
                    assert(ranks_before(c@, descending, old_ord[x] as int, e as int));
                    assert(ranks_before(c@, descending, e as int, old_ord[pos as int] as int));
                    if pos < y - 1 {
                        assert(ranks_before(c@, descending, old_ord[pos as int] as int, old_ord[y - 1] as int));
                    }
                } else if x == pos {
                    assert(old_ord[y - 1] == ord@[y]);
                    if pos < y - 1 {
                        assert(ranks_before(c@, descending, old_ord[pos as int] as int, old_ord[y - 1] as int));
                    }
                } else {
                    assert(old_ord[x - 1] == ord@[x] && old_ord[y - 1] == ord@[y]);
                }
            }
        }
        k += 1;
    }
    assert(members@.take(members@.len() as int) =~= members@);
    ord
}


/// Slots in `[2, n)` that hold an open context, in slot order.
pub open spec fn live_slots(c: Seq<Record>, n: int) -> Seq<usize>
    decreases n,
{
    if n <= 2 {
        seq![]
    } else if live(c[n - 1]) {
        live_slots(c, n - 1).push((n - 1) as usize)
    } else {
        live_slots(c, n - 1)
    }
}

pub(crate) proof fn lemma_live_slots(c: Seq<Record>, n: int)
    requires
        2 <= n <= c.len() <= CONTEXTS,
    ensures
        forall|x: int| 0 <= x < live_slots(c, n).len() ==>
            2 <= #[trigger] live_slots(c, n)[x] < n && live(c[live_slots(c, n)[x] as int]),
        forall|x: int, y: int| 0 <= x < y < live_slots(c, n).len() ==>
            #[trigger] live_slots(c, n)[x] < #[trigger] live_slots(c, n)[y],
        forall|i: int| 2 <= i < n && live(c[i]) ==> live_slots(c, n).contains(i as usize),
    decreases n,
{
    if n > 2 {
        lemma_live_slots(c, n - 1);
        let prev = live_slots(c, n - 1);
        if live(c[n - 1]) {
            assert(live_slots(c, n) == prev.push((n - 1) as usize));
            let cur = live_slots(c, n);
            assert forall|x: int| 0 <= x < cur.len() implies
                2 <= #[trigger] cur[x] < n && live(c[cur[x] as int]) by {
                if x < prev.len() {
                    assert(cur[x] == prev[x]);
                }
            }
            assert forall|x: int, y: int| 0 <= x < y < cur.len() implies
                #[trigger] cur[x] < #[trigger] cur[y] by {
                assert(cur[x] == prev[x]);
                if y < prev.len() {
                    assert(cur[y] == prev[y]);
                }
            }
            assert forall|i: int| 2 <= i < n && live(c[i]) implies live_slots(c, n).contains(i as usize) by {
                if i < n - 1 {
                    let x = choose|x: int| 0 <= x < prev.len() && prev[x] == i as usize;
                    assert(live_slots(c, n)[x] == i as usize);
                } else {
                    assert(live_slots(c, n)[prev.len() as int] == i as usize);
                }
            }
        }
    }
}

/// Collect the slots of open contexts, in slot order.
pub(crate) fn collect_live(c: &Vec<Record>) -> (r: Vec<usize>)
    requires
        c@.len() == CONTEXTS,
    ensures
        r@ == live_slots(c@, CONTEXTS as int),
{
    let mut r: Vec<usize> = Vec::new();
    let mut i: usize = 2;
    while i < CONTEXTS
        invariant
            c@.len() == CONTEXTS,
            2 <= i <= CONTEXTS,
            r@ == live_slots(c@, i as int),
        decreases CONTEXTS - i,
    {
        if c[i].id != 0 {
            r.push(i);
        }
        i += 1;
    }
    r
}

/// The status a context reports: 1 disabled, 2 obscured by an enabled context above it, 4 on top.
pub open spec fn spec_status(c: Seq<Record>, i: int) -> u32 {
    if c[i].enabled == 0 {
        1
    } else if exists|j: int|
        2 <= j < CONTEXTS && live(#[trigger] c[j]) && c[j].enabled != 0 && above(c, j, i)
            && spec_rectangles_overlap(c[j].words@, c[i].words@) {
        2
    } else {
        4
    }
}

/// Messages for the managers that listen: every open manager with a window.
pub open spec fn manager_notices(ms: Seq<Manager>, offset: u32, wp: usize, lp: isize) -> Seq<Notice>
    decreases ms.len(),
{
    if ms.len() == 0 {
        seq![]
    } else {
        let m = ms.last();
        manager_notices(ms.drop_last(), offset, wp, lp) + if m.id != 0 && m.window != 0 {
            seq![Notice { window: m.window, base: m.base, offset, wparam: wp, lparam: lp }]
        } else {
            seq![]
        }
    }
}

/// The messages one context event produces: to the owning window when it asked for
/// this kind, and to every listening manager for open, close, change, status and
/// information events.
pub open spec fn record_notices(r: Record, ms: Seq<Manager>, offset: u32, wp: usize, lp: isize) -> Seq<Notice> {
    (if r.window != 0 && spec_notification_allowed(r.words@[0], offset) {
        seq![Notice { window: r.window, base: r.words@[3], offset, wparam: wp, lparam: lp }]
    } else {
        seq![]
    }) + if 1 <= offset <= 4 || offset == 6 {
        manager_notices(ms, offset, wp, lp)
    } else {
        seq![]
    }
}

pub fn push_manager_notices(out: &mut Vec<Notice>, ms: &Vec<Manager>, offset: u32, wp: usize, lp: isize)
    ensures
        final(out)@ == old(out)@ + manager_notices(ms@, offset, wp, lp),
{
    let mut i: usize = 0;
    while i < ms.len()
        invariant
            i <= ms@.len(),
            out@ == old(out)@ + manager_notices(ms@.take(i as int), offset, wp, lp),
        decreases ms@.len() - i,
    {
        let m = ms[i];
        proof {
            assert(ms@.take(i as int + 1).drop_last() =~= ms@.take(i as int));
            assert(ms@.take(i as int + 1).last() == m);
        }
        if m.id != 0 && m.window != 0 {
            out.push(Notice { window: m.window, base: m.base, offset, wparam: wp, lparam: lp });
        }
        proof {
            assert(out@ =~= old(out)@ + manager_notices(ms@.take(i as int + 1), offset, wp, lp));
        }
        i += 1;
    }
    assert(ms@.take(ms@.len() as int) =~= ms@);
}

/// Append the messages of one context event.
pub fn notify(out: &mut Vec<Notice>, r: &Record, ms: &Vec<Manager>, offset: u32, wp: usize, lp: isize)
    ensures
        final(out)@ == old(out)@ + record_notices(*r, ms@, offset, wp, lp),
{
    let ghost start = out@;
    if r.window != 0 && notification_allowed(r.words[0], offset) {
        out.push(Notice { window: r.window, base: r.words[3], offset, wparam: wp, lparam: lp });
    }
    let ghost mid = out@;
    if (1 <= offset && offset <= 4) || offset == 6 {
        push_manager_notices(out, ms, offset, wp, lp);
    }
    assert(out@ =~= start + record_notices(*r, ms@, offset, wp, lp));
}

/// A record carrying a new status word.
pub open spec fn with_status(r: Record, status: u32) -> Record {
    Record { words: vstd::array::spec_array_update(r.words, 1, status), ..r }
}

/// Status messages for the contexts whose status changed, in overlap order from the top.
pub open spec fn status_notices(old: Seq<Record>, ms: Seq<Manager>, ord: Seq<usize>) -> Seq<Notice>
    decreases ord.len(),
{
    if ord.len() == 0 {
        seq![]
    } else {
        let i = ord.last() as int;
        let st = spec_status(old, i);
        status_notices(old, ms, ord.drop_last()) + if old[i].words@[1] != st {
            record_notices(with_status(old[i], st), ms, 4, old[i].id as usize, st as isize)
        } else {
            seq![]
        }
    }
}

/// The contexts after recomputing every open context's status.
pub open spec fn statused(old: Seq<Record>) -> Seq<Record> {
    Seq::new(
        old.len(),
        |i: int| if 2 <= i && live(old[i]) { with_status(old[i], spec_status(old, i)) } else { old[i] },
    )
}

/// The status of the context in `ord[pos]`, where `ord` lists the open contexts from the top.
fn status_at(c: &Vec<Record>, ord: &Vec<usize>, pos: usize) -> (st: u32)
    requires
        c@.len() == CONTEXTS,
        pos < ord@.len(),
        sorted_members(c@, true, live_slots(c@, CONTEXTS as int), ord@),
        forall|x: int| 0 <= x < live_slots(c@, CONTEXTS as int).len() ==>
            2 <= #[trigger] live_slots(c@, CONTEXTS as int)[x] < CONTEXTS
                && live(c@[live_slots(c@, CONTEXTS as int)[x] as int]),
        forall|i: int| 2 <= i < CONTEXTS && live(c@[i]) ==> live_slots(c@, CONTEXTS as int).contains(i as usize),
    ensures
        st == spec_status(c@, ord@[pos as int] as int),
{
    let ghost members = live_slots(c@, CONTEXTS as int);
    let i = ord[pos];
    proof {
        assert(ord@.contains(i));
        assert(members.contains(i));
    }
    if c[i].enabled == 0 {
        return 1;
    }
    let mut found = false;
    let mut q: usize = 0;
    while q < pos
        invariant
            q <= pos < ord@.len(),
            i == ord@[pos as int],
            i < CONTEXTS,
            c@.len() == CONTEXTS,
            sorted_members(c@, true, members, ord@),
            forall|x: int| 0 <= x < members.len() ==> 2 <= #[trigger] members[x] < CONTEXTS && live(c@[members[x] as int]),
            found <==> exists|x: int| 0 <= x < q && {
                let j = #[trigger] ord@[x] as int;
                c@[j].enabled != 0 && spec_rectangles_overlap(c@[j].words@, c@[i as int].words@)
            },
        decreases pos - q,
    {
        let j = ord[q];
        proof {
            assert(ord@.contains(j));
            assert(members.contains(j));
        }
        if c[j].enabled != 0 && rectangles_overlap(&c[j].words, &c[i].words) {
            found = true;
        }
        q += 1;
    }
    proof {
        if found {
            let x = choose|x: int| 0 <= x < pos && {
                let j = #[trigger] ord@[x] as int;
                c@[j].enabled != 0 && spec_rectangles_overlap(c@[j].words@, c@[i as int].words@)
            };
            let j = ord@[x] as int;
            assert(ord@.contains(ord@[x]));
            assert(members.contains(ord@[x]));
            assert(ranks_before(c@, true, ord@[x] as int, ord@[pos as int] as int));
            assert(live(c@[j]));
            assert(2 <= j < CONTEXTS && live(c@[j]) && c@[j].enabled != 0 && above(c@, j, i as int)
                && spec_rectangles_overlap(c@[j].words@, c@[i as int].words@));
        } else {
            assert forall|j: int| 2 <= j < CONTEXTS && live(#[trigger] c@[j]) && c@[j].enabled != 0
                && above(c@, j, i as int) implies !spec_rectangles_overlap(c@[j].words@, c@[i as int].words@) by {
                assert(members.contains(j as usize));
                assert(ord@.contains(j as usize));
                let x = choose|x: int| 0 <= x < ord@.len() && ord@[x] == j as usize;
                if x > pos {
                    assert(ranks_before(c@, true, ord@[pos as int] as int, ord@[x] as int));
                } else if x < pos {
                    assert(ord@[x] as int == j);
                }
            }
        }
    }
    if found { 2 } else { 4 }
}

/// Recompute each open context's status from the overlap order, reporting every change.
pub fn update_status(contexts: &mut Vec<Record>, ms: &Vec<Manager>) -> (notices: Vec<Notice>)
    requires
        old(contexts)@.len() == CONTEXTS,
    ensures
        final(contexts)@ == statused(old(contexts)@),
        exists|ord: Seq<usize>|
            sorted_members(old(contexts)@, true, live_slots(old(contexts)@, CONTEXTS as int), ord)
                && notices@ == status_notices(old(contexts)@, ms@, ord),
{
    let ghost old_c = contexts@;
    let members = collect_live(contexts);
    proof {
        lemma_live_slots(old_c, CONTEXTS as int);
    }
    let ord = sort_slots(contexts, &members, true);
    proof {
        assert forall|x: int, y: int| 0 <= x < ord@.len() && 0 <= y < ord@.len() && x != y implies
            ord@[x] != ord@[y] by {
            if x < y {
                assert(ranks_before(old_c, true, ord@[x] as int, ord@[y] as int));
            } else {
                assert(ranks_before(old_c, true, ord@[y] as int, ord@[x] as int));
            }
        }
    }
    let mut statuses: Vec<u32> = Vec::new();
    let mut pos: usize = 0;
    while pos < ord.len()
        invariant
            pos <= ord@.len(),
            contexts@ == old_c,
            old_c.len() == CONTEXTS,
            sorted_members(old_c, true, members@, ord@),
            members@ == live_slots(old_c, CONTEXTS as int),
            forall|x: int| 0 <= x < members@.len() ==>
                2 <= #[trigger] members@[x] < CONTEXTS && live(old_c[members@[x] as int]),
            forall|i: int| 2 <= i < CONTEXTS && live(old_c[i]) ==> members@.contains(i as usize),
            statuses@.len() == pos,
            forall|x: int| 0 <= x < pos ==> #[trigger] statuses@[x] == spec_status(old_c, ord@[x] as int),
        decreases ord@.len() - pos,
    {
        let st = status_at(contexts, &ord, pos);
        statuses.push(st);
        pos += 1;
    }
    let mut notices: Vec<Notice> = Vec::new();
    pos = 0;
    while pos < ord.len()
        invariant
            pos <= ord@.len(),
            contexts@.len() == CONTEXTS,
            old_c.len() == CONTEXTS,
            sorted_members(old_c, true, members@, ord@),
            members@ == live_slots(old_c, CONTEXTS as int),
            forall|x: int| 0 <= x < members@.len() ==>
                2 <= #[trigger] members@[x] < CONTEXTS && live(old_c[members@[x] as int]),
            forall|x: int, y: int| 0 <= x < ord@.len() && 0 <= y < ord@.len() && x != y ==>
                #[trigger] ord@[x] != #[trigger] ord@[y],
            statuses@.len() == ord@.len(),
            forall|x: int| 0 <= x < ord@.len() ==> #[trigger] ord@[x] < CONTEXTS,
            forall|x: int| 0 <= x < ord@.len() ==> #[trigger] statuses@[x] == spec_status(old_c, ord@[x] as int),
            forall|x: int| 0 <= x < pos ==> #[trigger] contexts@[ord@[x] as int] == statused(old_c)[ord@[x] as int],
            forall|i: int| 0 <= i < CONTEXTS && !(exists|x: int| 0 <= x < pos && ord@[x] == i)
                ==> #[trigger] contexts@[i] == old_c[i],
            notices@ == status_notices(old_c, ms@, ord@.take(pos as int)),
        decreases ord@.len() - pos,
    {
        let i = ord[pos];
        let st = statuses[pos];
        proof {
            assert(ord@.contains(i));
            assert(members@.contains(i));
            let mi = choose|x: int| 0 <= x < members@.len() && members@[x] == i;
            assert(2 <= members@[mi] < CONTEXTS);
            assert(!(exists|x: int| 0 <= x < pos && ord@[x] == i));
        }
        let changed = contexts[i].words[1] != st;
        let ghost prev = contexts@;
        contexts[i].words[1] = st;
        proof {
            assert(contexts@[i as int] == with_status(old_c[i as int], st));
            assert(statused(old_c)[i as int] == with_status(old_c[i as int], st));
            assert forall|x: int| 0 <= x < pos + 1 implies
                #[trigger] contexts@[ord@[x] as int] == statused(old_c)[ord@[x] as int] by {
                if x < pos {
                    assert(ord@[x] != ord@[pos as int]);
                    assert(prev[ord@[x] as int] == statused(old_c)[ord@[x] as int]);
                    assert(contexts@[ord@[x] as int] == prev[ord@[x] as int]);
                }
            }
            assert forall|j: int| 0 <= j < CONTEXTS && !(exists|x: int| 0 <= x < pos + 1 && ord@[x] == j)
                implies #[trigger] contexts@[j] == old_c[j] by {
                assert(ord@[pos as int] != j);
                assert(prev[j] == old_c[j]);
            }
        }
        if changed {
            let r = contexts[i];
            notify(&mut notices, &r, ms, 4, r.id as usize, st as isize);
        }
        proof {
            assert(ord@.take(pos as int + 1).drop_last() =~= ord@.take(pos as int));
            assert(ord@.take(pos as int + 1).last() == i);
            assert(notices@ == status_notices(old_c, ms@, ord@.take(pos as int + 1)));
        }
        pos += 1;
    }
    proof {
        assert(ord@.take(ord@.len() as int) =~= ord@);
        assert forall|i: int| 0 <= i < CONTEXTS implies contexts@[i] == statused(old_c)[i] by {
            if exists|x: int| 0 <= x < ord@.len() && ord@[x] == i {
                let x = choose|x: int| 0 <= x < ord@.len() && ord@[x] == i;
                assert(contexts@[ord@[x] as int] == statused(old_c)[ord@[x] as int]);
            } else {
                if 2 <= i && live(old_c[i]) {
                    assert(members@.contains(i as usize));
                    assert(ord@.contains(i as usize));
                }
            }
        }
        assert(contexts@ =~= statused(old_c));
    }
    notices
}

/// The open, enabled contexts of process `pid` in slots `[2, n)`, in slot order.
pub open spec fn group_slots(c: Seq<Record>, pid: u32, n: int) -> Seq<usize>
    decreases n,
{
    if n <= 2 {
        seq![]
    } else if in_group(c[n - 1], pid) {
        group_slots(c, pid, n - 1).push((n - 1) as usize)
    } else {
        group_slots(c, pid, n - 1)
    }
}

pub open spec fn in_group(r: Record, pid: u32) -> bool {
    live(r) && r.pid == pid && r.enabled != 0
}

proof fn lemma_group_slots(c: Seq<Record>, pid: u32, n: int)
    requires
        2 <= n <= c.len() <= CONTEXTS,
    ensures
        forall|x: int| 0 <= x < group_slots(c, pid, n).len() ==>
            2 <= #[trigger] group_slots(c, pid, n)[x] < n && in_group(c[group_slots(c, pid, n)[x] as int], pid),
        forall|x: int, y: int| 0 <= x < y < group_slots(c, pid, n).len() ==>
            #[trigger] group_slots(c, pid, n)[x] < #[trigger] group_slots(c, pid, n)[y],
        forall|i: int| 2 <= i < n && in_group(c[i], pid) ==> group_slots(c, pid, n).contains(i as usize),
        group_slots(c, pid, n).len() <= n,
    decreases n,
{
    if n > 2 {
        lemma_group_slots(c, pid, n - 1);
        let prev = group_slots(c, pid, n - 1);
        if in_group(c[n - 1], pid) {
            let cur = group_slots(c, pid, n);
            assert(cur == prev.push((n - 1) as usize));
            assert forall|x: int| 0 <= x < cur.len() implies
                2 <= #[trigger] cur[x] < n && in_group(c[cur[x] as int], pid) by {
                if x < prev.len() {
                    assert(cur[x] == prev[x]);
                }
            }
            assert forall|x: int, y: int| 0 <= x < y < cur.len() implies #[trigger] cur[x] < #[trigger] cur[y] by {
                assert(cur[x] == prev[x]);
                if y < prev.len() {
                    assert(cur[y] == prev[y]);
                }
            }
            assert forall|i: int| 2 <= i < n && in_group(c[i], pid) implies cur.contains(i as usize) by {
                if i < n - 1 {
                    let x = choose|x: int| 0 <= x < prev.len() && prev[x] == i as usize;
                    assert(cur[x] == i as usize);
                } else {
                    assert(cur[prev.len() as int] == i as usize);
                }
            }
        }
    }
}

/// The last record with the greatest overlap order among those satisfying `pred`.
pub open spec fn last_max_order(s: Seq<Record>, pred: spec_fn(Record) -> bool) -> Option<Record>
    decreases s.len(),
{
    if s.len() == 0 {
        None
    } else {
        let rest = last_max_order(s.drop_last(), pred);
        if pred(s.last()) && (rest is None || rest->0.order <= s.last().order) {
            Some(s.last())
        } else {
            rest
        }
    }
}

/// The first record satisfying `pred`.
pub open spec fn first_match(s: Seq<Record>, pred: spec_fn(Record) -> bool) -> Option<Record>
    decreases s.len(),
{
    if s.len() == 0 {
        None
    } else if pred(s[0]) {
        Some(s[0])
    } else {
        first_match(s.drop_first(), pred)
    }
}

pub proof fn lemma_first_match_skip(s: Seq<Record>, pred: spec_fn(Record) -> bool, i: int)
    requires
        0 <= i <= s.len(),
        forall|k: int| 0 <= k < i ==> !pred(#[trigger] s[k]),
    ensures
        first_match(s, pred) == first_match(s.subrange(i, s.len() as int), pred),
    decreases i,
{
    if i > 0 {
        assert(s.drop_first().subrange(i - 1, s.drop_first().len() as int) =~= s.subrange(i, s.len() as int));
        assert(!pred(s[0]));
        assert forall|k: int| 0 <= k < i - 1 implies !pred(#[trigger] s.drop_first()[k]) by {
            assert(s.drop_first()[k] == s[k + 1]);
        }
        lemma_first_match_skip(s.drop_first(), pred, i - 1);
    } else {
        assert(s.subrange(0, s.len() as int) =~= s);
    }
}

/// The contexts after the slots in `ord` receive consecutive orders above `base`.
pub open spec fn reordered(c: Seq<Record>, ord: Seq<usize>, base: int) -> Seq<Record>
    decreases ord.len(),
{
    if ord.len() == 0 {
        c
    } else {
        let prev = reordered(c, ord.drop_last(), base);
        let i = ord.last() as int;
        prev.update(i, Record { order: (base + ord.len()) as i64, ..prev[i] })
    }
}

pub open spec fn enabled_live(r: Record) -> bool {
    live(r) && r.enabled != 0
}

/// Foreground activation applies: the process owns an open, enabled context but not the top one.
pub open spec fn foreground_applies(c: Seq<Record>, pid: u32) -> bool {
    &&& pid != 0
    &&& !(last_max_order(c.subrange(2, CONTEXTS as int), |r: Record| enabled_live(r)) matches Some(top)
        && top.pid == pid)
    &&& group_slots(c, pid, CONTEXTS as int).len() > 0
}

/// `b` is `a` after foreground activation of process `pid`, reporting `changed` and `notices`.
#[verifier::opaque]
pub open spec fn foreground_step(a: DataView, pid: u32, b: DataView, changed: bool, notices: Seq<Notice>) -> bool {
    &&& changed == foreground_applies(a.contexts, pid)
    &&& !changed ==> notices.len() == 0 && b == a
    &&& changed ==> exists|ord: Seq<usize>, top: Seq<usize>|
        #![trigger sorted_members(a.contexts, false, group_slots(a.contexts, pid, CONTEXTS as int), ord), status_notices(reordered(a.contexts, ord, a.order as int), a.managers, top)]
    {
        let raised = reordered(a.contexts, ord, a.order as int);
        &&& sorted_members(a.contexts, false, group_slots(a.contexts, pid, CONTEXTS as int), ord)
        &&& b == DataView {
            order: (a.order + ord.len()) as i64,
            contexts: statused(raised),
            capture: 0,
            previous_winner: 0,
            ..a
        }
        &&& sorted_members(raised, true, live_slots(raised, CONTEXTS as int), top)
        &&& notices == status_notices(raised, a.managers, top)
    }
}

impl Data {
    /// Recompute every open context's status, returning the messages to post.
    pub fn status(&mut self) -> (notices: Vec<Notice>)
        requires
            old(self).wf(),
        ensures
            final(self).wf(),
            final(self).contexts@ == statused(old(self).contexts@),
            exists|ord: Seq<usize>|
                sorted_members(old(self).contexts@, true, live_slots(old(self).contexts@, CONTEXTS as int), ord)
                    && notices@ == status_notices(old(self).contexts@, old(self).managers@, ord),
            final(self).managers@ == old(self).managers@,
            final(self).routes@ == old(self).routes@,
            final(self).cursors == old(self).cursors,
            final(self).order == old(self).order,
            final(self).capture == old(self).capture,
            final(self).previous_winner == old(self).previous_winner,
            final(self).next == old(self).next,
            final(self).revision == old(self).revision,
            final(self).route_sequence == old(self).route_sequence,
            final(self).route_owner == old(self).route_owner,
            final(self).pressure_held == old(self).pressure_held,
            final(self).previous == old(self).previous,
            final(self).hardware_in_range == old(self).hardware_in_range,
            final(self).out_of_bounds == old(self).out_of_bounds,
            final(self).obt_context == old(self).obt_context,
    {
        update_status(&mut self.contexts, &self.managers)
    }

    /// Raise the foreground process's contexts above every other client, keeping their
    /// internal overlap order, so a background WinTab client cannot starve the application
    /// the user is drawing in. Returns whether anything changed, and the messages to post.
    pub fn foreground(&mut self, pid: u32) -> (r: (bool, Vec<Notice>))
        requires
            old(self).wf(),
            old(self).order <= i64::MAX - CONTEXTS,
        ensures
            final(self).wf(),
            foreground_step(old(self)@, pid, final(self)@, r.0, r.1@),
            r.0 == foreground_applies(old(self).contexts@, pid),
            !r.0 ==> r.1@.len() == 0 && final(self).contexts@ == old(self).contexts@
                && final(self).order == old(self).order && final(self).capture == old(self).capture
                && final(self).previous_winner == old(self).previous_winner,
            r.0 ==> exists|ord: Seq<usize>, top: Seq<usize>|
                #![trigger sorted_members(old(self).contexts@, false, group_slots(old(self).contexts@, pid, CONTEXTS as int), ord), status_notices(reordered(old(self).contexts@, ord, old(self).order as int), old(self).managers@, top)]
            {
                let raised = reordered(old(self).contexts@, ord, old(self).order as int);
                &&& sorted_members(old(self).contexts@, false, group_slots(old(self).contexts@, pid, CONTEXTS as int), ord)
                &&& final(self).order == old(self).order + ord.len()
                &&& final(self).contexts@ == statused(raised)
                &&& sorted_members(raised, true, live_slots(raised, CONTEXTS as int), top)
                &&& r.1@ == status_notices(raised, old(self).managers@, top)
                &&& final(self).capture == 0
                &&& final(self).previous_winner == 0
            },
            final(self).managers@ == old(self).managers@,
            final(self).routes@ == old(self).routes@,
            final(self).cursors == old(self).cursors,
            final(self).next == old(self).next,
            final(self).revision == old(self).revision,
            final(self).route_sequence == old(self).route_sequence,
            final(self).route_owner == old(self).route_owner,
            final(self).pressure_held == old(self).pressure_held,
            final(self).previous == old(self).previous,
            final(self).hardware_in_range == old(self).hardware_in_range,
            final(self).out_of_bounds == old(self).out_of_bounds,
            final(self).obt_context == old(self).obt_context,
            old(self).order <= final(self).order <= old(self).order + CONTEXTS,
    {
        reveal(foreground_step);
        let ghost c0 = self.contexts@;
        let ghost sub = c0.subrange(2, CONTEXTS as int);
        let ghost pred = |r: Record| enabled_live(r);
        if pid == 0 {
            return (false, Vec::new());
        }
        // The topmost enabled context; ties go to the later slot.
        let mut top: Option<Record> = None;
        let mut i: usize = 2;
        while i < CONTEXTS
            invariant
                2 <= i <= CONTEXTS,
                self.contexts@ == c0,
                c0.len() == CONTEXTS,
                sub == c0.subrange(2, CONTEXTS as int),
                pred == |r: Record| enabled_live(r),
                top == last_max_order(sub.take(i - 2), pred),
            decreases CONTEXTS - i,
        {
            let r = self.contexts[i];
            proof {
                assert(sub.take(i - 1).drop_last() =~= sub.take(i - 2));
                assert(sub.take(i - 1).last() == r);
            }
            if r.id != 0 && r.enabled != 0 {
                match top {
                    None => {
                        top = Some(r);
                    },
                    Some(t) => {
                        if t.order <= r.order {
                            top = Some(r);
                        }
                    },
                }
            }
            i += 1;
        }
        proof {
            assert(sub.take(CONTEXTS - 2) =~= sub);
        }
        if let Some(t) = top {
            if t.pid == pid {
                return (false, Vec::new());
            }
        }
        let mut members: Vec<usize> = Vec::new();
        i = 2;
        while i < CONTEXTS
            invariant
                2 <= i <= CONTEXTS,
                self.contexts@ == c0,
                c0.len() == CONTEXTS,
                members@ == group_slots(c0, pid, i as int),
            decreases CONTEXTS - i,
        {
            let r = self.contexts[i];
            if r.id != 0 && r.pid == pid && r.enabled != 0 {
                members.push(i);
            }
            i += 1;
        }
        if members.len() == 0 {
            return (false, Vec::new());
        }
        proof {
            lemma_group_slots(c0, pid, CONTEXTS as int);
        }
        let ord = sort_slots(&self.contexts, &members, false);
        proof {
            assert forall|x: int, y: int| 0 <= x < ord@.len() && 0 <= y < ord@.len() && x != y implies
                ord@[x] != ord@[y] by {
                if x < y {
                    assert(ranks_before(c0, false, ord@[x] as int, ord@[y] as int));
                } else {
                    assert(ranks_before(c0, false, ord@[y] as int, ord@[x] as int));
                }
            }
        }
        let ghost base = self.order as int;
        let mut k: usize = 0;
        while k < ord.len()
            invariant
                k <= ord@.len() <= CONTEXTS,
                self.contexts@.len() == CONTEXTS,
                self.managers@.len() == MANAGERS,
                self.routes@.len() == ROUTES,
                self.cursors@[0].wf(),
                self.cursors@[1].wf(),
                base <= i64::MAX - CONTEXTS,
                self.order == base + k,
                self.managers@ == old(self).managers@,
                self.routes@ == old(self).routes@,
                self.cursors == old(self).cursors,
                self.next == old(self).next,
                self.revision == old(self).revision,
                self.route_sequence == old(self).route_sequence,
                self.route_owner == old(self).route_owner,
                self.pressure_held == old(self).pressure_held,
                self.previous == old(self).previous,
                self.hardware_in_range == old(self).hardware_in_range,
                self.out_of_bounds == old(self).out_of_bounds,
                self.obt_context == old(self).obt_context,
                forall|x: int| 0 <= x < ord@.len() ==> #[trigger] ord@[x] < CONTEXTS,
                self.contexts@ == reordered(c0, ord@.take(k as int), base),
            decreases ord@.len() - k,
        {
            let slot = ord[k];
            self.order = self.order + 1;
            self.contexts[slot].order = self.order;
            proof {
                assert(ord@.take(k as int + 1).drop_last() =~= ord@.take(k as int));
                assert(ord@.take(k as int + 1).last() == slot);
                assert(self.contexts@ =~= reordered(c0, ord@.take(k as int + 1), base));
            }
            k += 1;
        }
        proof {
            assert(ord@.take(ord@.len() as int) =~= ord@);
        }
        self.capture = 0;
        self.previous_winner = 0;
        let ghost raised = self.contexts@;
        let notices = self.status();
        proof {
            let top = choose|t: Seq<usize>| sorted_members(raised, true, live_slots(raised, CONTEXTS as int), t)
                && notices@ == status_notices(raised, self.managers@, t);
            assert(sorted_members(c0, false, group_slots(c0, pid, CONTEXTS as int), ord@));
            assert(status_notices(reordered(c0, ord@, base), self.managers@, top) == notices@);
            assert(self@ == DataView {
                order: (old(self)@.order + ord@.len()) as i64,
                contexts: statused(reordered(c0, ord@, base)),
                capture: 0,
                previous_winner: 0,
                ..old(self)@
            });
        }
        (true, notices)
    }
}

impl Record {
    /// An unused slot.
    pub fn empty() -> (r: Record)
        ensures
            r.id == 0 && r.pid == 0 && r.enabled == 0 && r.order == 0 && r.window == 0 && r.revision == 0
                && r.queue_capacity == 0,
            forall|i: int| 0 <= i < 33 ==> #[trigger] r.words@[i] == 0,
            forall|i: int| 0 <= i < 40 ==> #[trigger] r.name@[i] == 0,
            forall|i: int| 0 <= i < 16 ==> #[trigger] r.cursor_mask@[i] == 0,
    {
        Record {
            window: 0,
            order: 0,
            id: 0,
            pid: 0,
            revision: 0,
            enabled: 0,
            name: [0u16; 40],
            words: [0u32; 33],
            queue_capacity: 0,
            cursor_mask: [0u8; 16],
        }
    }
}

impl Manager {
    /// An unused slot.
    pub fn empty() -> (m: Manager)
        ensures
            m.window == 0 && m.id == 0 && m.pid == 0 && m.base == 0 && m.reserved == 0,
    {
        Manager { window: 0, id: 0, pid: 0, base: 0, reserved: 0 }
    }
}

/// The default press response: 256 points spread linearly over 0..=4097.
pub open spec fn default_response(i: int) -> u32 {
    ((i * 4097 + 127) / 255) as u32
}

impl Cursor {
    /// Cursor preferences before any manager changed them: identity button map, tip and
    /// barrel clicking left and right, any positive pressure pressing, linear response.
    pub fn standard() -> (c: Cursor)
        ensures
            c.wf(),
            c.enabled == 1,
            forall|i: int| 0 <= i < 32 ==> #[trigger] c.button_map@[i] == i,
            forall|i: int| 0 <= i < 32 ==> #[trigger] c.system_map@[i]
                == (if i == 0 { 1u8 } else if i == 1 { 4u8 } else { 0u8 }),
            c.marks@ == seq![0u32, 1u32],
            forall|i: int| 0 <= i < 256 ==> #[trigger] c.response@[i] == default_response(i),
            c.response_custom == 0,
    {
        let mut button_map = [0u8; 32];
        let mut system_map = [0u8; 32];
        let mut i: usize = 0;
        while i < 32
            invariant
                i <= 32,
                forall|j: int| 0 <= j < i ==> #[trigger] button_map@[j] == j,
                forall|j: int| i <= j < 32 ==> #[trigger] button_map@[j] == 0,
            decreases 32 - i,
        {
            button_map[i] = i as u8;
            i += 1;
        }
        system_map[0] = 1;
        system_map[1] = 4;
        let mut response = [0u32; 256];
        let mut k: usize = 0;
        while k < 256
            invariant
                k <= 256,
                forall|j: int| 0 <= j < k ==> #[trigger] response@[j] == default_response(j),
            decreases 256 - k,
        {
            response[k] = ((k * 4097 + 127) / 255) as u32;
            k += 1;
        }
        let c = Cursor { enabled: 1, button_map, system_map, marks: [0, 1], response, response_custom: 0 };
        assert(c.marks@ =~= seq![0u32, 1u32]);
        c
    }
}

impl Data {
    /// A session before initialization: every slot unused, every value zero.
    pub fn zeroed() -> (d: Data)
        ensures
            d.wf(),
            d.order == 0 && d.next == 0 && d.capture == 0 && d.previous_winner == 0,
            forall|i: int| 0 <= i < CONTEXTS ==> #[trigger] d.contexts@[i].id == 0,
            forall|i: int| 0 <= i < MANAGERS ==> #[trigger] d.managers@[i].id == 0,
    {
        let mut contexts: Vec<Record> = Vec::new();
        let mut i: usize = 0;
        while i < CONTEXTS
            invariant
                i <= CONTEXTS,
                contexts@.len() == i,
                forall|j: int| 0 <= j < i ==> #[trigger] contexts@[j].id == 0,
            decreases CONTEXTS - i,
        {
            contexts.push(Record::empty());
            i += 1;
        }
        let mut managers: Vec<Manager> = Vec::new();
        i = 0;
        while i < MANAGERS
            invariant
                i <= MANAGERS,
                managers@.len() == i,
                forall|j: int| 0 <= j < i ==> #[trigger] managers@[j].id == 0,
            decreases MANAGERS - i,
        {
            managers.push(Manager::empty());
            i += 1;
        }
        let mut routes: Vec<Routed> = Vec::new();
        i = 0;
        while i < ROUTES
            invariant
                i <= ROUTES,
                routes@.len() == i,
            decreases ROUTES - i,
        {
            routes.push(Routed { sequence: 0, owner: 0, winner: 0, sample: PenData::zero() });
            i += 1;
        }
        let blank = Cursor {
            enabled: 0,
            button_map: [0u8; 32],
            system_map: [0u8; 32],
            marks: [0, 0],
            response: [0u32; 256],
            response_custom: 0,
        };
        Data {
            next: 0,
            order: 0,
            revision: 0,
            contexts,
            managers,
            cursors: [blank, blank],
            route_sequence: 0,
            route_owner: 0,
            capture: 0,
            previous_winner: 0,
            pressure_held: [0, 0],
            previous: PenData::zero(),
            routes,
            hardware_in_range: 0,
            out_of_bounds: 0,
            obt_context: 0,
        }
    }
}

} // verus!
