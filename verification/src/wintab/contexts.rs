//! Opening, closing and editing logical contexts in the shared session. Only the owning
//! process, or any process holding a manager handle, may change a context; every change
//! recomputes the overlap status. Messages are returned for posting after unlocking.
use vstd::prelude::*;
use super::saved::{name_field, name_units};
use super::words::{Words, spec_validated, validated};
use super::session::{
    manager_notices, push_manager_notices, with_status, CONTEXTS, MANAGERS, Data, DataView, Manager, Notice, Record, live_slots, notify, record_notices, sorted_members,
    status_notices, statused,
};

verus! {

/// The process `own` may change context `r`: it owns it, or it holds a manager handle.
pub open spec fn spec_can_edit(ms: Seq<Manager>, r: Record, own: u32) -> bool {
    r.pid == own || exists|k: int| 0 <= k < ms.len() && (#[trigger] ms[k]).id != 0 && ms[k].pid == own
}

/// `id` is an open manager handle of process `own`.
pub open spec fn spec_is_manager(ms: Seq<Manager>, id: usize, own: u32) -> bool {
    exists|k: int| 0 <= k < ms.len() && (#[trigger] ms[k]).id as usize == id && ms[k].id != 0 && ms[k].pid == own
}

/// The first client slot from `from` on holding the open context `id`.
pub open spec fn find_open(c: Seq<Record>, id: usize, from: int) -> Option<int>
    decreases CONTEXTS - from,
{
    if from >= CONTEXTS || from < 0 {
        None
    } else if c[from].id != 0 && c[from].id as usize == id {
        Some(from)
    } else {
        find_open(c, id, from + 1)
    }
}

/// The first client slot from `from` on holding the open context `id` that `own` may edit.
pub open spec fn find_editable(c: Seq<Record>, ms: Seq<Manager>, id: usize, own: u32, from: int) -> Option<int>
    decreases CONTEXTS - from,
{
    if from >= CONTEXTS || from < 0 {
        None
    } else if c[from].id != 0 && c[from].id as usize == id && spec_can_edit(ms, c[from], own) {
        Some(from)
    } else {
        find_editable(c, ms, id, own, from + 1)
    }
}

/// `notes` are the status messages of recomputing the statuses of `c`.
pub open spec fn status_report(c: Seq<Record>, ms: Seq<Manager>, notes: Seq<Notice>) -> bool {
    exists|ord: Seq<usize>|
        sorted_members(c, true, live_slots(c, CONTEXTS as int), ord) && notes == status_notices(c, ms, ord)
}

/// `b` differs from `a` in the contexts at most.
pub open spec fn only_contexts_changed(a: DataView, b: DataView) -> bool {
    b == (DataView { contexts: b.contexts, ..a })
}

/// The lowest overlap order among client slots `2..n`.
pub open spec fn lowest_order(c: Seq<Record>, n: int) -> i64
    decreases n,
{
    if n <= 3 {
        c[2].order
    } else {
        let rest = lowest_order(c, n - 1);
        if c[n - 1].order < rest {
            c[n - 1].order
        } else {
            rest
        }
    }
}

/// The record with a new enabled flag; a real change bumps the revision.
pub open spec fn with_enabled(r: Record, enabled: bool) -> Record {
    if r.enabled != (if enabled { 1u32 } else { 0u32 }) {
        Record { enabled: if enabled { 1 } else { 0 }, revision: vstd::wrapping::u32_specs::wrapping_add(r.revision, 1), ..r }
    } else {
        r
    }
}

/// A process other than `own` that holds a context slot or a manager slot.
pub open spec fn holds_slot(c: Seq<Record>, ms: Seq<Manager>, own: u32, pid: u32) -> bool {
    pid != 0 && pid != own && ((exists|i: int| 0 <= i < c.len() && (#[trigger] c[i]).pid == pid) || (exists|k: int|
        0 <= k < ms.len() && (#[trigger] ms[k]).pid == pid))
}

/// Strictly increasing.
pub open spec fn increasing(s: Seq<u32>) -> bool {
    forall|x: int, y: int| 0 <= x < y < s.len() ==> s[x] < s[y]
}

/// The client contexts of `pid` closed.
pub open spec fn close_pid(c: Seq<Record>, pid: u32) -> Seq<Record> {
    Seq::new(c.len(), |i: int| if 2 <= i && c[i].pid == pid && c[i].id != 0 { Record { id: 0, ..c[i] } } else { c[i] })
}

/// The managers of `pid` closed.
pub open spec fn drop_managers(ms: Seq<Manager>, pid: u32) -> Seq<Manager> {
    Seq::new(ms.len(), |k: int| if ms[k].pid == pid { Manager { id: 0, ..ms[k] } } else { ms[k] })
}

/// The close messages for the client contexts of `pid` among slots `2..n`, in slot order.
pub open spec fn close_pid_notices(c: Seq<Record>, ms: Seq<Manager>, pid: u32, n: int) -> Seq<Notice>
    decreases n,
{
    if n <= 2 {
        seq![]
    } else {
        let r = c[n - 1];
        close_pid_notices(c, ms, pid, n - 1) + if r.pid == pid && r.id != 0 {
            record_notices(r, ms, 2, r.id as usize, r.words@[1] as isize)
        } else {
            seq![]
        }
    }
}

/// Contexts, managers and close messages after closing everything of the `dead`
/// processes, one after the other.
pub open spec fn prune_steps(c: Seq<Record>, ms: Seq<Manager>, dead: Seq<u32>) -> (Seq<Record>, Seq<Manager>, Seq<Notice>)
    decreases dead.len(),
{
    if dead.len() == 0 {
        (c, ms, seq![])
    } else {
        let (c1, m1, n1) = prune_steps(c, ms, dead.drop_last());
        let pid = dead.last();
        (close_pid(c1, pid), drop_managers(m1, pid), n1 + close_pid_notices(c1, m1, pid, CONTEXTS as int))
    }
}

proof fn lemma_prune_steps_len(c: Seq<Record>, ms: Seq<Manager>, dead: Seq<u32>)
    ensures
        prune_steps(c, ms, dead).0.len() == c.len(),
        prune_steps(c, ms, dead).1.len() == ms.len(),
    decreases dead.len(),
{
    if dead.len() > 0 {
        lemma_prune_steps_len(c, ms, dead.drop_last());
    }
}

/// Context and manager ids are 31-bit.
pub const ID_MASK: u32 = 0x7fff_ffff;

/// `id` names an open or closed slot's context or manager.
pub open spec fn id_taken(c: Seq<Record>, ms: Seq<Manager>, id: u32) -> bool {
    (exists|i: int| 0 <= i < c.len() && (#[trigger] c[i]).id == id) || (exists|k: int|
        0 <= k < ms.len() && (#[trigger] ms[k]).id == id)
}

/// The id a counter value proposes: at least 3 (1 and 2 name the default contexts).
pub open spec fn proposed(next: u32) -> u32 {
    if next < 3 {
        3
    } else {
        next
    }
}

/// The counter after proposing `id`.
pub open spec fn advanced(id: u32) -> u32 {
    vstd::wrapping::u32_specs::wrapping_add(id, 1) & ID_MASK
}

/// The `j`-th id tried from counter `next`.
pub open spec fn candidate(next: u32, j: nat) -> u32
    decreases j,
{
    if j == 0 {
        proposed(next)
    } else {
        proposed(advanced(candidate(next, (j - 1) as nat)))
    }
}

/// The ids in `3..2^31` form a cycle: each candidate after the first is in it, and the
/// next follows it.
proof fn lemma_candidate_step(next: u32, j: nat)
    requires
        j >= 1,
    ensures
        3 <= candidate(next, j) <= ID_MASK,
        candidate(next, j + 1) == (if candidate(next, j) < ID_MASK { (candidate(next, j) + 1) as u32 } else { 3u32 }),
    decreases j,
{
    let prev = candidate(next, (j - 1) as nat);
    let w = vstd::wrapping::u32_specs::wrapping_add(prev, 1);
    assert(w == (if prev == u32::MAX { 0u32 } else { (prev + 1) as u32 }));
    assert(w & ID_MASK <= ID_MASK) by (bit_vector);
    let c = candidate(next, j);
    if c < ID_MASK {
        assert((c + 1) as u32 & ID_MASK == (c + 1) as u32) by (bit_vector)
            requires
                c < ID_MASK;
    } else {
        assert(c == ID_MASK);
        assert(((c + 1) as u32) & ID_MASK == 0) by (bit_vector)
            requires
                c == ID_MASK;
    }
}

/// Every candidate is at least 3, so a fresh id is never 0 and never names a default.
pub proof fn lemma_candidate_at_least_three(next: u32, j: nat)
    ensures
        candidate(next, j) >= 3,
{
}

/// Cycle position of a candidate.
pub open spec fn position(id: u32) -> int {
    id - 3
}

pub open spec fn cycle() -> int {
    ID_MASK - 2
}

proof fn lemma_candidate_position(next: u32, a: nat, d: nat)
    requires
        a >= 1,
        d < cycle(),
    ensures
        position(candidate(next, a + d)) == (if position(candidate(next, a)) + d < cycle() {
            position(candidate(next, a)) + d
        } else {
            position(candidate(next, a)) + d - cycle()
        }),
    decreases d,
{
    lemma_candidate_step(next, a);
    if d > 0 {
        lemma_candidate_position(next, a, (d - 1) as nat);
        lemma_candidate_step(next, (a + d - 1) as nat);
        assert(a + d == (a + d - 1) as nat + 1);
    }
}

/// At most 82 ids are taken, so 83 successive candidates cannot all be taken.
proof fn lemma_free_candidate(c: Seq<Record>, ms: Seq<Manager>, next: u32)
    requires
        c.len() == CONTEXTS,
        ms.len() == MANAGERS,
    ensures
        exists|j: nat| 1 <= j <= 83 && !id_taken(c, ms, #[trigger] candidate(next, j)),
{
    if forall|j: nat| 1 <= j <= 83 ==> id_taken(c, ms, #[trigger] candidate(next, j)) {
        let tried = Seq::new(83, |k: int| candidate(next, (k + 1) as nat));
        let ids = c.map_values(|r: Record| r.id) + ms.map_values(|m: Manager| m.id);
        assert forall|x: int, y: int| 0 <= x < y < 83 implies tried[x] != tried[y] by {
            lemma_candidate_position(next, (x + 1) as nat, (y - x) as nat);
            assert((x + 1) as nat + (y - x) as nat == (y + 1) as nat);
            lemma_candidate_step(next, (x + 1) as nat);
            lemma_candidate_step(next, (y + 1) as nat);
        }
        assert(tried.no_duplicates());
        tried.unique_seq_to_set();
        ids.lemma_cardinality_of_set();
        assert forall|v: u32| tried.to_set().contains(v) implies ids.to_set().contains(v) by {
            let k = choose|k: int| 0 <= k < 83 && tried[k] == v;
            assert(id_taken(c, ms, candidate(next, (k + 1) as nat)));
            if exists|i: int| 0 <= i < c.len() && (#[trigger] c[i]).id == v {
                let i = choose|i: int| 0 <= i < c.len() && (#[trigger] c[i]).id == v;
                assert(ids[i] == v);
            } else {
                let m = choose|m: int| 0 <= m < ms.len() && (#[trigger] ms[m]).id == v;
                assert(ids[c.len() + m] == v);
            }
        }
        vstd::set_lib::lemma_len_subset(tried.to_set(), ids.to_set());
    }
}

/// The first free client slot from `from` on.
pub open spec fn find_free(c: Seq<Record>, from: int) -> Option<int>
    decreases CONTEXTS - from,
{
    if from >= CONTEXTS || from < 0 {
        None
    } else if c[from].id == 0 {
        Some(from)
    } else {
        find_free(c, from + 1)
    }
}

/// The first slot from `from` on, defaults included, holding the open context `id`.
pub open spec fn find_any(c: Seq<Record>, id: usize, from: int) -> Option<int>
    decreases CONTEXTS - from,
{
    if from >= CONTEXTS || from < 0 {
        None
    } else if c[from].id != 0 && c[from].id as usize == id {
        Some(from)
    } else {
        find_any(c, id, from + 1)
    }
}

proof fn lemma_find_any(c: Seq<Record>, id: usize, from: int)
    ensures
        find_any(c, id, from) matches Some(i) ==> from <= i < CONTEXTS && c[i].id != 0 && c[i].id as usize == id,
    decreases CONTEXTS - from,
{
    if 0 <= from < CONTEXTS {
        lemma_find_any(c, id, from + 1);
    }
}

/// The record `get` reports: an open context by id, or one of the four virtual ids
/// `0x7fff0001..=0x7fff0004` standing for the digitizing and system defaults, the first
/// two with every input extent bit set in word 4.
pub open spec fn spec_get(c: Seq<Record>, id: usize) -> Option<Record> {
    if 0x7fff0001 <= id <= 0x7fff0004 {
        let base = 1 + (id - 0x7fff0001) % 2;
        match find_any(c, base as usize, 0) {
            Some(i) => Some(Record {
                id: id as u32,
                words: vstd::array::spec_array_update(c[i].words, 4, if id <= 0x7fff0002 { u32::MAX } else { 0u32 }),
                ..c[i]
            }),
            None => None,
        }
    } else {
        match find_any(c, id, 0) {
            Some(i) => Some(c[i]),
            None => None,
        }
    }
}

/// Information-change messages to every client context with a window, in slot order.
pub open spec fn info_notices(c: Seq<Record>, manager: usize, lp: isize, n: int) -> Seq<Notice>
    decreases n,
{
    if n <= 0 {
        seq![]
    } else {
        let r = c[n - 1];
        info_notices(c, manager, lp, n - 1) + if r.id > 2 && r.window != 0 {
            seq![Notice { window: r.window, base: r.words@[3], offset: 6, wparam: manager, lparam: lp }]
        } else {
            seq![]
        }
    }
}

/// The message parameter naming an information category and index.
pub open spec fn info_param(category: u32, index: u32) -> isize {
    ((category & 0xffff) | (index << 16)) as isize
}

/// A context of another process (not a default, not `own`).
pub open spec fn foreign(r: Record, own: u32) -> bool {
    r.pid != 0 && r.pid != own
}

/// The words a change stores before validation: what `locks` keeps of a foreign
/// context, the requested words otherwise.
pub open spec fn kept_words<F: Fn(Words, Words) -> Words>(locks: F, r: Record, own: u32, requested: Words, stored: Words) -> bool {
    if foreign(r, own) {
        call_ensures(locks, (r.words, requested), stored)
    } else {
        stored == requested
    }
}

proof fn lemma_find_open(c: Seq<Record>, id: usize, from: int)
    ensures
        find_open(c, id, from) matches Some(i) ==> from <= i < CONTEXTS && c[i].id != 0 && c[i].id as usize == id,
    decreases CONTEXTS - from,
{
    if 0 <= from < CONTEXTS {
        lemma_find_open(c, id, from + 1);
    }
}

proof fn lemma_find_editable(c: Seq<Record>, ms: Seq<Manager>, id: usize, own: u32, from: int)
    ensures
        find_editable(c, ms, id, own, from) matches Some(i) ==> from <= i < CONTEXTS && c[i].id != 0 && c[i].id as usize
            == id && spec_can_edit(ms, c[i], own),
    decreases CONTEXTS - from,
{
    if 0 <= from < CONTEXTS {
        lemma_find_editable(c, ms, id, own, from + 1);
    }
}

proof fn lemma_lowest_order_is_one(c: Seq<Record>, n: int)
    requires
        3 <= n <= CONTEXTS,
        c.len() == CONTEXTS,
    ensures
        exists|j: int| 2 <= j < n && c[j].order == lowest_order(c, n),
    decreases n,
{
    if n > 3 {
        lemma_lowest_order_is_one(c, n - 1);
    } else {
        assert(c[2].order == lowest_order(c, 3));
    }
}

/// Insert `p` into a strictly increasing list unless it is there already.
fn insert_sorted(v: &mut Vec<u32>, p: u32)
    requires
        increasing(old(v)@),
    ensures
        increasing(final(v)@),
        forall|q: u32| final(v)@.contains(q) <==> old(v)@.contains(q) || q == p,
{
    let mut i: usize = 0;
    while i < v.len() && v[i] < p
        invariant
            i <= v@.len(),
            v@ == old(v)@,
            increasing(v@),
            forall|x: int| 0 <= x < i ==> v@[x] < p,
        decreases v@.len() - i,
    {
        i += 1;
    }
    if i < v.len() && v[i] == p {
        assert(v@[i as int] == p);
        return;
    }
    let ghost before = v@;
    v.insert(i, p);
    proof {
        before.insert_ensures(i as int, p);
        assert(v@ == before.insert(i as int, p));
        assert forall|x: int, y: int| 0 <= x < y < v@.len() implies v@[x] < v@[y] by {
            if y < i {
                assert(v@[x] == before[x] && v@[y] == before[y]);
            } else if y == i {
                assert(v@[x] == before[x]);
            } else if x < i {
                assert(v@[x] == before[x] && v@[y] == before[y - 1]);
                if i < before.len() {
                    assert(before[i as int] > p);
                }
            } else if x == i {
                assert(v@[y] == before[y - 1]);
            } else {
                assert(v@[x] == before[x - 1] && v@[y] == before[y - 1]);
            }
        }
        assert forall|q: u32| v@.contains(q) <==> before.contains(q) || q == p by {
            if v@.contains(q) {
                let x = choose|x: int| 0 <= x < v@.len() && v@[x] == q;
                if x < i {
                    assert(before[x] == q);
                } else if x > i {
                    assert(before[x - 1] == q);
                }
            }
            if before.contains(q) {
                let x = choose|x: int| 0 <= x < before.len() && before[x] == q;
                if x < i {
                    assert(v@[x] == q);
                } else {
                    assert(v@[x + 1] == q);
                }
            }
            if q == p {
                assert(v@[i as int] == p);
            }
        }
    }
}

impl Data {
    /// The process `own` may change `record`.
    pub fn can_edit(&self, record: &Record, own: u32) -> (r: bool)
        ensures
            r == spec_can_edit(self.managers@, *record, own),
    {
        if record.pid == own {
            return true;
        }
        let mut k: usize = 0;
        while k < self.managers.len()
            invariant
                k <= self.managers@.len(),
                record.pid != own,
                forall|j: int| 0 <= j < k ==> !((#[trigger] self.managers@[j]).id != 0 && self.managers@[j].pid == own),
            decreases self.managers@.len() - k,
        {
            if self.managers[k].id != 0 && self.managers[k].pid == own {
                return true;
            }
            k += 1;
        }
        false
    }

    /// `id` is an open manager handle of process `own`.
    pub fn manager(&self, id: usize, own: u32) -> (r: bool)
        ensures
            r == spec_is_manager(self.managers@, id, own),
    {
        let mut k: usize = 0;
        while k < self.managers.len()
            invariant
                k <= self.managers@.len(),
                forall|j: int|
                    0 <= j < k ==> !((#[trigger] self.managers@[j]).id as usize == id && self.managers@[j].id != 0
                        && self.managers@[j].pid == own),
            decreases self.managers@.len() - k,
        {
            let m = self.managers[k];
            if m.id as usize == id && m.id != 0 && m.pid == own {
                return true;
            }
            k += 1;
        }
        false
    }

    fn open_slot(&self, id: usize) -> (r: Option<usize>)
        requires
            self.wf(),
        ensures
            r matches Some(i) ==> find_open(self.contexts@, id, 2) == Some(i as int),
            r matches Some(i) ==> 2 <= i < CONTEXTS && self.contexts@[i as int].id != 0
                && self.contexts@[i as int].id as usize == id,
            r is None ==> find_open(self.contexts@, id, 2) is None,
    {
        proof {
            lemma_find_open(self.contexts@, id, 2);
        }
        let mut i: usize = 2;
        while i < CONTEXTS
            invariant
                2 <= i <= CONTEXTS,
                self.wf(),
                find_open(self.contexts@, id, 2) == find_open(self.contexts@, id, i as int),
            decreases CONTEXTS - i,
        {
            let r = self.contexts[i];
            if r.id != 0 && r.id as usize == id {
                return Some(i);
            }
            i += 1;
        }
        None
    }

    fn editable_slot(&self, id: usize, own: u32) -> (r: Option<usize>)
        requires
            self.wf(),
        ensures
            r matches Some(i) ==> find_editable(self.contexts@, self.managers@, id, own, 2) == Some(i as int),
            r matches Some(i) ==> 2 <= i < CONTEXTS && self.contexts@[i as int].id != 0
                && self.contexts@[i as int].id as usize == id && spec_can_edit(
                self.managers@,
                self.contexts@[i as int],
                own,
            ),
            r is None ==> find_editable(self.contexts@, self.managers@, id, own, 2) is None,
    {
        proof {
            lemma_find_editable(self.contexts@, self.managers@, id, own, 2);
        }
        let mut i: usize = 2;
        while i < CONTEXTS
            invariant
                2 <= i <= CONTEXTS,
                self.wf(),
                find_editable(self.contexts@, self.managers@, id, own, 2) == find_editable(
                    self.contexts@,
                    self.managers@,
                    id,
                    own,
                    i as int,
                ),
            decreases CONTEXTS - i,
        {
            let r = self.contexts[i];
            if r.id != 0 && r.id as usize == id && self.can_edit(&r, own) {
                return Some(i);
            }
            i += 1;
        }
        None
    }

    /// Close context `id` for process `own`; returns whether it was closed, and the
    /// messages: the close, then the status changes.
    pub fn close(&mut self, id: usize, own: u32) -> (r: (bool, Vec<Notice>))
        requires
            old(self).wf(),
        ensures
            final(self).wf(),
            only_contexts_changed(old(self)@, final(self)@),
            match find_open(old(self).contexts@, id, 2) {
                Some(i) if spec_can_edit(old(self).managers@, old(self).contexts@[i], own) => {
                    let c = old(self).contexts@;
                    let closed = c.update(i, Record { id: 0, ..c[i] });
                    let first = record_notices(c[i], old(self).managers@, 2, id, c[i].words@[1] as isize);
                    &&& r.0
                    &&& final(self).contexts@ == statused(closed)
                    &&& r.1@.len() >= first.len() && r.1@.take(first.len() as int) == first
                    &&& status_report(closed, old(self).managers@, r.1@.skip(first.len() as int))
                },
                _ => !r.0 && r.1@.len() == 0 && final(self)@ == old(self)@,
            },
    {
        let slot = self.open_slot(id);
        let i = match slot {
            Some(i) => i,
            None => {
                return (false, Vec::new());
            },
        };
        let r = self.contexts[i];
        if !self.can_edit(&r, own) {
            return (false, Vec::new());
        }
        self.contexts[i].id = 0;
        let ghost closed = self.contexts@;
        assert(closed == old(self).contexts@.update(i as int, Record { id: 0, ..r }));
        let mut notices: Vec<Notice> = Vec::new();
        notify(&mut notices, &r, &self.managers, 2, id, r.words[1] as isize);
        let ghost first = notices@;
        let mut more = self.status();
        let ghost status_part = more@;
        notices.append(&mut more);
        proof {
            assert(notices@.take(first.len() as int) =~= first);
            assert(notices@.skip(first.len() as int) =~= status_part);
        }
        (true, notices)
    }

    /// The processes to check before pruning: every process other than `own` holding a
    /// context or manager slot, in increasing order.
    pub fn prune_candidates(&self, own: u32) -> (pids: Vec<u32>)
        requires
            self.wf(),
        ensures
            increasing(pids@),
            forall|p: u32| pids@.contains(p) <==> holds_slot(self.contexts@, self.managers@, own, p),
    {
        let mut pids: Vec<u32> = Vec::new();
        let n = self.contexts.len() + self.managers.len();
        let mut k: usize = 0;
        while k < n
            invariant
                self.wf(),
                n == self.contexts@.len() + self.managers@.len(),
                k <= n,
                increasing(pids@),
                forall|p: u32| pids@.contains(p) <==> (p != 0 && p != own && ((exists|i: int|
                    0 <= i < k && i < self.contexts@.len() && (#[trigger] self.contexts@[i]).pid == p) || (exists|j: int|
                    0 <= j < k - self.contexts@.len() && (#[trigger] self.managers@[j]).pid == p))),
            decreases n - k,
        {
            let ghost before = pids@;
            let p = if k < self.contexts.len() {
                self.contexts[k].pid
            } else {
                self.managers[k - self.contexts.len()].pid
            };
            if p != 0 && p != own {
                insert_sorted(&mut pids, p);
            }
            proof {
                assert forall|q: u32| pids@.contains(q) <==> (q != 0 && q != own && ((exists|i: int|
                    0 <= i < k + 1 && i < self.contexts@.len() && (#[trigger] self.contexts@[i]).pid == q) || (exists|
                    j: int|
                    0 <= j < k + 1 - self.contexts@.len() && (#[trigger] self.managers@[j]).pid == q))) by {
                    if k < self.contexts@.len() {
                        if q == p && q != 0 && q != own {
                            assert(self.contexts@[k as int].pid == q);
                        }
                    } else {
                        if q == p && q != 0 && q != own {
                            assert(self.managers@[k - self.contexts@.len()].pid == q);
                        }
                    }
                }
            }
            k += 1;
        }
        proof {
            assert forall|p: u32| holds_slot(self.contexts@, self.managers@, own, p) implies pids@.contains(p) by {
                {
                    if exists|j: int| 0 <= j < self.managers@.len() && (#[trigger] self.managers@[j]).pid == p {
                        let j = choose|j: int| 0 <= j < self.managers@.len() && (#[trigger] self.managers@[j]).pid == p;
                        assert(0 <= j < n - self.contexts@.len());
                    }
                }
            }
        }
        pids
    }

    /// Close every context and manager of the `dead` processes, one process after the
    /// other, then recompute statuses. Returns the close messages, then the status ones.
    pub fn prune(&mut self, dead: &Vec<u32>) -> (notices: Vec<Notice>)
        requires
            old(self).wf(),
        ensures
            final(self).wf(),
            ({
                let (c, ms, closes) = prune_steps(old(self).contexts@, old(self).managers@, dead@);
                &&& final(self).contexts@ == statused(c)
                &&& final(self).managers@ == ms
                &&& notices@.len() >= closes.len() && notices@.take(closes.len() as int) == closes
                &&& status_report(c, ms, notices@.skip(closes.len() as int))
                &&& final(self)@ == (DataView { contexts: final(self).contexts@, managers: ms, ..old(self)@ })
            }),
    {
        let mut notices: Vec<Notice> = Vec::new();
        let mut d: usize = 0;
        while d < dead.len()
            invariant
                d <= dead@.len(),
                self.wf(),
                ({
                    let (c, ms, closes) = prune_steps(old(self).contexts@, old(self).managers@, dead@.take(d as int));
                    &&& self.contexts@ == c
                    &&& self.managers@ == ms
                    &&& notices@ == closes
                    &&& self@ == (DataView { contexts: c, managers: ms, ..old(self)@ })
                }),
            decreases dead@.len() - d,
        {
            let pid = dead[d];
            let ghost c1 = self.contexts@;
            let ghost m1 = self.managers@;
            let ghost n1 = notices@;
            let mut i: usize = 2;
            while i < CONTEXTS
                invariant
                    2 <= i <= CONTEXTS,
                    self.wf(),
                    self.managers@ == m1,
                    c1.len() == CONTEXTS,
                    forall|j: int| 0 <= j < CONTEXTS ==> #[trigger] self.contexts@[j] == (if j < i { close_pid(c1, pid)[j] } else { c1[j] }),
                    notices@ == n1 + close_pid_notices(c1, m1, pid, i as int),
                    self@ == (DataView { contexts: self.contexts@, managers: m1, ..old(self)@ }),
                decreases CONTEXTS - i,
            {
                let r = self.contexts[i];
                if r.pid == pid && r.id != 0 {
                    self.contexts[i].id = 0;
                    notify(&mut notices, &r, &self.managers, 2, r.id as usize, r.words[1] as isize);
                }
                i += 1;
            }
            assert(self.contexts@ =~= close_pid(c1, pid));
            let mut k: usize = 0;
            while k < self.managers.len()
                invariant
                    self.wf(),
                    k <= self.managers@.len(),
                    self.contexts@ == close_pid(c1, pid),
                    m1.len() == self.managers@.len(),
                    forall|j: int| 0 <= j < m1.len() ==> #[trigger] self.managers@[j] == (if j < k { drop_managers(m1, pid)[j] } else { m1[j] }),
                    self@ == (DataView { contexts: self.contexts@, managers: self.managers@, ..old(self)@ }),
                decreases self.managers@.len() - k,
            {
                if self.managers[k].pid == pid {
                    self.managers[k].id = 0;
                }
                k += 1;
            }
            assert(self.managers@ =~= drop_managers(m1, pid));
            proof {
                assert(dead@.take(d as int + 1).drop_last() =~= dead@.take(d as int));
            }
            d += 1;
        }
        proof {
            assert(dead@.take(dead@.len() as int) =~= dead@);
        }
        let ghost closes = notices@;
        let mut more = self.status();
        let ghost status_part = more@;
        notices.append(&mut more);
        proof {
            assert(notices@.take(closes.len() as int) =~= closes);
            assert(notices@.skip(closes.len() as int) =~= status_part);
        }
        notices
    }

    /// A fresh context or manager id: the first id from the counter on, skipping 1 and 2,
    /// that no slot holds. The counter moves past it.
    pub fn next_id(&mut self) -> (id: u32)
        requires
            old(self).wf(),
        ensures
            final(self).wf(),
            exists|j: nat|
                #![trigger candidate(old(self).next, j)]
                id == candidate(old(self).next, j) && !id_taken(old(self).contexts@, old(self).managers@, id)
                    && forall|k: nat| k < j ==> id_taken(old(self).contexts@, old(self).managers@, #[trigger] candidate(old(self).next, k)),
            final(self).next == advanced(id),
            final(self)@ == (DataView { next: final(self).next, ..old(self)@ }),
    {
        let ghost c = self.contexts@;
        let ghost ms = self.managers@;
        let ghost start = self.next;
        proof {
            lemma_free_candidate(c, ms, start);
        }
        let ghost mut j: nat = 0;
        loop
            invariant
                self.wf(),
                self.contexts@ == c,
                self.managers@ == ms,
                self@ == (DataView { next: self.next, ..old(self)@ }),
                start == old(self).next,
                j <= 83,
                proposed(self.next) == candidate(start, j),
                j > 0 ==> self.next == advanced(candidate(start, (j - 1) as nat)),
                forall|k: nat| k < j ==> id_taken(c, ms, #[trigger] candidate(start, k)),
                exists|f: nat| j <= f <= 83 && !id_taken(c, ms, #[trigger] candidate(start, f)),
            decreases 83 - j,
        {
            let id = if self.next < 3 { 3 } else { self.next };
            self.next = id.wrapping_add(1) & ID_MASK;
            let mut taken = false;
            let mut i: usize = 0;
            while i < self.contexts.len()
                invariant
                    self.contexts@ == c,
                    i <= c.len(),
                    taken <==> exists|x: int| 0 <= x < i && (#[trigger] c[x]).id == id,
                decreases c.len() - i,
            {
                if self.contexts[i].id == id {
                    taken = true;
                }
                i += 1;
            }
            let mut k: usize = 0;
            while k < self.managers.len()
                invariant
                    self.managers@ == ms,
                    k <= ms.len(),
                    taken <==> (exists|x: int| 0 <= x < c.len() && (#[trigger] c[x]).id == id) || exists|y: int|
                        0 <= y < k && (#[trigger] ms[y]).id == id,
                decreases ms.len() - k,
            {
                if self.managers[k].id == id {
                    taken = true;
                }
                k += 1;
            }
            if !taken {
                return id;
            }
            proof {
                let f = choose|f: nat| j <= f <= 83 && !id_taken(c, ms, #[trigger] candidate(start, f));
                assert(f != j);
                j = j + 1;
            }
        }
    }

    /// Open a context for process `own` in the first free client slot, on top of the
    /// overlap order, with validated words (reporting the feeder's `rate`) and the
    /// default queue size and cursor mask. Returns its id and the messages: the open,
    /// then the status changes; `None` when every slot is taken. Callers prune first.
    pub fn add(&mut self, name: &str, words: Words, window: u64, enabled: bool, own: u32, rate: u32) -> (r: (
        Option<usize>,
        Vec<Notice>,
    ))
        requires
            old(self).wf(),
            old(self).order < i64::MAX,
        ensures
            final(self).wf(),
            match find_free(old(self).contexts@, 2) {
                None => r.0 is None && r.1@.len() == 0 && final(self)@ == old(self)@,
                Some(i) => {
                    let record = with_status(final(self).contexts@[i], if enabled { 4u32 } else { 1u32 });
                    let id = record.id;
                    let opened = old(self).contexts@.update(i, record);
                    let first = record_notices(record, old(self).managers@, 1, id as usize, record.words@[1] as isize);
                    &&& r.0 == Some(id as usize)
                    &&& record.window == window && record.order == old(self).order + 1 && record.pid == own
                    &&& record.revision == 1 && record.enabled == (if enabled { 1u32 } else { 0u32 })
                    &&& record.queue_capacity == 128
                    &&& record.name@ == name_field(name@)
                    &&& record.words@ == spec_validated(words@, enabled, rate)
                    &&& forall|k: int| 0 <= k < 16 ==> #[trigger] record.cursor_mask@[k] == 255
                    &&& exists|j: nat|
                        #![trigger candidate(old(self).next, j)]
                        id == candidate(old(self).next, j) && !id_taken(old(self).contexts@, old(self).managers@, id)
                            && forall|k: nat| k < j ==> id_taken(old(self).contexts@, old(self).managers@, #[trigger] candidate(old(self).next, k))
                    &&& final(self).contexts@ == statused(opened)
                    &&& final(self).next == advanced(id) && final(self).order == old(self).order + 1
                    &&& r.1@.len() >= first.len() && r.1@.take(first.len() as int) == first
                    &&& status_report(opened, old(self).managers@, r.1@.skip(first.len() as int))
                    &&& final(self)@ == (DataView {
                        contexts: final(self).contexts@,
                        next: final(self).next,
                        order: final(self).order,
                        ..old(self)@
                    })
                },
            },
    {
        let mut i: usize = 2;
        while i < CONTEXTS && self.contexts[i].id != 0
            invariant
                2 <= i <= CONTEXTS,
                self.wf(),
                find_free(self.contexts@, 2) == find_free(self.contexts@, i as int),
            decreases CONTEXTS - i,
        {
            i += 1;
        }
        if i == CONTEXTS {
            return (None, Vec::new());
        }
        assert(find_free(self.contexts@, 2) == Some(i as int));
        let id = self.next_id();
        self.order = self.order + 1;
        let record = Record {
            window,
            order: self.order,
            id,
            pid: own,
            revision: 1,
            enabled: if enabled { 1 } else { 0 },
            name: name_units(name),
            words: validated(words, enabled, rate),
            queue_capacity: 128,
            cursor_mask: [255u8; 16],
        };
        self.contexts.set(i, record);
        let ghost opened = self.contexts@;
        assert(opened == old(self).contexts@.update(i as int, record));
        let mut notices: Vec<Notice> = Vec::new();
        notify(&mut notices, &record, &self.managers, 1, id as usize, record.words[1] as isize);
        let ghost first = notices@;
        let mut more = self.status();
        let ghost status_part = more@;
        notices.append(&mut more);
        proof {
            assert(notices@.take(first.len() as int) =~= first);
            assert(notices@.skip(first.len() as int) =~= status_part);
        }
        proof {
            let ghost j = choose|j: nat|
                #![trigger candidate(old(self).next, j)]
                id == candidate(old(self).next, j) && !id_taken(old(self).contexts@, old(self).managers@, id)
                    && forall|k: nat| k < j ==> id_taken(old(self).contexts@, old(self).managers@, #[trigger] candidate(old(self).next, k));
            assert(forall|k: int| 0 <= k < 16 ==> #[trigger] record.cursor_mask@[k] == 255);
            assert(record.name@ == name_field(name@));
            assert(record.words@ == spec_validated(words@, enabled, rate));
            assert(self.contexts@ == statused(opened));
            assert(self.next == advanced(id));
            assert(self.order == old(self).order + 1);
            assert(self@ == (DataView { contexts: self.contexts@, next: self.next, order: self.order, ..old(self)@ }));
            assert(notices@.len() >= first.len());
            assert(status_report(opened, old(self).managers@, notices@.skip(first.len() as int)));
            assert(first == record_notices(record, old(self).managers@, 1, id as usize, record.words@[1] as isize));
            let st = vstd::array::spec_array_update(self.contexts@[i as int].words, 1, if enabled { 4u32 } else { 1u32 });
            broadcast use vstd::array::group_array_axioms;
            assert(st@ =~= record.words@);
            assert(st == record.words);
            assert(with_status(self.contexts@[i as int], if enabled { 4u32 } else { 1u32 }) == record);
        }
        (Some(id as usize), notices)
    }

    /// The record reported for `id` (see `spec_get`).
    pub fn get(&self, id: usize) -> (r: Option<Record>)
        requires
            self.wf(),
        ensures
            r == spec_get(self.contexts@, id),
    {
        let lookup = if 0x7fff0001 <= id && id <= 0x7fff0004 { 1 + (id - 0x7fff0001) % 2 } else { id };
        let mut i: usize = 0;
        while i < CONTEXTS && !(self.contexts[i].id != 0 && self.contexts[i].id as usize == lookup)
            invariant
                i <= CONTEXTS,
                self.wf(),
                find_any(self.contexts@, lookup, 0) == find_any(self.contexts@, lookup, i as int),
            decreases CONTEXTS - i,
        {
            i += 1;
        }
        if i == CONTEXTS {
            return None;
        }
        let mut r = self.contexts[i];
        if lookup != id {
            r.id = id as u32;
            r.words[4] = if id <= 0x7fff0002 { u32::MAX } else { 0 };
            proof {
                broadcast use vstd::array::group_array_axioms;
                assert(r.words@ =~= vstd::array::spec_array_update(self.contexts@[i as int].words, 4, if id <= 0x7fff0002 { u32::MAX } else { 0u32 })@);
            }
        }
        Some(r)
    }

    /// The digitizing (`false`) or system (`true`) default context.
    pub fn defaults(&self, system: bool) -> (r: Option<Record>)
        requires
            self.wf(),
        ensures
            r == spec_get(self.contexts@, if system { 2 } else { 1 }),
    {
        self.get(if system { 2 } else { 1 })
    }

    /// Tell every client context and manager that information `category`/`index`
    /// changed, on behalf of `manager`; the session revision moves on.
    pub fn information_changed(&mut self, manager: usize, category: u32, index: u32) -> (notices: Vec<Notice>)
        requires
            old(self).wf(),
        ensures
            final(self).wf(),
            final(self)@ == (DataView { revision: vstd::wrapping::u32_specs::wrapping_add(old(self).revision, 1), ..old(self)@ }),
            notices@ == info_notices(old(self).contexts@, manager, info_param(category, index), CONTEXTS as int)
                + manager_notices(old(self).managers@, 6, manager, info_param(category, index)),
    {
        self.revision = self.revision.wrapping_add(1);
        let lp = ((category & 0xffff) | (index << 16)) as isize;
        let mut notices: Vec<Notice> = Vec::new();
        let mut i: usize = 0;
        while i < CONTEXTS
            invariant
                i <= CONTEXTS,
                self.wf(),
                self.contexts@ == old(self).contexts@,
                lp == info_param(category, index),
                notices@ == info_notices(old(self).contexts@, manager, lp, i as int),
            decreases CONTEXTS - i,
        {
            let r = self.contexts[i];
            if r.id > 2 && r.window != 0 {
                notices.push(Notice { window: r.window, base: r.words[3], offset: 6, wparam: manager, lparam: lp });
            }
            i += 1;
        }
        push_manager_notices(&mut notices, &self.managers, 6, manager, lp);
        notices
    }

    /// Change the name and words of context `id` (a default too, as a manager). A context
    /// of another process keeps what it locked: `locks(current, requested)` gives the
    /// words to store. The words are then validated (reporting the feeder's `rate`).
    /// Returns whether it changed, and the messages: the change, the status changes, and
    /// for a default context the information change.
    pub fn set<F: Fn(Words, Words) -> Words>(
        &mut self,
        id: usize,
        name: &str,
        words: Words,
        own: u32,
        rate: u32,
        locks: F,
    ) -> (r: (bool, Vec<Notice>))
        requires
            old(self).wf(),
            forall|a: Words, b: Words| call_requires(locks, (a, b)),
        ensures
            final(self).wf(),
            match find_any(old(self).contexts@, id, 0) {
                Some(i) if i < 2 || spec_can_edit(old(self).managers@, old(self).contexts@[i], own) => {
                    let c = old(self).contexts@;
                    let ms = old(self).managers@;
                    let rec = with_status(final(self).contexts@[i], if c[i].enabled != 0 { 4u32 } else { 1u32 });
                    let changed = c.update(i, rec);
                    let first = record_notices(rec, ms, 3, id, rec.words@[1] as isize);
                    let info = info_param(if i == 0 { 3u32 } else { 4u32 }, 0);
                    let tail = if i < 2 {
                        info_notices(statused(changed), 0, info, CONTEXTS as int) + manager_notices(ms, 6, 0, info)
                    } else {
                        seq![]
                    };
                    &&& r.0
                    &&& rec.name@ == name_field(name@)
                    &&& rec.revision == vstd::wrapping::u32_specs::wrapping_add(c[i].revision, 1)
                    &&& rec.id == c[i].id && rec.pid == c[i].pid && rec.window == c[i].window
                    &&& rec.order == c[i].order && rec.enabled == c[i].enabled
                    &&& rec.queue_capacity == c[i].queue_capacity && rec.cursor_mask == c[i].cursor_mask
                    &&& exists|stored: Words|
                        #![trigger kept_words(locks, c[i], own, words, stored)]
                        kept_words(locks, c[i], own, words, stored) && rec.words@ == spec_validated(stored@, c[i].enabled != 0, rate)
                    &&& final(self).contexts@ == statused(changed)
                    &&& r.1@.len() >= first.len() + tail.len()
                    &&& r.1@.take(first.len() as int) == first
                    &&& r.1@.skip(r.1@.len() - tail.len()) == tail
                    &&& status_report(changed, ms, r.1@.subrange(first.len() as int, r.1@.len() - tail.len()))
                    &&& final(self)@ == (DataView {
                        contexts: final(self).contexts@,
                        revision: if i < 2 {
                            vstd::wrapping::u32_specs::wrapping_add(old(self).revision, 1)
                        } else {
                            old(self).revision
                        },
                        ..old(self)@
                    })
                },
                _ => !r.0 && r.1@.len() == 0 && final(self)@ == old(self)@,
            },
    {
        let mut i: usize = 0;
        while i < CONTEXTS && !(self.contexts[i].id != 0 && self.contexts[i].id as usize == id)
            invariant
                i <= CONTEXTS,
                self.wf(),
                find_any(self.contexts@, id, 0) == find_any(self.contexts@, id, i as int),
            decreases CONTEXTS - i,
        {
            i += 1;
        }
        if i == CONTEXTS {
            return (false, Vec::new());
        }
        let r = self.contexts[i];
        if i >= 2 && !self.can_edit(&r, own) {
            return (false, Vec::new());
        }
        let stored = if r.pid != 0 && r.pid != own { locks(r.words, words) } else { words };
        assert(kept_words(locks, r, own, words, stored));
        let mut changed = r;
        changed.name = name_units(name);
        changed.words = validated(stored, r.enabled != 0, rate);
        changed.revision = r.revision.wrapping_add(1);
        self.contexts.set(i, changed);
        let ghost updated = self.contexts@;
        let mut notices: Vec<Notice> = Vec::new();
        notify(&mut notices, &changed, &self.managers, 3, id, changed.words[1] as isize);
        let ghost first = notices@;
        let mut more = self.status();
        let ghost st = more@;
        notices.append(&mut more);
        let ghost statused_contexts = self.contexts@;
        if i < 2 {
            let mut info = self.information_changed(0, if i == 0 { 3 } else { 4 }, 0);
            notices.append(&mut info);
        }
        proof {
            broadcast use vstd::array::group_array_axioms;
            assert(updated == old(self).contexts@.update(i as int, changed));
            let w = vstd::array::spec_array_update(self.contexts@[i as int].words, 1, if r.enabled != 0 { 4u32 } else { 1u32 });
            assert(w@ =~= changed.words@);
            assert(w == changed.words);
            assert(with_status(self.contexts@[i as int], if r.enabled != 0 { 4u32 } else { 1u32 }) == changed);
            assert(status_report(updated, old(self).managers@, st));
            let tail = if i < 2 {
                info_notices(statused_contexts, 0, info_param(if i == 0 { 3u32 } else { 4u32 }, 0), CONTEXTS as int)
                    + manager_notices(old(self).managers@, 6, 0, info_param(if i == 0 { 3u32 } else { 4u32 }, 0))
            } else {
                seq![]
            };
            assert(notices@ =~= first + st + tail);
            assert(notices@.take(first.len() as int) =~= first);
            assert(notices@.skip(notices@.len() - tail.len()) =~= tail);
            assert(notices@.subrange(first.len() as int, notices@.len() - tail.len()) =~= st);
        }
        (true, notices)
    }

    /// Enable or disable context `id` for process `own`, then recompute statuses; returns
    /// whether it was found and editable, and the status messages.
    pub fn enable(&mut self, id: usize, enabled: bool, own: u32) -> (r: (bool, Vec<Notice>))
        requires
            old(self).wf(),
        ensures
            final(self).wf(),
            only_contexts_changed(old(self)@, final(self)@),
            ({
                let c = old(self).contexts@;
                let allowed = exists|k: int|
                    0 <= k < CONTEXTS && (#[trigger] c[k]).id != 0 && c[k].id as usize == id && spec_can_edit(
                        old(self).managers@,
                        c[k],
                        own,
                    );
                match find_open(c, id, 2) {
                    Some(i) if allowed => {
                        let changed = c.update(i, with_enabled(c[i], enabled));
                        &&& r.0
                        &&& final(self).contexts@ == statused(changed)
                        &&& status_report(changed, old(self).managers@, r.1@)
                    },
                    _ => !r.0 && r.1@.len() == 0 && final(self)@ == old(self)@,
                }
            }),
    {
        let mut allowed = false;
        let mut k: usize = 0;
        while k < CONTEXTS
            invariant
                k <= CONTEXTS,
                self.wf(),
                allowed <==> exists|j: int|
                    0 <= j < k && (#[trigger] self.contexts@[j]).id != 0 && self.contexts@[j].id as usize == id
                        && spec_can_edit(self.managers@, self.contexts@[j], own),
            decreases CONTEXTS - k,
        {
            let r = self.contexts[k];
            if r.id != 0 && r.id as usize == id && self.can_edit(&r, own) {
                allowed = true;
            }
            k += 1;
        }
        if !allowed {
            return (false, Vec::new());
        }
        let i = match self.open_slot(id) {
            Some(i) => i,
            None => {
                return (false, Vec::new());
            },
        };
        let flag: u32 = if enabled { 1 } else { 0 };
        let ghost c = self.contexts@;
        if self.contexts[i].enabled != flag {
            self.contexts[i].enabled = flag;
            self.contexts[i].revision = self.contexts[i].revision.wrapping_add(1);
        }
        assert(self.contexts@ =~= c.update(i as int, with_enabled(c[i as int], enabled)));
        let notices = self.status();
        (true, notices)
    }

    /// Move context `id` to the top of the overlap order, or below every context.
    pub fn overlap(&mut self, id: usize, top: bool, own: u32) -> (r: (bool, Vec<Notice>))
        requires
            old(self).wf(),
            old(self).order < i64::MAX,
            forall|j: int| 2 <= j < CONTEXTS ==> (#[trigger] old(self).contexts@[j]).order > i64::MIN,
        ensures
            final(self).wf(),
            match find_open(old(self).contexts@, id, 2) {
                Some(i) if spec_can_edit(old(self).managers@, old(self).contexts@[i], own) => {
                    let c = old(self).contexts@;
                    let order = if top { old(self).order + 1 } else { lowest_order(c, CONTEXTS as int) - 1 };
                    let moved = c.update(i, Record { order: order as i64, ..c[i] });
                    &&& r.0
                    &&& final(self).contexts@ == statused(moved)
                    &&& status_report(moved, old(self).managers@, r.1@)
                    &&& final(self)@ == (DataView {
                        contexts: final(self).contexts@,
                        order: if top { (old(self).order + 1) as i64 } else { old(self).order },
                        ..old(self)@
                    })
                },
                _ => !r.0 && r.1@.len() == 0 && final(self)@ == old(self)@,
            },
    {
        let i = match self.open_slot(id) {
            Some(i) => i,
            None => {
                return (false, Vec::new());
            },
        };
        let r = self.contexts[i];
        if !self.can_edit(&r, own) {
            return (false, Vec::new());
        }
        if top {
            self.order = self.order + 1;
            self.contexts[i].order = self.order;
        } else {
            let mut lowest = self.contexts[2].order;
            let mut j: usize = 3;
            while j < CONTEXTS
                invariant
                    3 <= j <= CONTEXTS,
                    self.wf(),
                    lowest == lowest_order(self.contexts@, j as int),
                decreases CONTEXTS - j,
            {
                if self.contexts[j].order < lowest {
                    lowest = self.contexts[j].order;
                }
                j += 1;
            }
            assert(lowest > i64::MIN) by {
                lemma_lowest_order_is_one(old(self).contexts@, CONTEXTS as int);
            }
            self.contexts[i].order = lowest - 1;
        }
        let notices = self.status();
        (true, notices)
    }

    /// Resize the packet queue of context `id`; a resize discards queued packets, which
    /// the revision signals.
    pub fn queue_capacity(&mut self, id: usize, capacity: usize, own: u32) -> (r: bool)
        requires
            old(self).wf(),
        ensures
            final(self).wf(),
            only_contexts_changed(old(self)@, final(self)@),
            match find_editable(old(self).contexts@, old(self).managers@, id, own, 2) {
                Some(i) => {
                    let c = old(self).contexts@;
                    &&& r
                    &&& final(self).contexts@ == c.update(
                        i,
                        Record {
                            queue_capacity: capacity as u32,
                            revision: vstd::wrapping::u32_specs::wrapping_add(c[i].revision, 1),
                            ..c[i]
                        },
                    )
                },
                None => !r && final(self)@ == old(self)@,
            },
    {
        match self.editable_slot(id, own) {
            Some(i) => {
                self.contexts[i].queue_capacity = capacity as u32;
                self.contexts[i].revision = self.contexts[i].revision.wrapping_add(1);
                true
            },
            None => false,
        }
    }

    /// Set which cursors context `id` receives; returns whether it changed, and the
    /// change message.
    pub fn cursor_mask(&mut self, id: usize, mask: [u8; 16], own: u32) -> (r: (bool, Vec<Notice>))
        requires
            old(self).wf(),
        ensures
            final(self).wf(),
            only_contexts_changed(old(self)@, final(self)@),
            match find_editable(old(self).contexts@, old(self).managers@, id, own, 2) {
                Some(i) => {
                    let c = old(self).contexts@;
                    let changed = Record {
                        cursor_mask: mask,
                        revision: vstd::wrapping::u32_specs::wrapping_add(c[i].revision, 1),
                        ..c[i]
                    };
                    &&& r.0
                    &&& final(self).contexts@ == c.update(i, changed)
                    &&& r.1@ == record_notices(changed, old(self).managers@, 3, id, changed.words@[1] as isize)
                },
                None => !r.0 && r.1@.len() == 0 && final(self)@ == old(self)@,
            },
    {
        match self.editable_slot(id, own) {
            Some(i) => {
                self.contexts[i].cursor_mask = mask;
                self.contexts[i].revision = self.contexts[i].revision.wrapping_add(1);
                let r = self.contexts[i];
                let mut notices: Vec<Notice> = Vec::new();
                notify(&mut notices, &r, &self.managers, 3, id, r.words[1] as isize);
                (true, notices)
            },
            None => (false, Vec::new()),
        }
    }
}

} // verus!
