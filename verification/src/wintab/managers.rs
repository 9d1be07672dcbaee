//! Manager handles and the session-wide cursor preferences they change. A manager call
//! hands its array arguments over as what the caller passed: nothing, the defaults, or
//! values.
use vstd::prelude::*;
use super::contexts::{find_any, info_notices, info_param, only_contexts_changed, spec_get, spec_is_manager};
use super::session::{
    Cursor, Data, DataView, MANAGERS, Manager, Notice, CONTEXTS, Record, manager_notices, default_response,
    sorted_members, live_slots, collect_live, sort_slots, lemma_live_slots,
};

verus! {

/// An array argument as the caller passed it.
pub enum Supplied<T> {
    /// A null pointer: leave the value unchanged.
    Absent,
    /// The all-ones pointer: restore the default.
    Default,
    /// Values to set.
    Given(T),
}

/// How a manager call ended.
#[derive(Debug, PartialEq, Eq)]
pub enum MgrOutcome {
    /// Refused: not a manager handle of this process, or an argument out of range.
    Refused,
    /// A capability this provider does not offer.
    Unsupported,
    /// Done; the messages to post.
    Done(Vec<Notice>),
}

pub enum MgrView {
    Refused,
    Unsupported,
    Done(Seq<Notice>),
}

impl View for MgrOutcome {
    type V = MgrView;

    open spec fn view(&self) -> MgrView {
        match self {
            MgrOutcome::Refused => MgrView::Refused,
            MgrOutcome::Unsupported => MgrView::Unsupported,
            MgrOutcome::Done(n) => MgrView::Done(n@),
        }
    }
}

/// The first free manager slot from `from` on.
pub open spec fn free_manager(ms: Seq<Manager>, from: int) -> Option<int>
    decreases MANAGERS - from,
{
    if from >= MANAGERS || from < 0 {
        None
    } else if ms[from].id == 0 {
        Some(from)
    } else {
        free_manager(ms, from + 1)
    }
}

/// The first manager slot from `from` on with handle `id`.
pub open spec fn manager_slot(ms: Seq<Manager>, id: usize, from: int) -> Option<int>
    decreases MANAGERS - from,
{
    if from >= MANAGERS || from < 0 {
        None
    } else if ms[from].id as usize == id {
        Some(from)
    } else {
        manager_slot(ms, id, from + 1)
    }
}

proof fn lemma_free_manager(ms: Seq<Manager>, from: int)
    ensures
        free_manager(ms, from) matches Some(i) ==> from <= i < MANAGERS && ms[i].id == 0,
    decreases MANAGERS - from,
{
    if 0 <= from < MANAGERS {
        lemma_free_manager(ms, from + 1);
    }
}

proof fn lemma_manager_slot(ms: Seq<Manager>, id: usize, from: int)
    ensures
        manager_slot(ms, id, from) matches Some(i) ==> from <= i < MANAGERS && ms[i].id as usize == id,
    decreases MANAGERS - from,
{
    if 0 <= from < MANAGERS {
        lemma_manager_slot(ms, id, from + 1);
    }
}

/// The identity logical button map.
pub open spec fn default_button_map() -> Seq<u8> {
    Seq::new(32, |i: int| i as u8)
}

/// Tip and barrel clicking the left and right mouse buttons.
pub open spec fn default_system_map() -> Seq<u8> {
    Seq::new(32, |i: int| if i == 0 { 1u8 } else if i == 1 { 4u8 } else { 0u8 })
}

/// A value as the session keeps it after a call that passed `arg`.
pub open spec fn resolved<T>(arg: Supplied<T>, current: T, default: T) -> T {
    match arg {
        Supplied::Absent => current,
        Supplied::Default => default,
        Supplied::Given(v) => v,
    }
}

/// The information-change messages of a manager call about `category`/`index`.
pub open spec fn change_notices(d: DataView, manager: usize, category: u32, index: u32) -> Seq<Notice> {
    info_notices(d.contexts, manager, info_param(category, index), CONTEXTS as int) + manager_notices(
        d.managers,
        6,
        manager,
        info_param(category, index),
    )
}

/// `b` is `a` with new cursors and a new revision at most.
pub open spec fn only_cursors_changed(a: DataView, b: DataView) -> bool {
    b == (DataView { cursors: b.cursors, revision: b.revision, ..a })
}

/// Some value of `m` exceeds `limit`.
pub open spec fn exceeds<T: Copy>(m: Seq<T>, limit: int, value: spec_fn(T) -> int) -> bool {
    exists|i: int| 0 <= i < m.len() && value(#[trigger] m[i]) > limit
}

pub open spec fn byte_value(b: u8) -> int {
    b as int
}

pub open spec fn word_value(w: u32) -> int {
    w as int
}

fn bytes_within(m: &[u8; 32], limit: u8) -> (r: bool)
    ensures
        r == !exceeds(m@, limit as int, |b: u8| byte_value(b)),
{
    let mut i: usize = 0;
    while i < 32
        invariant
            i <= 32,
            forall|k: int| 0 <= k < i ==> #[trigger] m@[k] <= limit,
        decreases 32 - i,
    {
        if m[i] > limit {
            assert((|b: u8| byte_value(b))(m@[i as int]) > limit);
            return false;
        }
        i += 1;
    }
    true
}

fn words_within(t: &[u32], limit: u32) -> (r: bool)
    ensures
        r == !exceeds(t@, limit as int, |w: u32| word_value(w)),
{
    let mut i: usize = 0;
    while i < t.len()
        invariant
            i <= t@.len(),
            forall|k: int| 0 <= k < i ==> #[trigger] t@[k] <= limit,
        decreases t@.len() - i,
    {
        if t[i] > limit {
            assert((|w: u32| word_value(w))(t@[i as int]) > limit);
            return false;
        }
        i += 1;
    }
    true
}

/// The default base for a manager's messages.
pub const MANAGER_BASE: u32 = 0x7ff0;

/// The virtual ids of the default contexts: digitizing, system, and the same for the
/// device-specific query.
pub const DEFAULT_CONTEXT: usize = 0x7fff0001;

impl Data {
    fn manager_index(&self, id: usize) -> (r: Option<usize>)
        requires
            self.wf(),
        ensures
            r matches Some(i) ==> manager_slot(self.managers@, id, 0) == Some(i as int) && i < MANAGERS,
            r is None ==> manager_slot(self.managers@, id, 0) is None,
    {
        proof {
            lemma_manager_slot(self.managers@, id, 0);
        }
        let mut i: usize = 0;
        while i < MANAGERS && self.managers[i].id as usize != id
            invariant
                i <= MANAGERS,
                self.wf(),
                manager_slot(self.managers@, id, 0) == manager_slot(self.managers@, id, i as int),
            decreases MANAGERS - i,
        {
            i += 1;
        }
        if i == MANAGERS {
            None
        } else {
            Some(i)
        }
    }

    /// Open a manager handle for process `own`, posting to `window` (which must exist
    /// when given) at `base` (the default base for 0). Returns the handle, or 0 when the
    /// base is out of range, the window is gone or every slot is taken. Callers prune
    /// first.
    pub fn open_manager(&mut self, window: u64, window_exists: bool, base: u32, own: u32) -> (id: usize)
        requires
            old(self).wf(),
        ensures
            final(self).wf(),
            (base > 0xfff0 || !window_exists || free_manager(old(self).managers@, 0) is None) ==> id == 0
                && final(self)@ == old(self)@,
            !(base > 0xfff0 || !window_exists || free_manager(old(self).managers@, 0) is None) ==> {
                let i = free_manager(old(self).managers@, 0)->0;
                &&& id != 0
                &&& final(self).managers@ == old(self).managers@.update(
                    i,
                    Manager { id: id as u32, pid: own, window, base: if base == 0 { MANAGER_BASE } else { base }, reserved: 0 },
                )
                &&& final(self)@ == (DataView { managers: final(self).managers@, next: final(self).next, ..old(self)@ })
            },
    {
        if base > 0xfff0 || !window_exists {
            return 0;
        }
        proof {
            lemma_free_manager(self.managers@, 0);
        }
        let mut i: usize = 0;
        while i < MANAGERS && self.managers[i].id != 0
            invariant
                i <= MANAGERS,
                self.wf(),
                self@ == old(self)@,
                free_manager(self.managers@, 0) == free_manager(self.managers@, i as int),
            decreases MANAGERS - i,
        {
            i += 1;
        }
        if i == MANAGERS {
            return 0;
        }
        let id = self.next_id();
        proof {
            let j = choose|j: nat|
                #![trigger super::contexts::candidate(old(self).next, j)]
                id == super::contexts::candidate(old(self).next, j) && !super::contexts::id_taken(
                    old(self).contexts@,
                    old(self).managers@,
                    id,
                ) && forall|k: nat|
                    k < j ==> super::contexts::id_taken(
                        old(self).contexts@,
                        old(self).managers@,
                        #[trigger] super::contexts::candidate(old(self).next, k),
                    );
            super::contexts::lemma_candidate_at_least_three(old(self).next, j);
        }
        self.managers.set(
            i,
            Manager { id, pid: own, window, base: if base == 0 { MANAGER_BASE } else { base }, reserved: 0 },
        );
        id as usize
    }

    /// Close manager handle `id` of process `own`.
    pub fn close_manager(&mut self, id: usize, own: u32) -> (r: bool)
        requires
            old(self).wf(),
        ensures
            final(self).wf(),
            r == spec_is_manager(old(self).managers@, id, own),
            r ==> {
                let i = manager_slot(old(self).managers@, id, 0)->0;
                &&& manager_slot(old(self).managers@, id, 0) is Some
                &&& final(self)@ == (DataView {
                    managers: old(self).managers@.update(i, Manager { id: 0, ..old(self).managers@[i] }),
                    ..old(self)@
                })
            },
            !r ==> final(self)@ == old(self)@,
    {
        if !self.manager(id, own) {
            return false;
        }
        proof {
            lemma_manager_slot_exists(self.managers@, id, own);
        }
        let i = self.manager_index(id).unwrap();
        self.managers[i].id = 0;
        true
    }

    /// Enable or disable cursor `cursor` (0 pen, 1 eraser) as manager `id`.
    pub fn enable_cursor(&mut self, id: usize, cursor: u32, enabled: bool, own: u32) -> (r: (bool, Vec<Notice>))
        requires
            old(self).wf(),
        ensures
            final(self).wf(),
            r.0 == (spec_is_manager(old(self).managers@, id, own) && cursor <= 1),
            !r.0 ==> r.1@.len() == 0 && final(self)@ == old(self)@,
            r.0 ==> {
                &&& only_cursors_changed(old(self)@, final(self)@)
                &&& final(self).revision == vstd::wrapping::u32_specs::wrapping_add(old(self).revision, 1)
                &&& final(self).cursors[cursor as int] == (Cursor {
                    enabled: if enabled { 1u32 } else { 0u32 },
                    ..old(self).cursors[cursor as int]
                })
                &&& final(self).cursors[1 - cursor] == old(self).cursors[1 - cursor]
                &&& r.1@ == change_notices(old(self)@, id, (200 + cursor) as u32, 2)
            },
    {
        if !self.manager(id, own) || cursor > 1 {
            return (false, Vec::new());
        }
        self.cursors[cursor as usize].enabled = if enabled { 1 } else { 0 };
        let notices = self.information_changed(id, 200 + cursor, 2);
        (true, notices)
    }

    /// Set the logical and system button maps of `cursor` as manager `id`. Logical
    /// buttons are 0 to 31; system codes above 9 are not offered.
    pub fn button_map(
        &mut self,
        id: usize,
        cursor: u32,
        logical: Supplied<[u8; 32]>,
        system: Supplied<[u8; 32]>,
        own: u32,
    ) -> (r: MgrOutcome)
        requires
            old(self).wf(),
        ensures
            final(self).wf(),
            ({
                let logical_map = match logical {
                    Supplied::Absent => None,
                    Supplied::Default => Some(default_button_map()),
                    Supplied::Given(a) => Some(a@),
                };
                let system_map = match system {
                    Supplied::Absent => None,
                    Supplied::Default => Some(default_system_map()),
                    Supplied::Given(a) => Some(a@),
                };
                if !spec_is_manager(old(self).managers@, id, own) || cursor > 1 || (logical_map is Some && exceeds(
                    logical_map->0,
                    31,
                    |b: u8| byte_value(b),
                )) {
                    r@ is Refused && final(self)@ == old(self)@
                } else if system_map is Some && exceeds(system_map->0, 9, |b: u8| byte_value(b)) {
                    r@ is Unsupported && final(self)@ == old(self)@
                } else {
                    let c = final(self).cursors[cursor as int];
                    &&& only_cursors_changed(old(self)@, final(self)@)
                    &&& final(self).revision == vstd::wrapping::u32_specs::wrapping_add(old(self).revision, 1)
                    &&& c.button_map@ == (match logical_map { Some(m) => m, None => old(self).cursors[cursor as int].button_map@ })
                    &&& c.system_map@ == (match system_map { Some(m) => m, None => old(self).cursors[cursor as int].system_map@ })
                    &&& c.enabled == old(self).cursors[cursor as int].enabled && c.marks == old(self).cursors[cursor as int].marks
                    &&& c.response == old(self).cursors[cursor as int].response
                    &&& c.response_custom == old(self).cursors[cursor as int].response_custom
                    &&& final(self).cursors[1 - cursor] == old(self).cursors[1 - cursor]
                    &&& r@ == MgrView::Done(change_notices(old(self)@, id, (200 + cursor) as u32, 7))
                }
            }),
    {
        if !self.manager(id, own) || cursor > 1 {
            return MgrOutcome::Refused;
        }
        let logical_map: Option<[u8; 32]> = match logical {
            Supplied::Absent => None,
            Supplied::Default => {
                let mut a = [0u8; 32];
                let mut i: usize = 0;
                while i < 32
                    invariant
                        i <= 32,
                        forall|k: int| 0 <= k < i ==> #[trigger] a@[k] == k as u8,
                    decreases 32 - i,
                {
                    a[i] = i as u8;
                    i += 1;
                }
                assert(a@ =~= default_button_map());
                Some(a)
            },
            Supplied::Given(a) => Some(a),
        };
        let system_map: Option<[u8; 32]> = match system {
            Supplied::Absent => None,
            Supplied::Default => {
                let mut a = [0u8; 32];
                a[0] = 1;
                a[1] = 4;
                assert(a@ =~= default_system_map());
                Some(a)
            },
            Supplied::Given(a) => Some(a),
        };
        if let Some(m) = logical_map {
            if !bytes_within(&m, 31) {
                return MgrOutcome::Refused;
            }
        }
        if let Some(m) = system_map {
            if !bytes_within(&m, 9) {
                return MgrOutcome::Unsupported;
            }
        }
        let k = cursor as usize;
        if let Some(m) = logical_map {
            self.cursors[k].button_map = m;
        }
        if let Some(m) = system_map {
            self.cursors[k].system_map = m;
        }
        let notices = self.information_changed(id, 200 + cursor, 7);
        MgrOutcome::Done(notices)
    }

    /// Set the pressure button marks (release, press) of `cursor` as manager `id`; a
    /// tangent pressure is not offered. Marks lie in 0..=4097.
    pub fn pressure_marks(&mut self, id: usize, cursor: u32, normal: Supplied<[u32; 2]>, tangent: Supplied<()>, own: u32) -> (r:
        MgrOutcome)
        requires
            old(self).wf(),
        ensures
            final(self).wf(),
            ({
                let marks = match normal {
                    Supplied::Absent => None,
                    Supplied::Default => Some(seq![0u32, 1u32]),
                    Supplied::Given(a) => Some(a@),
                };
                if !spec_is_manager(old(self).managers@, id, own) || cursor > 1 {
                    r@ is Refused && final(self)@ == old(self)@
                } else if tangent is Given {
                    r@ is Unsupported && final(self)@ == old(self)@
                } else if marks matches Some(m) && (m[0] > 4097 || m[1] > 4097) {
                    r@ is Refused && final(self)@ == old(self)@
                } else {
                    let c = final(self).cursors[cursor as int];
                    &&& only_cursors_changed(old(self)@, final(self)@)
                    &&& final(self).revision == vstd::wrapping::u32_specs::wrapping_add(old(self).revision, 1)
                    &&& c.marks@ == (match marks { Some(m) => m, None => old(self).cursors[cursor as int].marks@ })
                    &&& c == (Cursor { marks: c.marks, ..old(self).cursors[cursor as int] })
                    &&& final(self).cursors[1 - cursor] == old(self).cursors[1 - cursor]
                    &&& r@ == MgrView::Done(change_notices(old(self)@, id, (200 + cursor) as u32, 10))
                }
            }),
    {
        if !self.manager(id, own) || cursor > 1 {
            return MgrOutcome::Refused;
        }
        if let Supplied::Given(_) = tangent {
            return MgrOutcome::Unsupported;
        }
        let marks: Option<[u32; 2]> = match normal {
            Supplied::Absent => None,
            Supplied::Default => {
                let a = [0u32, 1u32];
                assert(a@ =~= seq![0u32, 1u32]);
                Some(a)
            },
            Supplied::Given(a) => Some(a),
        };
        if let Some(m) = marks {
            if m[0] > 4097 || m[1] > 4097 {
                return MgrOutcome::Refused;
            }
            self.cursors[cursor as usize].marks = m;
        }
        let notices = self.information_changed(id, 200 + cursor, 10);
        MgrOutcome::Done(notices)
    }

    /// Set the pressure response table of `cursor` as manager `id`; the default table is
    /// linear and marks the response as not customised. Values lie in 0..=4097.
    pub fn pressure_response(
        &mut self,
        id: usize,
        cursor: u32,
        normal: Supplied<[u32; 256]>,
        tangent: Supplied<()>,
        own: u32,
    ) -> (r: MgrOutcome)
        requires
            old(self).wf(),
        ensures
            final(self).wf(),
            ({
                let table = match normal {
                    Supplied::Absent => None,
                    Supplied::Default => Some(Seq::new(256, |i: int| default_response(i))),
                    Supplied::Given(a) => Some(a@),
                };
                if !spec_is_manager(old(self).managers@, id, own) || cursor > 1 {
                    r@ is Refused && final(self)@ == old(self)@
                } else if tangent is Given {
                    r@ is Unsupported && final(self)@ == old(self)@
                } else if table is Some && exceeds(table->0, 4097, |w: u32| word_value(w)) {
                    r@ is Refused && final(self)@ == old(self)@
                } else {
                    let c = final(self).cursors[cursor as int];
                    let before = old(self).cursors[cursor as int];
                    &&& only_cursors_changed(old(self)@, final(self)@)
                    &&& final(self).revision == vstd::wrapping::u32_specs::wrapping_add(old(self).revision, 1)
                    &&& c.response@ == (match table { Some(t) => t, None => before.response@ })
                    &&& c.response_custom == (match normal {
                        Supplied::Absent => before.response_custom,
                        Supplied::Default => 0u32,
                        Supplied::Given(_) => 1u32,
                    })
                    &&& c == (Cursor { response: c.response, response_custom: c.response_custom, ..before })
                    &&& final(self).cursors[1 - cursor] == old(self).cursors[1 - cursor]
                    &&& r@ == MgrView::Done(change_notices(old(self)@, id, (200 + cursor) as u32, 11))
                }
            }),
    {
        if !self.manager(id, own) || cursor > 1 {
            return MgrOutcome::Refused;
        }
        if let Supplied::Given(_) = tangent {
            return MgrOutcome::Unsupported;
        }
        let custom: u32 = match normal {
            Supplied::Given(_) => 1,
            _ => 0,
        };
        let table: Option<[u32; 256]> = match normal {
            Supplied::Absent => None,
            Supplied::Default => {
                let standard = Cursor::standard();
                assert(standard.response@ =~= Seq::new(256, |i: int| default_response(i)));
                Some(standard.response)
            },
            Supplied::Given(a) => Some(a),
        };
        if let Some(t) = table {
            if !words_within(t.as_slice(), 4097) {
                return MgrOutcome::Refused;
            }
            self.cursors[cursor as usize].response = t;
            self.cursors[cursor as usize].response_custom = custom;
        }
        let notices = self.information_changed(id, 200 + cursor, 11);
        MgrOutcome::Done(notices)
    }

    /// The out-of-bounds tracking extension (tag 0) as manager `id`: `data` is the flag
    /// the caller passed, if any. Returns whether it was set, and the messages.
    pub fn manager_extension(&mut self, id: usize, tag: u32, data: Option<i32>, own: u32) -> (r: (bool, Vec<Notice>))
        requires
            old(self).wf(),
        ensures
            final(self).wf(),
            r.0 == (spec_is_manager(old(self).managers@, id, own) && tag == 0 && data is Some),
            !r.0 ==> r.1@.len() == 0 && final(self)@ == old(self)@,
            r.0 ==> {
                &&& final(self)@ == (DataView {
                    out_of_bounds: if data->0 != 0 { 1u32 } else { 0u32 },
                    revision: vstd::wrapping::u32_specs::wrapping_add(old(self).revision, 1),
                    ..old(self)@
                })
                &&& r.1@ == change_notices(old(self)@, id, 301, 6)
            },
    {
        if !self.manager(id, own) || tag != 0 {
            return (false, Vec::new());
        }
        match data {
            None => (false, Vec::new()),
            Some(v) => {
                self.out_of_bounds = if v != 0 { 1 } else { 0 };
                let notices = self.information_changed(id, 301, 6);
                (true, notices)
            },
        }
    }

    /// The open client contexts from the top of the overlap order, for manager `id`;
    /// `None` for another caller. Callers prune first.
    pub fn context_ids(&self, id: usize, own: u32) -> (r: Option<Vec<u32>>)
        requires
            self.wf(),
        ensures
            r is None <==> !spec_is_manager(self.managers@, id, own),
            r matches Some(ids) ==> exists|ord: Seq<usize>|
                #![trigger sorted_members(self.contexts@, true, live_slots(self.contexts@, CONTEXTS as int), ord)]
                sorted_members(self.contexts@, true, live_slots(self.contexts@, CONTEXTS as int), ord)
                    && ids@ == ord.map_values(|i: usize| self.contexts@[i as int].id),
    {
        if !self.manager(id, own) {
            return None;
        }
        let members = collect_live(&self.contexts);
        proof {
            lemma_live_slots(self.contexts@, CONTEXTS as int);
        }
        let ord = sort_slots(&self.contexts, &members, true);
        let mut ids: Vec<u32> = Vec::new();
        let mut k: usize = 0;
        while k < ord.len()
            invariant
                k <= ord@.len(),
                self.wf(),
                forall|x: int| 0 <= x < ord@.len() ==> #[trigger] ord@[x] < self.contexts@.len(),
                ids@ == ord@.take(k as int).map_values(|i: usize| self.contexts@[i as int].id),
            decreases ord@.len() - k,
        {
            ids.push(self.contexts[ord[k]].id);
            proof {
                assert(ord@.take(k as int + 1).map_values(|i: usize| self.contexts@[i as int].id) =~= ord@.take(
                    k as int,
                ).map_values(|i: usize| self.contexts@[i as int].id).push(self.contexts@[ord@[k as int] as int].id));
            }
            k += 1;
        }
        assert(ord@.take(ord@.len() as int) =~= ord@);
        Some(ids)
    }

    /// The window owning `context`, for manager `id`; 0 when there is none or the caller
    /// is not a manager.
    pub fn context_owner(&self, id: usize, context: usize, own: u32) -> (r: u64)
        requires
            self.wf(),
        ensures
            r == (if spec_is_manager(self.managers@, id, own) {
                match spec_get(self.contexts@, context) {
                    Some(rec) => rec.window,
                    None => 0,
                }
            } else {
                0
            }),
    {
        if !self.manager(id, own) {
            return 0;
        }
        match self.get(context) {
            Some(rec) => rec.window,
            None => 0,
        }
    }

    /// The virtual id of a default context for manager `id` (0 for another caller):
    /// `device` 0 names the tablet's own defaults, all ones the general ones; any other
    /// device is unknown.
    pub fn default_context(&self, id: usize, device: u32, system: bool, own: u32) -> (r: usize)
        requires
            self.wf(),
        ensures
            r == (if spec_is_manager(self.managers@, id, own) && (device == 0 || device == u32::MAX) {
                (if device == 0 { DEFAULT_CONTEXT + 2 } else { DEFAULT_CONTEXT as int }) + if system { 1int } else { 0int }
            } else {
                0
            }),
    {
        if !self.manager(id, own) || !(device == 0 || device == u32::MAX) {
            return 0;
        }
        (if device == 0 { DEFAULT_CONTEXT + 2 } else { DEFAULT_CONTEXT }) + if system { 1 } else { 0 }
    }
}

/// The marks packed in one value by `WTMgrCsrPressureBtnMarks`: release in the low half,
/// press in the high half, all ones for the defaults; a tangent of all ones also means
/// the default, anything else leaves it unchanged.
pub fn packed_marks(normal: u32, tangent: u32) -> (r: (Supplied<[u32; 2]>, Supplied<()>))
    ensures
        normal == u32::MAX ==> r.0 is Default,
        normal != u32::MAX ==> (r.0 matches Supplied::Given(m) && m@ == seq![normal & 0xffff, normal >> 16]),
        tangent == u32::MAX ==> r.1 is Default,
        tangent != u32::MAX ==> r.1 is Absent,
{
    let marks = if normal == u32::MAX {
        Supplied::Default
    } else {
        let m = [normal & 0xffff, normal >> 16];
        assert(m@ =~= seq![normal & 0xffff, normal >> 16]);
        Supplied::Given(m)
    };
    let t = if tangent == u32::MAX { Supplied::Default } else { Supplied::Absent };
    (marks, t)
}

proof fn lemma_manager_slot_exists(ms: Seq<Manager>, id: usize, own: u32)
    requires
        spec_is_manager(ms, id, own),
        ms.len() == MANAGERS,
    ensures
        manager_slot(ms, id, 0) is Some,
{
    let k = choose|k: int| 0 <= k < ms.len() && (#[trigger] ms[k]).id as usize == id && ms[k].id != 0 && ms[k].pid == own;
    lemma_manager_slot_from(ms, id, 0, k);
}

proof fn lemma_manager_slot_from(ms: Seq<Manager>, id: usize, from: int, k: int)
    requires
        0 <= from <= k < MANAGERS,
        ms[k].id as usize == id,
    ensures
        manager_slot(ms, id, from) is Some,
    decreases k - from,
{
    if ms[from].id as usize != id {
        lemma_manager_slot_from(ms, id, from + 1, k);
    }
}

} // verus!
