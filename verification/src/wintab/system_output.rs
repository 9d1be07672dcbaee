//! System-context policy: which Windows input path a contact uses, and the classic
//! mouse-button events that system-button preferences ask for.
use vstd::prelude::*;
use super::session::Record;

verus! {

/// Windows mouse-input event flags (MOUSEEVENTF_*) for the three buttons.
pub const LEFT_DOWN: u32 = 0x0002;
pub const LEFT_UP: u32 = 0x0004;
pub const RIGHT_DOWN: u32 = 0x0008;
pub const RIGHT_UP: u32 = 0x0010;
pub const MIDDLE_DOWN: u32 = 0x0020;
pub const MIDDLE_UP: u32 = 0x0040;

pub open spec fn spec_requests_system_pen(records: Seq<Record>, foreground: u32) -> bool {
    foreground != 0 && exists|k: int|
        0 <= k < records.len() && {
            let r = #[trigger] records[k];
            r.id != 0 && r.pid == foreground && r.enabled != 0 && r.words@[0] & 1 != 0 && r.words@[6] & 0x400 != 0
        }
}

/// A foreground client explicitly requesting a pressure-enabled system context needs
/// classic system mouse events alongside its WinTab pressure packets. Context discovery
/// alone does not select this path.
pub fn requests_system_pen(records: &[Record], foreground: u32) -> (r: bool)
    ensures
        r == spec_requests_system_pen(records@, foreground),
{
    if foreground == 0 {
        return false;
    }
    let mut k: usize = 0;
    while k < records.len()
        invariant
            k <= records@.len(),
            foreground != 0,
            forall|j: int| 0 <= j < k ==> {
                let r = #[trigger] records@[j];
                !(r.id != 0 && r.pid == foreground && r.enabled != 0 && r.words@[0] & 1 != 0 && r.words@[6] & 0x400 != 0)
            },
        decreases records@.len() - k,
    {
        let r = &records[k];
        if r.id != 0 && r.pid == foreground && r.enabled != 0 && r.words[0] & 1 != 0 && r.words[6] & 0x400 != 0 {
            return true;
        }
        k += 1;
    }
    false
}

/// Keeps one Windows input path for an entire contact, including its release.
#[derive(Default)]
pub struct InputRoute {
    pub mouse: bool,
    pub contact: bool,
}

impl InputRoute {
    pub fn new() -> (r: Self)
        ensures
            !r.mouse && !r.contact,
    {
        InputRoute { mouse: false, contact: false }
    }

    /// The path may change only between contacts: while the previous sample was in
    /// contact, the earlier choice stands.
    pub fn update(&mut self, requested: bool, contact: bool) -> (mouse: bool)
        ensures
            final(self).mouse == if old(self).contact { old(self).mouse } else { requested },
            final(self).contact == contact,
            mouse == final(self).mouse,
    {
        if !self.contact {
            self.mouse = requested;
        }
        self.contact = contact;
        self.mouse
    }
}

pub open spec fn spec_mouse_flag(button: int, down: bool) -> u32 {
    if button == 0 {
        if down { LEFT_DOWN } else { LEFT_UP }
    } else if button == 1 {
        if down { RIGHT_DOWN } else { RIGHT_UP }
    } else {
        if down { MIDDLE_DOWN } else { MIDDLE_UP }
    }
}

/// The mouse event for pressing or releasing button 0 (left), 1 (right) or 2 (middle).
pub fn mouse_flag(button: usize, down: bool) -> (r: u32)
    ensures
        r == spec_mouse_flag(button as int, down),
{
    if button == 0 {
        if down { LEFT_DOWN } else { LEFT_UP }
    } else if button == 1 {
        if down { RIGHT_DOWN } else { RIGHT_UP }
    } else {
        if down { MIDDLE_DOWN } else { MIDDLE_UP }
    }
}

/// Button and direction of a mouse event flag.
pub open spec fn spec_flag_button(flag: u32) -> Option<(usize, bool)> {
    if flag == LEFT_DOWN { Some((0, true)) }
    else if flag == LEFT_UP { Some((0, false)) }
    else if flag == RIGHT_DOWN { Some((1, true)) }
    else if flag == RIGHT_UP { Some((1, false)) }
    else if flag == MIDDLE_DOWN { Some((2, true)) }
    else if flag == MIDDLE_UP { Some((2, false)) }
    else { None }
}

pub fn flag_button(flag: u32) -> (r: Option<(usize, bool)>)
    ensures
        r == spec_flag_button(flag),
        r matches Some((b, d)) ==> b < 3 && spec_mouse_flag(b as int, d) == flag,
{
    if flag == LEFT_DOWN { Some((0, true)) }
    else if flag == LEFT_UP { Some((0, false)) }
    else if flag == RIGHT_DOWN { Some((1, true)) }
    else if flag == RIGHT_UP { Some((1, false)) }
    else if flag == MIDDLE_DOWN { Some((2, true)) }
    else if flag == MIDDLE_UP { Some((2, false)) }
    else { None }
}

/// Release events for every held button among the first `nb`.
pub open spec fn release_events(held: u32, nb: int) -> Seq<u32>
    decreases nb,
{
    if nb <= 0 {
        seq![]
    } else {
        release_events(held, nb - 1) + if held & (1u32 << (nb - 1) as u32) != 0 {
            seq![spec_mouse_flag(nb - 1, false)]
        } else {
            seq![]
        }
    }
}

pub open spec fn index_bit(i: int) -> u32 {
    1u32 << (i as u32)
}

/// The first `n` physical-button preferences applied: click codes hold their button while
/// pressed, double-click codes emit two clicks on a new press (unless that button is held),
/// drag codes toggle a latched button on a new press. Returns (held, drag, events).
pub open spec fn scan(mapping: Seq<u8>, pressed: u32, down: u32, prior_held: u32, drag0: u32, n: int) -> (u32, u32, Seq<u32>)
    decreases n,
{
    if n <= 0 {
        (drag0, drag0, seq![])
    } else {
        let (held, drag, events) = scan(mapping, pressed, down, prior_held, drag0, n - 1);
        let code = mapping[n - 1];
        if !(1 <= code <= 9) {
            (held, drag, events)
        } else {
            let button = (code - 1) / 3;
            let bit = 1u32 << (button as u32);
            let kind = (code - 1) % 3;
            if kind == 0 {
                if pressed & index_bit(n - 1) != 0 { (held | bit, drag, events) } else { (held, drag, events) }
            } else if kind == 1 {
                if down & index_bit(n - 1) != 0 && prior_held & bit == 0 {
                    (held, drag, events + seq![
                        spec_mouse_flag(button, true),
                        spec_mouse_flag(button, false),
                        spec_mouse_flag(button, true),
                        spec_mouse_flag(button, false),
                    ])
                } else {
                    (held, drag, events)
                }
            } else {
                if down & index_bit(n - 1) != 0 { (held, drag ^ bit, events) } else { (held, drag, events) }
            }
        }
    }
}

/// Some physical button mapped to a plain click of `button` is pressed.
pub open spec fn click_held(mapping: Seq<u8>, pressed: u32, button: int) -> bool {
    exists|i: int| 0 <= i < 32 && #[trigger] mapping[i] == button * 3 + 1 && pressed & index_bit(i) != 0
}

/// Unlatched buttons without a held click are released; each change of the first `nb`
/// buttons relative to `prior` is reported. Returns (held, events).
pub open spec fn finish(mapping: Seq<u8>, pressed: u32, drag: u32, prior: u32, held: u32, nb: int) -> (u32, Seq<u32>)
    decreases nb,
{
    if nb <= 0 {
        (held, seq![])
    } else {
        let (h, events) = finish(mapping, pressed, drag, prior, held, nb - 1);
        let bit = 1u32 << ((nb - 1) as u32);
        let h2 = if !click_held(mapping, pressed, nb - 1) && drag & bit == 0 { h & !bit } else { h };
        (h2, events + if (h2 ^ prior) & bit != 0 { seq![spec_mouse_flag(nb - 1, h2 & bit != 0)] } else { seq![] })
    }
}

/// `after` and `events` are the result of planning `pressed` under `mapping` from `before`:
/// when inactive, or when the mapping changed, every held button is released first; then
/// (when active) the preferences are applied in physical-button order and every change of a
/// system button is reported.
pub open spec fn planned(before: ButtonPlan, after: ButtonPlan, pressed: u32, mapping: [u8; 32], active: bool, events: Seq<u32>) -> bool {
    let reset = !active || before.mapping@ != mapping@;
    let ev0 = if reset { release_events(before.held, 3) } else { seq![] };
    let held0: u32 = if reset { 0 } else { before.held };
    let drag0: u32 = if reset { 0 } else { before.drag };
    let prev0: u32 = if reset { 0 } else { before.previous };
    &&& after.mapping@ == mapping@
    &&& !active ==> {
        &&& events == ev0
        &&& after.held == 0 && after.drag == 0 && after.previous == 0
    }
    &&& active ==> {
        let down = pressed & !prev0;
        let (h, d, ev1) = scan(mapping@, pressed, down, held0, drag0, 32);
        let (h2, ev2) = finish(mapping@, pressed, d, held0, h | d, 3);
        &&& events == ev0 + ev1 + ev2
        &&& after.held == h2
        &&& after.drag == d
        &&& after.previous == pressed
    }
}

/// Tracks which system mouse buttons the feeder holds on behalf of the pen's
/// system-button preferences (codes 1..9: click, double click, drag for left, right, middle).
#[derive(Default)]
pub struct ButtonPlan {
    pub previous: u32,
    pub held: u32,
    pub drag: u32,
    pub mapping: [u8; 32],
}

impl ButtonPlan {
    pub fn new() -> (r: Self)
        ensures
            r.previous == 0 && r.held == 0 && r.drag == 0 && r.mapping@ == seq![0u8; 32],
    {
        let r = ButtonPlan { previous: 0, held: 0, drag: 0, mapping: [0u8; 32] };
        assert(r.mapping@ =~= seq![0u8; 32]);
        r
    }

    /// The mouse events for the physical buttons `pressed` (one bit per logical button) under
    /// `mapping`. When inactive, or when the mapping changed, every held button is released first.
    pub fn update(&mut self, pressed: u32, mapping: [u8; 32], active: bool) -> (events: Vec<u32>)
        ensures
            planned(*old(self), *final(self), pressed, mapping, active, events@),
    {
        self.update_plan(pressed, mapping, active)
    }

    fn update_plan(&mut self, pressed: u32, mapping: [u8; 32], active: bool) -> (events: Vec<u32>)
        ensures
            ({
                let reset = !active || old(self).mapping@ != mapping@;
                let ev0 = if reset { release_events(old(self).held, 3) } else { seq![] };
                let held0: u32 = if reset { 0 } else { old(self).held };
                let drag0: u32 = if reset { 0 } else { old(self).drag };
                let prev0: u32 = if reset { 0 } else { old(self).previous };
                &&& final(self).mapping@ == mapping@
                &&& !active ==> {
                    &&& events@ == ev0
                    &&& final(self).held == 0 && final(self).drag == 0 && final(self).previous == 0
                }
                &&& active ==> {
                    let down = pressed & !prev0;
                    let (h, d, ev1) = scan(mapping@, pressed, down, held0, drag0, 32);
                    let (h2, ev2) = finish(mapping@, pressed, d, held0, h | d, 3);
                    &&& events@ == ev0 + ev1 + ev2
                    &&& final(self).held == h2
                    &&& final(self).drag == d
                    &&& final(self).previous == pressed
                }
            }),
    {
        let mut events: Vec<u32> = Vec::new();
        let mut same = true;
        let mut k: usize = 0;
        while k < 32
            invariant
                k <= 32,
                same <==> forall|j: int| 0 <= j < k ==> self.mapping@[j] == mapping@[j],
            decreases 32 - k,
        {
            if self.mapping[k] != mapping[k] {
                same = false;
            }
            k += 1;
        }
        assert(same <==> self.mapping@ == mapping@) by {
            if same {
                assert(self.mapping@ =~= mapping@);
            }
        }
        if !active || !same {
            let mut button: usize = 0;
            while button < 3
                invariant
                    button <= 3,
                    self.held == old(self).held,
                    events@ == release_events(old(self).held, button as int),
                decreases 3 - button,
            {
                if self.held & (1u32 << button as u32) != 0 {
                    events.push(mouse_flag(button, false));
                }
                button += 1;
            }
            self.held = 0;
            self.drag = 0;
            self.previous = 0;
            self.mapping = mapping;
        }
        if !active {
            return events;
        }
        let ghost ev0 = events@;
        let prior_held = self.held;
        let drag0 = self.drag;
        let down = pressed & !self.previous;
        let mut held = self.drag;
        let mut i: usize = 0;
        while i < 32
            invariant
                i <= 32,
                self.mapping@ == mapping@,
                (held, self.drag, events@.skip(ev0.len() as int)) == scan(mapping@, pressed, down, prior_held, drag0, i as int),
                events@.len() >= ev0.len(),
                events@.take(ev0.len() as int) == ev0,
            decreases 32 - i,
        {
            let ghost before = events@;
            let code = mapping[i];
            if 1 <= code && code <= 9 {
                let button = ((code - 1) / 3) as usize;
                let bit: u32 = 1u32 << button as u32;
                let kind = (code - 1) % 3;
                if kind == 0 {
                    if pressed & (1u32 << i as u32) != 0 {
                        held = held | bit;
                    }
                } else if kind == 1 {
                    if down & (1u32 << i as u32) != 0 && prior_held & bit == 0 {
                        events.push(mouse_flag(button, true));
                        events.push(mouse_flag(button, false));
                        events.push(mouse_flag(button, true));
                        events.push(mouse_flag(button, false));
                    }
                } else {
                    if down & (1u32 << i as u32) != 0 {
                        self.drag = self.drag ^ bit;
                    }
                }
            }
            proof {
                assert(events@.skip(ev0.len() as int) =~= before.skip(ev0.len() as int) + events@.skip(before.len() as int));
                assert(events@.take(ev0.len() as int) =~= ev0);
            }
            i += 1;
        }
        held = held | self.drag;
        let ghost ev1 = events@;
        let ghost h_scan = held;
        let mut button: usize = 0;
        while button < 3
            invariant
                button <= 3,
                self.mapping@ == mapping@,
                (held, events@.skip(ev1.len() as int)) == finish(mapping@, pressed, self.drag, prior_held, h_scan, button as int),
                events@.len() >= ev1.len(),
                events@.take(ev1.len() as int) == ev1,
            decreases 3 - button,
        {
            let ghost before = events@;
            let bit: u32 = 1u32 << button as u32;
            let mut click = false;
            let mut j: usize = 0;
            while j < 32
                invariant
                    j <= 32,
                    button < 3,
                    click <==> exists|x: int| 0 <= x < j && #[trigger] mapping@[x] == button * 3 + 1
                        && pressed & index_bit(x) != 0,
                decreases 32 - j,
            {
                if mapping[j] == button as u8 * 3 + 1 && pressed & (1u32 << j as u32) != 0 {
                    click = true;
                }
                j += 1;
            }
            if !click && self.drag & bit == 0 {
                held = held & !bit;
            }
            if (held ^ prior_held) & bit != 0 {
                events.push(mouse_flag(button, held & bit != 0));
            }
            proof {
                assert(events@.skip(ev1.len() as int) =~= before.skip(ev1.len() as int) + events@.skip(before.len() as int));
                assert(events@.take(ev1.len() as int) =~= ev1);
            }
            button += 1;
        }
        self.held = held;
        self.previous = pressed;
        proof {
            assert(events@ =~= ev0 + ev1.skip(ev0.len() as int) + events@.skip(ev1.len() as int));
        }
        events
    }
}

/// The manager left the default logical button order.
pub open spec fn identity_map(m: Seq<u8>) -> bool {
    forall|i: int| 0 <= i < 32 ==> #[trigger] m[i] == i
}

/// The default system-button preferences: tip clicks left, barrel clicks right.
pub open spec fn default_system_map(m: Seq<u8>) -> bool {
    forall|i: int| 0 <= i < 32 ==> #[trigger] m[i] == (if i == 0 { 1u8 } else if i == 1 { 4u8 } else { 0u8 })
}

/// Logical buttons of the physical tip (bit 0) and barrel (bit 1) under a button map.
pub open spec fn mapped_pressed(physical: u32, logical: Seq<u8>) -> u32 {
    (if physical & 1 != 0 { 1u32 << logical[0] } else { 0 }) | (if physical & 2 != 0 { 1u32 << logical[1] } else { 0 })
}

/// What preparing a sample does to the system-button state (plan, owned buttons, pending
/// events), from `before` to `after`, where `mouse` says the contact uses the classic mouse
/// path: `custom` says whether the preferences (or the mouse path) ask for system mouse
/// functions; without preferences nothing changes; owned buttons never change here; with
/// preferences the plan takes the mapped pressed buttons.
pub open spec fn prepare_effect(
    before: (ButtonPlan, u32, Seq<u32>),
    after: (ButtonPlan, u32, Seq<u32>),
    preference: Option<([u8; 32], [u8; 32])>,
    physical: u32,
    in_range: bool,
    mouse: bool,
    custom: bool,
) -> bool {
    &&& custom == match preference {
        Some((logical, system)) => mouse || !identity_map(logical@) || !default_system_map(system@),
        None => false,
    }
    &&& preference is None ==> after.0 == before.0 && after.2 == before.2
    &&& after.1 == before.1
    &&& preference matches Some((logical, system)) ==> planned(
        before.0,
        after.0,
        mapped_pressed(physical, logical@),
        system,
        custom && in_range,
        after.2,
    )
}

/// System mouse buttons the feeder holds for WinTab system-button preferences, and the
/// events waiting for dispatch after the matching pen position is submitted.
#[derive(Default)]
pub struct SystemButtons {
    pub plan: ButtonPlan,
    pub owned: u32,
    pub pending: Vec<u32>,
}

impl SystemButtons {
    pub fn new() -> (r: Self)
        ensures
            r.owned == 0,
            r.pending@.len() == 0,
            r.plan.previous == 0 && r.plan.held == 0 && r.plan.drag == 0,
    {
        SystemButtons { plan: ButtonPlan::new(), owned: 0, pending: Vec::new() }
    }

    /// Plan the system-button events for this sample: exactly what
    /// `prepare_with_route` does off the classic mouse path. `preference` is the session's
    /// (logical button map, system button map) of the cursor in use, when available.
    /// Returns true when native pen button promotion must be suppressed because a
    /// manager explicitly chose different system mouse functions.
    pub fn prepare(&mut self, preference: Option<([u8; 32], [u8; 32])>, physical: u32, in_range: bool) -> (custom: bool)
        requires
            preference matches Some((logical, _)) ==> (physical & 1 != 0 ==> logical@[0] < 32) && (physical & 2 != 0
                ==> logical@[1] < 32),
        ensures
            prepare_effect(
                (old(self).plan, old(self).owned, old(self).pending@),
                (final(self).plan, final(self).owned, final(self).pending@),
                preference,
                physical,
                in_range,
                false,
                custom,
            ),
    {
        self.prepare_with_route(preference, physical, in_range, false)
    }

    /// As [`Self::prepare`], where `mouse` says the contact uses the classic mouse path,
    /// which always takes system-button preferences into account.
    pub fn prepare_with_route(
        &mut self,
        preference: Option<([u8; 32], [u8; 32])>,
        physical: u32,
        in_range: bool,
        mouse: bool,
    ) -> (custom: bool)
        requires
            preference matches Some((logical, _)) ==> (physical & 1 != 0 ==> logical@[0] < 32) && (physical & 2 != 0
                ==> logical@[1] < 32),
        ensures
            prepare_effect(
                (old(self).plan, old(self).owned, old(self).pending@),
                (final(self).plan, final(self).owned, final(self).pending@),
                preference,
                physical,
                in_range,
                mouse,
                custom,
            ),
    {
        let (logical, system) = match preference {
            Some(p) => p,
            None => {
                return false;
            },
        };
        let mut identity = true;
        let mut standard = true;
        let mut i: usize = 0;
        while i < 32
            invariant
                i <= 32,
                identity <==> forall|j: int| 0 <= j < i ==> #[trigger] logical@[j] == j,
                standard <==> forall|j: int| 0 <= j < i ==> #[trigger] system@[j]
                    == (if j == 0 { 1u8 } else if j == 1 { 4u8 } else { 0u8 }),
            decreases 32 - i,
        {
            if logical[i] as usize != i {
                identity = false;
            }
            let expected: u8 = if i == 0 { 1 } else if i == 1 { 4 } else { 0 };
            if system[i] != expected {
                standard = false;
            }
            i += 1;
        }
        let custom = mouse || !identity || !standard;
        let b0: u32 = if physical & 1 != 0 { 1u32 << logical[0] } else { 0 };
        let b1: u32 = if physical & 2 != 0 { 1u32 << logical[1] } else { 0 };
        let pressed = b0 | b1;
        self.pending = self.plan.update(pressed, system, custom && in_range);
        custom
    }

    /// Take the planned events for dispatch, now that the pen backend has submitted the
    /// corresponding position; none stay pending.
    pub fn flush(&mut self) -> (events: Vec<u32>)
        ensures
            events@ == old(self).pending@,
            final(self).pending@.len() == 0,
            final(self).owned == old(self).owned,
            final(self).plan == old(self).plan,
    {
        let mut events: Vec<u32> = Vec::new();
        std::mem::swap(&mut events, &mut self.pending);
        events
    }

    /// Whether to inject `flag`: a release only for a button this plan pressed, and a press
    /// not when the user already holds that button physically (`physically_held`).
    pub fn should_send(&self, flag: u32, physically_held: bool) -> (send: bool)
        ensures
            send == match spec_flag_button(flag) {
                Some((button, down)) => {
                    let bit = 1u32 << (button as u32);
                    if down { self.owned & bit != 0 || !physically_held } else { self.owned & bit != 0 }
                },
                None => false,
            },
    {
        match flag_button(flag) {
            Some((button, down)) => {
                let bit = 1u32 << button as u32;
                if down {
                    self.owned & bit != 0 || !physically_held
                } else {
                    self.owned & bit != 0
                }
            },
            None => false,
        }
    }

    /// Record that `flag` was injected.
    pub fn sent(&mut self, flag: u32)
        ensures
            final(self).owned == match spec_flag_button(flag) {
                Some((button, down)) => {
                    let bit = 1u32 << (button as u32);
                    if down { old(self).owned | bit } else { old(self).owned & !bit }
                },
                None => old(self).owned,
            },
            final(self).plan == old(self).plan,
            final(self).pending@ == old(self).pending@,
    {
        if let Some((button, down)) = flag_button(flag) {
            let bit = 1u32 << button as u32;
            if down {
                self.owned = self.owned | bit;
            } else {
                self.owned = self.owned & !bit;
            }
        }
    }

    /// Releases for every button this plan still holds (shutdown cleanup).
    pub fn owned_releases(&self) -> (events: Vec<u32>)
        ensures
            events@ == release_events(self.owned, 3),
    {
        let mut events: Vec<u32> = Vec::new();
        let mut button: usize = 0;
        while button < 3
            invariant
                button <= 3,
                events@ == release_events(self.owned, button as int),
            decreases 3 - button,
        {
            if self.owned & (1u32 << button as u32) != 0 {
                events.push(mouse_flag(button, false));
            }
            button += 1;
        }
        events
    }
}

} // verus!
