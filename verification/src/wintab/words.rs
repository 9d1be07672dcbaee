//! Geometry and option words of a WinTab logical context (the 33 words that
//! follow the name in LOGCONTEXT).
use vstd::prelude::*;
use super::pen::{PenData, OUT_OF_BOUNDS};

verus! {

/// The 33 option words of a logical context.
pub type Words = [u32; 33];

/// Tablet extent in native units.
pub const TABLET_X: i64 = 14720;
pub const TABLET_Y: i64 = 9200;
/// Context options the provider honours: system, packet/cursor messages, inside/outside margins.
pub const OPTIONS: u32 = 0xc00d;
/// Packet fields that may be reported relative: time, buttons, X, Y, Z and the two pressures.
pub const RELATIVE: u32 = 0x0fc4;
/// Packet fields from context through orientation; rotation and tangent pressure report zero.
pub const SUPPORTED: u32 = 0x3fff;

pub open spec fn signed(x: u32) -> int {
    (x as i32) as int
}

pub open spec fn abs(x: int) -> int {
    if x < 0 { -x } else { x }
}

pub open spec fn sign(x: int) -> int {
    if x < 0 { -1 } else if x == 0 { 0 } else { 1 }
}

pub open spec fn clamp(v: int, lo: int, hi: int) -> int {
    if v < lo { lo } else if v > hi { hi } else { v }
}

/// Lower edge of the input rectangle on an axis (0 = x, 1 = y measured upwards).
pub open spec fn lo(w: Seq<u32>, axis: int) -> int {
    signed(w[11 + axis])
}

/// Upper edge of the input rectangle: origin plus the magnitude of the extent.
pub open spec fn hi(w: Seq<u32>, axis: int) -> int {
    lo(w, axis) + abs(signed(w[14 + axis]))
}

/// Pen coordinate on an axis in the context's frame (y is flipped to grow upwards).
pub open spec fn coord(p: PenData, axis: int) -> int {
    if axis == 0 { p.x as int } else { TABLET_Y - p.y }
}

pub fn interval(w: &Words, axis: usize) -> (r: (i64, i64))
    requires
        axis < 2,
    ensures
        r.0 == lo(w@, axis as int),
        r.1 == hi(w@, axis as int),
        r.0 <= r.1,
{
    let origin = (w[11 + axis] as i32) as i64;
    let extent = (w[14 + axis] as i32) as i64;
    let magnitude = if extent < 0 { -extent } else { extent };
    (origin, origin + magnitude)
}

pub open spec fn axis_overlap(a: Seq<u32>, b: Seq<u32>, axis: int) -> bool {
    lo(a, axis) <= hi(b, axis) && lo(b, axis) <= hi(a, axis)
}

pub open spec fn spec_rectangles_overlap(a: Seq<u32>, b: Seq<u32>) -> bool {
    axis_overlap(a, b, 0) && axis_overlap(a, b, 1)
}

/// Closed input rectangles share at least one point.
pub fn rectangles_overlap(a: &Words, b: &Words) -> (r: bool)
    ensures
        r == spec_rectangles_overlap(a@, b@),
{
    let (al, ar) = interval(a, 0);
    let (bl, br) = interval(b, 0);
    let (cl, cr) = interval(a, 1);
    let (dl, dr) = interval(b, 1);
    al <= br && bl <= ar && cl <= dr && dl <= cr
}

pub open spec fn axis_contains(w: Seq<u32>, p: PenData, axis: int) -> bool {
    lo(w, axis) <= coord(p, axis) <= hi(w, axis)
}

pub open spec fn spec_contains(w: Seq<u32>, p: PenData) -> bool {
    axis_contains(w, p, 0) && axis_contains(w, p, 1)
}

/// The pen lies inside the context's closed input rectangle.
pub fn contains(w: &Words, p: PenData) -> (r: bool)
    ensures
        r == spec_contains(w@, p),
{
    let (xl, xr) = interval(w, 0);
    let (yl, yr) = interval(w, 1);
    let cx = p.x as i64;
    let cy = TABLET_Y - p.y as i64;
    cx >= xl && cx <= xr && cy >= yl && cy <= yr
}

/// The inset applied on an axis when a context asks for both inside and outside margins.
pub open spec fn margin_of(extent: int) -> int {
    let m = if abs(extent) - 1 > 0 { (abs(extent) - 1) / 2 } else { 0 };
    if m < 16 { m } else { 16 }
}

pub open spec fn inset_axis(w: Seq<u32>, axis: int) -> Seq<u32> {
    let extent = signed(w[14 + axis]);
    let m = margin_of(extent);
    w.update(11 + axis, (signed(w[11 + axis]) + m) as u32).update(
        14 + axis,
        ((abs(extent) - 2 * m) * sign(extent)) as u32,
    )
}

pub open spec fn spec_effective_words(w: Seq<u32>) -> Seq<u32> {
    if w[0] & 0xc000 == 0xc000 {
        inset_axis(inset_axis(w, 0), 1)
    } else {
        w
    }
}

/// With both margin options set, the usable input rectangle shrinks by up to 16 units per side.
pub fn effective_words(w: Words) -> (r: Words)
    ensures
        r@ == spec_effective_words(w@),
{
    let mut r = w;
    if w[0] & 0xc000 == 0xc000 {
        let mut axis: usize = 0;
        while axis < 2
            invariant
                axis <= 2,
                r@.len() == 33,
                axis == 0 ==> r@ == w@,
                axis == 1 ==> r@ == inset_axis(w@, 0),
                axis == 2 ==> r@ == inset_axis(inset_axis(w@, 0), 1),
            decreases 2 - axis,
        {
            let ghost before = r@;
            let extent = (r[14 + axis] as i32) as i64;
            let magnitude = if extent < 0 { -extent } else { extent };
            let half = if magnitude - 1 > 0 { (magnitude - 1) / 2 } else { 0 };
            let m = if half < 16 { half } else { 16 };
            let signum: i64 = if extent < 0 { -1 } else if extent == 0 { 0 } else { 1 };
            let origin = (r[11 + axis] as i32) as i64;
            r[11 + axis] = (origin + m) as u32;
            r[14 + axis] = ((magnitude - 2 * m) * signum) as u32;
            assert(r@ =~= inset_axis(before, axis as int));
            axis += 1;
        }
    }
    r
}

pub open spec fn is_oob(p: PenData) -> bool {
    p.flags & OUT_OF_BOUNDS != 0
}

/// Margin outside the rectangle in which samples still count (outside margin only).
pub open spec fn outside_margin(w: Seq<u32>) -> int {
    if w[0] & 0x8000 != 0 && w[0] & 0x4000 == 0 { 16 } else { 0 }
}

pub open spec fn axis_within_margin(w: Seq<u32>, p: PenData, axis: int) -> bool {
    lo(w, axis) - outside_margin(w) <= coord(p, axis) <= hi(w, axis) + outside_margin(w)
}

pub open spec fn within_margin(w: Seq<u32>, p: PenData) -> bool {
    axis_within_margin(w, p, 0) && axis_within_margin(w, p, 1)
}

/// How a context sees a sample: `None` when it lies outside the context (and its margin);
/// otherwise the sample clamped into the context with its packet status bits.
pub open spec fn spec_context_sample(w: Seq<u32>, p: PenData, grabbed: bool) -> Option<(PenData, u32)> {
    if !p.spec_in_range() {
        Some((p, 1))
    } else if !spec_contains(w, p) && (grabbed || is_oob(p)) {
        let x = clamp(p.x as int, lo(w, 0), hi(w, 0));
        let y = clamp(TABLET_Y - p.y, lo(w, 1), hi(w, 1));
        Some((PenData { x: x as i32, y: (TABLET_Y - y) as i32, ..p }, if is_oob(p) { 4 } else { 9 }))
    } else if !within_margin(w, p) {
        None
    } else {
        let e = spec_effective_words(w);
        let x = clamp(coord(p, 0), lo(e, 0), hi(e, 0));
        let y = clamp(coord(p, 1), lo(e, 1), hi(e, 1));
        Some((
            PenData { x: x as i32, y: (TABLET_Y - y) as i32, ..p },
            if x != coord(p, 0) || y != coord(p, 1) { 4 } else { 0 },
        ))
    }
}

fn clamp_i64(v: i64, lo: i64, hi: i64) -> (r: i64)
    requires
        lo <= hi,
    ensures
        r == clamp(v as int, lo as int, hi as int),
{
    if v < lo { lo } else if v > hi { hi } else { v }
}

/// Packet position and status for one context, or `None` when the context does not see the pen.
pub fn context_sample(w: &Words, p: PenData, grabbed: bool) -> (r: Option<(PenData, u32)>)
    ensures
        r == spec_context_sample(w@, p, grabbed),
{
    if !p.in_range() {
        return Some((p, 1));
    }
    let inside = contains(w, p);
    let oob = p.flags & OUT_OF_BOUNDS != 0;
    if !inside && (grabbed || oob) {
        let (xl, xr) = interval(w, 0);
        let (yl, yr) = interval(w, 1);
        let x = clamp_i64(p.x as i64, xl, xr);
        let y = clamp_i64(TABLET_Y - p.y as i64, yl, yr);
        let q = PenData { x: x as i32, y: (TABLET_Y - y) as i32, ..p };
        return Some((q, if oob { 4 } else { 9 }));
    }
    let margin: i64 = if w[0] & 0x8000 != 0 && w[0] & 0x4000 == 0 { 16 } else { 0 };
    let cx = p.x as i64;
    let cy = TABLET_Y - p.y as i64;
    let (xl, xr) = interval(w, 0);
    let (yl, yr) = interval(w, 1);
    if !(cx >= xl - margin && cx <= xr + margin && cy >= yl - margin && cy <= yr + margin) {
        return None;
    }
    let effective = effective_words(*w);
    let (exl, exr) = interval(&effective, 0);
    let (eyl, eyr) = interval(&effective, 1);
    let x = clamp_i64(cx, exl, exr);
    let y = clamp_i64(cy, eyl, eyr);
    let status: u32 = if x != cx || y != cy { 4 } else { 0 };
    Some((PenData { x: x as i32, y: (TABLET_Y - y) as i32, ..p }, status))
}

pub open spec fn spec_cursor_selected(mask: Seq<u8>, p: PenData) -> bool {
    mask[0] & (if p.spec_eraser() { 2u8 } else { 1u8 }) != 0
}

/// The context's cursor mask selects the pen end in use.
pub fn cursor_selected(mask: &[u8; 16], p: PenData) -> (r: bool)
    ensures
        r == spec_cursor_selected(mask@, p),
{
    let bit: u8 = if p.eraser() { 2 } else { 1 };
    mask[0] & bit != 0
}

pub open spec fn spec_notification_allowed(options: u32, offset: u32) -> bool {
    if offset == 0 {
        options & 4 != 0
    } else if offset == 7 {
        options & 8 != 0
    } else {
        true
    }
}

/// Packet (offset 0) and cursor-change (offset 7) messages are sent only when requested.
pub fn notification_allowed(options: u32, offset: u32) -> (r: bool)
    ensures
        r == spec_notification_allowed(options, offset),
{
    if offset == 0 {
        options & 4 != 0
    } else if offset == 7 {
        options & 8 != 0
    } else {
        true
    }
}

pub open spec fn at_least_one(v: i32) -> u32 {
    if v < 1 { 1 } else { v as u32 }
}

/// The default context: native tablet input mapped onto the whole tablet output, with
/// the feeder's report rate and the primary screen size for system output.
pub open spec fn spec_default_words(rate: u32, screen_width: i32, screen_height: i32) -> Seq<u32> {
    Seq::new(33, |i: int|
        if i == 0 { 4u32 }
        else if i == 3 { 0x7ff0u32 }
        else if i == 5 { rate }
        else if i == 6 { 0x17ffu32 }
        else if i == 8 { SUPPORTED }
        else if i == 9 || i == 10 { 3u32 }
        else if i == 14 || i == 20 { 14720u32 }
        else if i == 15 || i == 21 { 9200u32 }
        else if i == 16 || i == 22 { 1u32 }
        else if i == 23 || i == 24 || i == 25 || i == 31 || i == 32 { 65536u32 }
        else if i == 29 { at_least_one(screen_width) }
        else if i == 30 { at_least_one(screen_height) }
        else { 0u32 })
}

/// Default context words; `rate` is the feeder's report rate in Hz.
pub fn default_words(rate: u32, screen_width: i32, screen_height: i32) -> (w: Words)
    ensures
        w@ == spec_default_words(rate, screen_width, screen_height),
{
    let mut w = [0u32; 33];
    w[0] = 4;
    w[1] = 0;
    w[3] = 0x7ff0;
    w[5] = rate;
    w[6] = 0x17ff;
    w[8] = SUPPORTED;
    w[9] = 3;
    w[10] = 3;
    w[14] = 14720;
    w[15] = 9200;
    w[16] = 1;
    w[20] = 14720;
    w[21] = 9200;
    w[22] = 1;
    w[23] = 65536;
    w[24] = 65536;
    w[25] = 65536;
    w[26] = 0;
    w[29] = if screen_width < 1 { 1 } else { screen_width as u32 };
    w[30] = if screen_height < 1 { 1 } else { screen_height as u32 };
    w[31] = 65536;
    w[32] = 65536;
    assert(w@ =~= spec_default_words(rate, screen_width, screen_height));
    w
}

pub open spec fn spec_valid_words(w: Seq<u32>) -> bool {
    &&& (w[4] == 0 || w[4] == u32::MAX)
    &&& w[0] & !OPTIONS == 0
    &&& w[6] & !SUPPORTED == 0
    &&& w[2] & !0x1fu32 == 0
    &&& w[14] != 0
    &&& w[15] != 0
    &&& w[20] != 0
    &&& w[21] != 0
    &&& w[3] <= 0xfff0
}

/// Words a client may store: known options, supported packet fields, known locks,
/// non-empty extents and a message base that leaves room for every message offset.
pub fn valid_words(w: &Words) -> (r: bool)
    ensures
        r == spec_valid_words(w@),
{
    (w[4] == 0 || w[4] == u32::MAX) && w[0] & !OPTIONS == 0 && w[6] & !SUPPORTED == 0 && w[2] & !0x1fu32 == 0
        && w[14] != 0 && w[15] != 0 && w[20] != 0 && w[21] != 0 && w[3] <= 0xfff0
}

pub open spec fn axis_max(axis: int) -> int {
    if axis == 0 { TABLET_X as int } else { TABLET_Y as int }
}

/// Input origin clamped onto the tablet, extent (keeping its sign) limited to the tablet edge.
pub open spec fn fitted_axis(w: Seq<u32>, axis: int) -> Seq<u32> {
    let max = axis_max(axis);
    let origin = clamp(signed(w[11 + axis]), 0, max - 1);
    let extent = signed(w[14 + axis]);
    let size = if abs(extent) < max - origin { abs(extent) } else { max - origin };
    w.update(11 + axis, origin as u32).update(14 + axis, (size * sign(extent)) as u32)
}

pub open spec fn spec_validated(w: Seq<u32>, enabled: bool, rate: u32) -> Seq<u32> {
    let v = w.update(1, if enabled { 4u32 } else { 1u32 }).update(5, rate).update(7, w[7] & (RELATIVE & w[6])).update(
        8,
        w[8] & (SUPPORTED & w[6] & !0x7fu32),
    );
    fitted_axis(fitted_axis(v, 0), 1)
}

/// The words actually stored for a context: status from `enabled`, the feeder's real
/// report rate, only honoured relative and change fields, input fitted to the tablet.
pub fn validated(w: Words, enabled: bool, rate: u32) -> (r: Words)
    ensures
        r@ == spec_validated(w@, enabled, rate),
{
    let mut r = w;
    r[1] = if enabled { 4 } else { 1 };
    r[5] = rate;
    r[7] = r[7] & (RELATIVE & w[6]);
    r[8] = r[8] & (SUPPORTED & w[6] & !0x7fu32);
    let ghost v = r@;
    assert(v =~= w@.update(1, if enabled { 4u32 } else { 1u32 }).update(5, rate).update(7, w@[7] & (RELATIVE & w@[6])).update(
        8,
        w@[8] & (SUPPORTED & w@[6] & !0x7fu32),
    ));
    let mut axis: usize = 0;
    while axis < 2
        invariant
            axis <= 2,
            r@.len() == 33,
            axis == 0 ==> r@ == v,
            axis == 1 ==> r@ == fitted_axis(v, 0),
            axis == 2 ==> r@ == fitted_axis(fitted_axis(v, 0), 1),
        decreases 2 - axis,
    {
        let ghost before = r@;
        let max: i64 = if axis == 0 { TABLET_X } else { TABLET_Y };
        let raw_origin = (r[11 + axis] as i32) as i64;
        let origin = if raw_origin < 0 { 0 } else if raw_origin > max - 1 { max - 1 } else { raw_origin };
        let extent = (r[14 + axis] as i32) as i64;
        let magnitude = if extent < 0 { -extent } else { extent };
        let size = if magnitude < max - origin { magnitude } else { max - origin };
        let signed_size: i64 = if extent < 0 { -size } else if extent == 0 { 0 } else { size };
        r[11 + axis] = origin as u32;
        r[14 + axis] = signed_size as u32;
        assert(r@ =~= fitted_axis(before, axis as int));
        axis += 1;
    }
    r
}

/// Which packet fields changed between two samples (time, cursor, x, y, pressure,
/// buttons, orientation, status); serial number always counts. `a_buttons` and
/// `b_buttons` are the samples' logical buttons.
pub open spec fn spec_changes(a: PenData, b: PenData, a_buttons: u32, b_buttons: u32) -> u32 {
    0x10u32 | (if a.time != b.time { 4u32 } else { 0 }) | (if (a.flags ^ b.flags) & 4 != 0 { 0x22u32 } else { 0 })
        | (if a.x != b.x { 0x80u32 } else { 0 }) | (if a.y != b.y { 0x100u32 } else { 0 }) | (if a.pressure
        != b.pressure {
        0x400u32
    } else {
        0
    }) | (if a_buttons != b_buttons { 0x40u32 } else { 0 }) | (if a.tilt_x != b.tilt_x || a.tilt_y != b.tilt_y {
        0x1000u32
    } else {
        0
    }) | (if (a.flags ^ b.flags) & 12 != 0 { 2u32 } else { 0 })
}

pub fn changes(a: PenData, b: PenData, a_buttons: u32, b_buttons: u32) -> (m: u32)
    ensures
        m == spec_changes(a, b, a_buttons, b_buttons),
{
    0x10u32 | (if a.time != b.time { 4u32 } else { 0 }) | (if (a.flags ^ b.flags) & 4 != 0 { 0x22u32 } else { 0 })
        | (if a.x != b.x { 0x80u32 } else { 0 }) | (if a.y != b.y { 0x100u32 } else { 0 }) | (if a.pressure
        != b.pressure {
        0x400u32
    } else {
        0
    }) | (if a_buttons != b_buttons { 0x40u32 } else { 0 }) | (if a.tilt_x != b.tilt_x || a.tilt_y != b.tilt_y {
        0x1000u32
    } else {
        0
    }) | (if (a.flags ^ b.flags) & 12 != 0 { 2u32 } else { 0 })
}


} // verus!
