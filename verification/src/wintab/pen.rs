//! The pen sample shared between the feeder and WinTab clients.
use vstd::prelude::*;

verus! {

/// Tip contact.
pub const TIP: i32 = 1;
/// Barrel (side) button.
pub const BARREL: i32 = 2;
/// Inverted pen: the eraser end is in use.
pub const ERASER: i32 = 4;
/// The pen is within sensing range.
pub const IN_RANGE: i32 = 8;
/// Internal routing metadata: the hardware proximity state changed with this sample.
pub const HARDWARE_PROXIMITY: i32 = 0x4000_0000;
/// Internal routing metadata: the sample lies outside every eligible context.
pub const OUT_OF_BOUNDS: i32 = 0x2000_0000;

/// One processed pen sample in tablet coordinates (y grows downwards).
#[derive(Clone, Copy, Debug, PartialEq, Eq, Default)]
pub struct PenData {
    pub time: u32,
    pub x: i32,
    pub y: i32,
    pub pressure: i32,
    pub flags: i32,
    pub tilt_x: i32,
    pub tilt_y: i32,
    pub raw: i32,
}

impl PenData {
    pub open spec fn spec_in_range(self) -> bool {
        self.flags & IN_RANGE != 0
    }

    pub open spec fn spec_eraser(self) -> bool {
        self.flags & ERASER != 0
    }

    pub open spec fn spec_values(self) -> Seq<i32> {
        seq![self.time as i32, self.x, self.y, self.pressure, self.flags, self.tilt_x, self.tilt_y, self.raw]
    }

    /// A sample with every field zero (out of range).
    pub fn zero() -> (p: PenData)
        ensures
            p == (PenData { time: 0, x: 0, y: 0, pressure: 0, flags: 0, tilt_x: 0, tilt_y: 0, raw: 0 }),
    {
        PenData { time: 0, x: 0, y: 0, pressure: 0, flags: 0, tilt_x: 0, tilt_y: 0, raw: 0 }
    }

    /// The pen is within sensing range.
    pub fn in_range(&self) -> (r: bool)
        ensures
            r == self.spec_in_range(),
    {
        self.flags & IN_RANGE != 0
    }

    /// The eraser end is in use.
    pub fn eraser(&self) -> (r: bool)
        ensures
            r == self.spec_eraser(),
    {
        self.flags & ERASER != 0
    }

    /// The fixed-width form stored in the session's routing cache.
    pub fn values(&self) -> (r: [i32; 8])
        ensures
            r@ == self.spec_values(),
    {
        let r = [self.time as i32, self.x, self.y, self.pressure, self.flags, self.tilt_x, self.tilt_y, self.raw];
        assert(r@ =~= self.spec_values());
        r
    }
}

pub open spec fn spec_decode(v: Seq<i32>) -> PenData {
    PenData {
        time: v[0] as u32,
        x: v[1],
        y: v[2],
        pressure: v[3],
        flags: v[4],
        tilt_x: v[5],
        tilt_y: v[6],
        raw: v[7],
    }
}

/// Inverse of [`PenData::values`].
pub fn decode(v: [i32; 8]) -> (r: PenData)
    ensures
        r == spec_decode(v@),
{
    PenData {
        time: v[0] as u32,
        x: v[1],
        y: v[2],
        pressure: v[3],
        flags: v[4],
        tilt_x: v[5],
        tilt_y: v[6],
        raw: v[7],
    }
}

/// Decoding the cached form gives back the sample.
pub proof fn lemma_decode_values(p: PenData)
    ensures
        spec_decode(p.spec_values()) == p,
{
    let t = p.time;
    assert((t as i32) as u32 == t) by (bit_vector);
    assert(spec_decode(p.spec_values()) =~= p);
}

} // verus!
