//! Decodes CTL-460 USB pen reports.
use vstd::prelude::*;

verus! {

pub const VENDOR_ID: u16 = 0x056a;
pub const PRODUCT_ID: u16 = 0x00d4;
pub const MAX_X: u16 = 14720;
pub const MAX_Y: u16 = 9200;
pub const MAX_PRESSURE: u16 = 1023;

/// One decoded pen report.
#[derive(Clone, Copy, Debug, Default, PartialEq, Eq, Structural)]
pub struct Sample {
    pub x: u16,
    pub y: u16,
    pub pressure: u16,
    pub in_range: bool,
    pub position_valid: bool,
    pub tip: bool,
    pub barrel: bool,
    pub second_button: bool,
    pub eraser: bool,
}

/// Report framing: the native 9-byte report, or the legacy 11-byte Wacom wrapper.
#[derive(Clone, Copy, Debug, PartialEq, Eq, Structural)]
pub enum ReportFormat {
    Native9,
    Wacom11,
}

#[derive(Clone, Copy, Debug, PartialEq, Eq, Structural)]
pub enum DecodeError {
    /// The length does not match the selected format.
    Length,
    /// Not a pen report (report id 2).
    ReportId,
    /// A valid position or ready pressure exceeds the sensor range.
    Bounds,
}

/// The native 9-byte report inside a report of the selected format.
pub open spec fn payload(bytes: Seq<u8>, format: ReportFormat) -> Option<Seq<u8>> {
    match format {
        ReportFormat::Native9 => if bytes.len() == 9 { Some(bytes) } else { None },
        ReportFormat::Wacom11 => if bytes.len() == 11 { Some(bytes.subrange(1, 10)) } else { None },
    }
}

pub open spec fn le16(lo: u8, hi: u8) -> u16 {
    (lo as u16) | ((hi as u16) << 8)
}

/// The decoding of a report: status byte bit 7 in range, bit 6 position valid, bit 5
/// pressure ready (both only in range); buttons need ready, the eraser needs a valid
/// position. Invalid positions and pressures read as zero, so a stale out-of-range
/// packet still releases.
pub open spec fn spec_decode(bytes: Seq<u8>, format: ReportFormat) -> Result<Sample, DecodeError> {
    match payload(bytes, format) {
        None => Err(DecodeError::Length),
        Some(b) => if b[0] != 2 {
            Err(DecodeError::ReportId)
        } else {
            let in_range = b[1] & 0x80 != 0;
            let position_valid = in_range && b[1] & 0x40 != 0;
            let ready = in_range && b[1] & 0x20 != 0;
            let x = le16(b[2], b[3]);
            let y = le16(b[4], b[5]);
            let pressure = le16(b[6], b[7]);
            if (position_valid && (x > MAX_X || y > MAX_Y)) || (ready && pressure > MAX_PRESSURE) {
                Err(DecodeError::Bounds)
            } else {
                Ok(Sample {
                    x: if position_valid { x } else { 0 },
                    y: if position_valid { y } else { 0 },
                    pressure: if ready { pressure } else { 0 },
                    in_range,
                    position_valid,
                    tip: ready && b[1] & 1 != 0,
                    barrel: ready && b[1] & 2 != 0,
                    second_button: ready && b[1] & 4 != 0,
                    eraser: position_valid && b[1] & 8 != 0,
                })
            }
        },
    }
}

/// Decode one report. The legacy wrapper must be selected explicitly; the payload never
/// decides the format.
pub fn decode(bytes: &[u8], format: ReportFormat) -> (r: Result<Sample, DecodeError>)
    ensures
        r == spec_decode(bytes@, format),
{
    let off: usize = match (format, bytes.len()) {
        (ReportFormat::Native9, 9) => 0,
        (ReportFormat::Wacom11, 11) => 1,
        _ => {
            return Err(DecodeError::Length);
        },
    };
    let ghost b = payload(bytes@, format)->0;
    assert(forall|i: int| 0 <= i < 9 ==> b[i] == bytes@[off + i]);
    if bytes[off] != 2 {
        return Err(DecodeError::ReportId);
    }
    let status = bytes[off + 1];
    let in_range = status & 0x80 != 0;
    let position_valid = in_range && status & 0x40 != 0;
    let ready = in_range && status & 0x20 != 0;
    let x = (bytes[off + 2] as u16) | ((bytes[off + 3] as u16) << 8);
    let y = (bytes[off + 4] as u16) | ((bytes[off + 5] as u16) << 8);
    let pressure = (bytes[off + 6] as u16) | ((bytes[off + 7] as u16) << 8);
    if (position_valid && (x > MAX_X || y > MAX_Y)) || (ready && pressure > MAX_PRESSURE) {
        return Err(DecodeError::Bounds);
    }
    Ok(Sample {
        x: if position_valid { x } else { 0 },
        y: if position_valid { y } else { 0 },
        pressure: if ready { pressure } else { 0 },
        in_range,
        position_valid,
        tip: ready && status & 1 != 0,
        barrel: ready && status & 2 != 0,
        second_button: ready && status & 4 != 0,
        eraser: position_valid && status & 8 != 0,
    })
}

/// A decoded sample is always within the sensor's ranges.
pub proof fn lemma_decoded_in_bounds(bytes: Seq<u8>, format: ReportFormat)
    ensures
        spec_decode(bytes, format) matches Ok(s) ==> s.x <= MAX_X && s.y <= MAX_Y && s.pressure <= MAX_PRESSURE,
{
}

/// Out of range, a report carries no position, pressure or buttons (so it always releases).
pub proof fn lemma_out_of_range_releases(bytes: Seq<u8>, format: ReportFormat)
    ensures
        spec_decode(bytes, format) matches Ok(s) ==> (!s.in_range ==> s.x == 0 && s.y == 0 && s.pressure == 0 && !s.tip
            && !s.barrel && !s.second_button && !s.eraser && !s.position_valid),
{
}

/// The legacy wrapper decodes exactly as the native report it wraps.
pub proof fn lemma_wrapped_same_as_native(bytes: Seq<u8>)
    requires
        bytes.len() == 11,
    ensures
        spec_decode(bytes, ReportFormat::Wacom11) == spec_decode(bytes.subrange(1, 10), ReportFormat::Native9),
{
}


/// The status byte of a report of the given format: byte 1 of the native report, which the
/// legacy wrapper carries one byte later.
pub open spec fn status_byte(bytes: Seq<u8>, format: ReportFormat) -> u8 {
    match format {
        ReportFormat::Native9 => bytes[1],
        ReportFormat::Wacom11 => bytes[2],
    }
}

/// Each flag of a decoded report is a fixed set of status bits, all set: in range 0x80;
/// a valid position 0x80 and 0x40; the tip 0x80, 0x20 and 0x01; the barrel switch 0x80,
/// 0x20 and 0x02; the second side switch 0x80, 0x20 and 0x04; the eraser 0x80, 0x40 and
/// 0x08.
pub proof fn lemma_decoded_switches(bytes: Seq<u8>, format: ReportFormat)
    ensures
        spec_decode(bytes, format) matches Ok(s) ==> {
            let st = status_byte(bytes, format);
            &&& s.in_range == (st & 0x80 == 0x80)
            &&& s.position_valid == (st & 0xc0 == 0xc0)
            &&& s.tip == (st & 0xa1 == 0xa1)
            &&& s.barrel == (st & 0xa2 == 0xa2)
            &&& s.second_button == (st & 0xa4 == 0xa4)
            &&& s.eraser == (st & 0xc8 == 0xc8)
        },
{
    if let Ok(s) = spec_decode(bytes, format) {
        let b = payload(bytes, format)->0;
        let st = status_byte(bytes, format);
        assert(b[1] == st);
        assert((st & 0x80 != 0) == (st & 0x80 == 0x80)) by (bit_vector);
        assert((st & 0x80 != 0 && st & 0x40 != 0) == (st & 0xc0 == 0xc0)) by (bit_vector);
        assert((st & 0x80 != 0 && st & 0x20 != 0 && st & 1 != 0) == (st & 0xa1 == 0xa1)) by (bit_vector);
        assert((st & 0x80 != 0 && st & 0x20 != 0 && st & 2 != 0) == (st & 0xa2 == 0xa2)) by (bit_vector);
        assert((st & 0x80 != 0 && st & 0x20 != 0 && st & 4 != 0) == (st & 0xa4 == 0xa4)) by (bit_vector);
        assert((st & 0x80 != 0 && st & 0x40 != 0 && st & 8 != 0) == (st & 0xc8 == 0xc8)) by (bit_vector);
    }
}


/// The switch a status bit reports: 0x01 the tip, 0x02 the barrel switch, 0x04 the second
/// side switch, 0x08 the eraser.
pub open spec fn switch_of(s: Sample, bit: u8) -> bool {
    if bit == 1 {
        s.tip
    } else if bit == 2 {
        s.barrel
    } else if bit == 4 {
        s.second_button
    } else {
        s.eraser
    }
}

/// The position of the status byte in a report of the given format.
pub open spec fn status_at(format: ReportFormat) -> int {
    match format {
        ReportFormat::Native9 => 1,
        ReportFormat::Wacom11 => 2,
    }
}

/// One switch, one bit: flipping a switch's status bit in a report changes whether that
/// switch reads as pressed exactly when the report can show it (pressure ready for the
/// tip and side switches, a valid position for the eraser), and changes nothing else.
pub proof fn lemma_one_bit_one_switch(bytes: Seq<u8>, format: ReportFormat, bit: u8)
    requires
        bit == 1 || bit == 2 || bit == 4 || bit == 8,
        payload(bytes, format) is Some,
    ensures
        ({
            let i = status_at(format);
            let st = bytes[i];
            let flipped = bytes.update(i, st ^ bit);
            let gate = if bit == 8 { st & 0xc0 == 0xc0 } else { st & 0xa0 == 0xa0 };
            &&& (spec_decode(flipped, format) is Ok <==> spec_decode(bytes, format) is Ok)
            &&& (spec_decode(bytes, format) matches Ok(s) ==> spec_decode(flipped, format) matches Ok(s2)
                && (switch_of(s2, bit) != switch_of(s, bit) <==> gate) && s2.x == s.x && s2.y == s.y
                && s2.pressure == s.pressure && s2.in_range == s.in_range && s2.position_valid == s.position_valid
                && (bit != 1 ==> s2.tip == s.tip) && (bit != 2 ==> s2.barrel == s.barrel) && (bit != 4
                ==> s2.second_button == s.second_button) && (bit != 8 ==> s2.eraser == s.eraser))
        }),
{
    let i = status_at(format);
    let st = bytes[i];
    let t = st ^ bit;
    let flipped = bytes.update(i, t);
    let b = payload(bytes, format)->0;
    let b2 = payload(flipped, format)->0;
    assert(b2 =~= b.update(1, t));
    assert(b[1] == st);
    assert(t & 0x80 == st & 0x80 && t & 0x40 == st & 0x40 && t & 0x20 == st & 0x20) by (bit_vector)
        requires
            t == st ^ bit,
            bit == 1 || bit == 2 || bit == 4 || bit == 8,
    ;
    assert((t & bit != 0) != (st & bit != 0)) by (bit_vector)
        requires
            t == st ^ bit,
            bit == 1 || bit == 2 || bit == 4 || bit == 8,
    ;
    assert(forall|m: u8|
        (m == 1 || m == 2 || m == 4 || m == 8) && m != bit ==> #[trigger] (t & m) == st & m) by (bit_vector)
        requires
            t == st ^ bit,
            bit == 1 || bit == 2 || bit == 4 || bit == 8,
    ;
    assert((t & 1) == (st & 1) || bit == 1);
    assert((t & 2) == (st & 2) || bit == 2);
    assert((t & 4) == (st & 4) || bit == 4);
    assert((t & 8) == (st & 8) || bit == 8);
    assert((st & 0xc0 == 0xc0) == (st & 0x80 != 0 && st & 0x40 != 0)) by (bit_vector);
    assert((st & 0xa0 == 0xa0) == (st & 0x80 != 0 && st & 0x20 != 0)) by (bit_vector);
}

} // verus!
