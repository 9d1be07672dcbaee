//! The WinTab information tables (`WTInfo`): interface, status, default contexts,
//! device, cursors and extensions. Wide (Unicode) replies are complete bytes; a narrow
//! reply carries its text for the caller to encode in the ANSI code page. Integers are
//! little-endian, as on every Windows target.
use vstd::prelude::*;
use super::contexts::spec_get;
use super::saved::{
    from_utf16_lossy, lemma_until_zero, le16_bytes, le32_bytes, name_field, name_units, push_le16, push_le32,
    units_bytes, until_zero, utf16, utf16_lossy, utf16_of, words_bytes,
};
use super::session::{CONTEXTS, Cursor, Data, DataView, MANAGERS, Record, default_response};
use super::words::{OPTIONS, SUPPORTED, Words, default_words, spec_default_words};
use crate::text::chars_of;

verus! {

/// The most contexts a client may open.
pub const MAX_CONTEXTS: u32 = 64;

/// The size of a saved context.
pub const SAVE_BYTES: u32 = 244;

/// Axis resolution of the tablet coordinates: 1000 lines per centimetre (fixed point).
pub const LINES_PER_CM: u32 = 1000u32 << 16;

/// Axis resolution of the orientation angles: 3600 tenths of a degree per circle.
pub const TENTHS_PER_CIRCLE: u32 = 3600u32 << 16;

/// One information reply.
#[derive(Debug, PartialEq, Eq)]
pub enum InfoReply {
    /// The reply's bytes.
    Bytes(Vec<u8>),
    /// A narrow text: its ANSI code page encoding followed by a NUL.
    Text(String),
    /// A narrow context (`LOGCONTEXTA`): the name in the ANSI code page, character by
    /// character while it fits 39 bytes, NUL-padded to 40 bytes, then the words.
    Context(String, Words),
    /// The name field of a narrow context alone.
    Name(String),
}

pub enum InfoView {
    Bytes(Seq<u8>),
    Text(Seq<char>),
    Context(Seq<char>, Seq<u32>),
    Name(Seq<char>),
}

impl View for InfoReply {
    type V = InfoView;

    open spec fn view(&self) -> InfoView {
        match self {
            InfoReply::Bytes(b) => InfoView::Bytes(b@),
            InfoReply::Text(t) => InfoView::Text(t@),
            InfoReply::Context(n, w) => InfoView::Context(n@, w@),
            InfoReply::Name(n) => InfoView::Name(n@),
        }
    }
}

pub open spec fn empty_reply() -> InfoView {
    InfoView::Bytes(seq![])
}

pub open spec fn uint(n: u32) -> InfoView {
    InfoView::Bytes(le32_bytes(n))
}

/// A text in UTF-16 with its terminator.
pub open spec fn wide_text(s: Seq<char>) -> Seq<u8> {
    units_bytes(utf16(s).push(0u16))
}

pub open spec fn text(s: Seq<char>, wide: bool) -> InfoView {
    if wide {
        InfoView::Bytes(wide_text(s))
    } else {
        InfoView::Text(s)
    }
}

/// An `AXIS`: minimum, maximum, units and resolution.
pub open spec fn axis(min: i32, max: i32, units: u32, resolution: u32) -> Seq<u8> {
    le32_bytes(min as u32) + le32_bytes(max as u32) + le32_bytes(units) + le32_bytes(resolution)
}

pub open spec fn is_context_category(category: u32) -> bool {
    category == 3 || category == 4 || category == 400 || category == 500
}

pub open spec fn is_system_category(category: u32) -> bool {
    category == 4 || category == 500
}

/// The default context record a context category reports, when the session has one.
pub open spec fn default_record(category: u32, session: Option<DataView>) -> Option<Record> {
    if is_context_category(category) {
        match session {
            Some(d) => spec_get(d.contexts, if is_system_category(category) { 2 } else { 1 }),
            None => None,
        }
    } else {
        None
    }
}

/// The words a context category reports: the session's default with the feeder's rate,
/// or the built-in default, in screen units for the system categories.
pub open spec fn category_words(category: u32, rate: u32, screen: (i32, i32), session: Option<DataView>) -> Seq<u32> {
    match default_record(category, session) {
        Some(r) => r.words@.update(5, rate),
        None => {
            let w = spec_default_words(rate, screen.0, screen.1);
            if is_system_category(category) {
                w.update(0, w[0] | 1).update(17, w[27]).update(18, w[28]).update(20, w[29]).update(21, w[30])
            } else {
                w
            }
        },
    }
}

/// The name a context category reports.
pub open spec fn category_name(category: u32, session: Option<DataView>) -> Seq<char> {
    match default_record(category, session) {
        Some(r) => utf16_lossy(until_zero(r.name@)),
        None => "OpenCTL 460"@,
    }
}

/// Client slots `2..n` with an open context.
pub open spec fn count_open(c: Seq<Record>, n: int) -> nat
    decreases n,
{
    if n <= 2 {
        0
    } else {
        count_open(c, n - 1) + if c[n - 1].id != 0 { 1nat } else { 0nat }
    }
}

/// Open client contexts in system mode among slots `2..n`.
pub open spec fn count_system(c: Seq<Record>, n: int) -> nat
    decreases n,
{
    if n <= 2 {
        0
    } else {
        count_system(c, n - 1) + if c[n - 1].id != 0 && c[n - 1].words@[0] & 1 != 0 { 1nat } else { 0nat }
    }
}

/// An open, enabled client context among slots `2..n`.
pub open spec fn any_enabled(c: Seq<Record>, n: int) -> bool
    decreases n,
{
    if n <= 2 {
        false
    } else {
        any_enabled(c, n - 1) || (c[n - 1].id != 0 && c[n - 1].enabled != 0)
    }
}

/// The packet fields open client contexts among slots `2..n` ask for.
pub open spec fn packet_union(c: Seq<Record>, n: int) -> u32
    decreases n,
{
    if n <= 2 {
        0
    } else {
        packet_union(c, n - 1) | if c[n - 1].id != 0 { c[n - 1].words@[6] } else { 0u32 }
    }
}

/// The buttons open client contexts among slots `2..n` watch.
pub open spec fn button_union(c: Seq<Record>, n: int) -> u32
    decreases n,
{
    if n <= 2 {
        0
    } else {
        button_union(c, n - 1) | if c[n - 1].id != 0 { c[n - 1].words@[9] | c[n - 1].words@[10] } else { 0u32 }
    }
}

/// Open managers among slots `0..n`.
pub open spec fn count_managers(d: DataView, n: int) -> nat
    decreases n,
{
    if n <= 0 {
        0
    } else {
        count_managers(d, n - 1) + if d.managers[n - 1].id != 0 { 1nat } else { 0nat }
    }
}

/// The status category (after pruning ended processes).
pub open spec fn status_info(index: u32, rate: u32, d: DataView) -> InfoView {
    let c = d.contexts;
    let n = CONTEXTS as int;
    if index == 1 {
        uint(count_open(c, n) as u32)
    } else if index == 2 {
        uint(count_system(c, n) as u32)
    } else if index == 3 {
        uint(if any_enabled(c, n) { rate } else { 0 })
    } else if index == 4 {
        uint(packet_union(c, n))
    } else if index == 5 {
        uint(count_managers(d, MANAGERS as int) as u32)
    } else if index == 6 {
        uint(1)
    } else if index == 7 {
        uint(button_union(c, n))
    } else if index == 8 {
        uint(3)
    } else {
        empty_reply()
    }
}

/// A default context category.
pub open spec fn context_info(category: u32, index: u32, wide: bool, rate: u32, screen: (i32, i32), session: Option<
    DataView,
>) -> InfoView {
    let words = category_words(category, rate, screen, session);
    let name = category_name(category, session);
    if index == 0 {
        if wide {
            InfoView::Bytes(units_bytes(name_field(name)) + words_bytes(words))
        } else {
            InfoView::Context(name, words)
        }
    } else if index == 1 {
        if wide {
            InfoView::Bytes(units_bytes(name_field(name)))
        } else {
            InfoView::Name(name)
        }
    } else if 2 <= index <= 34 {
        uint(words[index - 2])
    } else {
        empty_reply()
    }
}

/// The device category: the virtual pen's capabilities and axes.
pub open spec fn device_info(index: u32, wide: bool, rate: u32) -> InfoView {
    if index == 1 {
        text("OpenCTL 460 virtual pen"@, wide)
    } else if index == 2 {
        uint(4)
    } else if index == 3 {
        uint(2)
    } else if index == 4 {
        uint(0)
    } else if index == 5 {
        uint(rate)
    } else if index == 6 || index == 8 {
        uint(SUPPORTED)
    } else if index == 7 {
        uint(0)
    } else if index == 9 || index == 10 {
        uint(16)
    } else if index == 11 {
        uint(0)
    } else if index == 12 {
        InfoView::Bytes(axis(0, 14720, 2, LINES_PER_CM))
    } else if index == 13 {
        InfoView::Bytes(axis(0, 9200, 2, LINES_PER_CM))
    } else if index == 14 || index == 16 {
        InfoView::Bytes(axis(0, 0, 0, 0))
    } else if index == 15 {
        InfoView::Bytes(axis(0, 4097, 0, 0))
    } else if index == 17 {
        InfoView::Bytes(axis(0, 3600, 3, TENTHS_PER_CIRCLE) + axis(-900i32, 900, 3, TENTHS_PER_CIRCLE) + axis(0, 0, 0, 0))
    } else if index == 18 {
        InfoView::Bytes(Seq::new(48, |i: int| 0u8))
    } else if index == 19 {
        text("CTL460Studio"@, wide)
    } else {
        empty_reply()
    }
}

/// A cursor category: the pen (200) or the eraser (201), with the session's preferences.
pub open spec fn cursor_info(category: u32, index: u32, wide: bool, cursor: Option<Cursor>) -> InfoView {
    let eraser = category == 201;
    if index == 1 {
        text(if eraser { "Eraser"@ } else { "Pen"@ }, wide)
    } else if index == 2 {
        uint(match cursor { Some(c) => c.enabled, None => 1 })
    } else if index == 3 || index == 17 {
        uint(SUPPORTED)
    } else if index == 4 || index == 5 {
        InfoView::Bytes(seq![2u8])
    } else if index == 6 {
        text("Tip\0Barrel\0"@, wide)
    } else if index == 7 {
        InfoView::Bytes(match cursor { Some(c) => c.button_map@, None => Seq::new(32, |i: int| i as u8) })
    } else if index == 8 {
        InfoView::Bytes(match cursor {
            Some(c) => c.system_map@,
            None => Seq::new(32, |i: int| if i == 0 { 1u8 } else if i == 1 { 4u8 } else { 0u8 }),
        })
    } else if index == 9 {
        InfoView::Bytes(seq![0u8])
    } else if index == 10 {
        InfoView::Bytes(words_bytes(match cursor { Some(c) => c.marks@, None => seq![0u32, 1u32] }))
    } else if index == 11 {
        InfoView::Bytes(words_bytes(match cursor {
            Some(c) => c.response@,
            None => Seq::new(256, |i: int| default_response(i)),
        }))
    } else if index == 12 {
        InfoView::Bytes(seq![255u8])
    } else if index == 13 {
        InfoView::Bytes(Seq::new(8, |i: int| 0u8))
    } else if index == 14 || index == 16 {
        uint(0)
    } else if index == 15 {
        uint(if eraser { 2 } else { 1 })
    } else if index == 18 {
        uint(2)
    } else if index == 19 {
        uint(if eraser { 4 } else { 0 })
    } else if index == 20 {
        uint(if eraser { 0x080a } else { 0x0802 })
    } else {
        empty_reply()
    }
}

/// The reply to `WTInfo(category, index)`. `rate` is the feeder's report rate, `screen`
/// the primary screen size, and `session` the shared session when it is available.
pub open spec fn spec_info(category: u32, index: u32, wide: bool, rate: u32, screen: (i32, i32), session: Option<
    DataView,
>) -> InfoView {
    if category == 300 {
        if index == 1 {
            text("Cursor Mask"@, wide)
        } else if index == 2 {
            uint(3)
        } else if index == 7 || index == 8 {
            InfoView::Bytes(Seq::new(16, |i: int| 255u8))
        } else {
            empty_reply()
        }
    } else if category == 301 {
        if index == 1 {
            text("Out of Bounds Tracking"@, wide)
        } else if index == 2 {
            uint(0)
        } else if index == 6 {
            uint(match session { Some(d) => d.out_of_bounds, None => 0 })
        } else {
            empty_reply()
        }
    } else if category == 1 {
        if index == 1 {
            text("OpenCTL 460 WinTab"@, wide)
        } else if index == 2 {
            InfoView::Bytes(le16_bytes(0x0104))
        } else if index == 3 {
            InfoView::Bytes(le16_bytes(0x0002))
        } else if index == 4 {
            uint(1)
        } else if index == 5 || index == 9 {
            uint(2)
        } else if index == 6 {
            uint(MAX_CONTEXTS)
        } else if index == 7 {
            uint(OPTIONS)
        } else if index == 8 {
            uint(SAVE_BYTES)
        } else if index == 10 {
            uint(MANAGERS as u32)
        } else {
            empty_reply()
        }
    } else if category == 2 {
        match session {
            Some(d) => status_info(index, rate, d),
            None => empty_reply(),
        }
    } else if is_context_category(category) {
        context_info(category, index, wide, rate, screen, session)
    } else if category == 100 {
        device_info(index, wide, rate)
    } else if category == 200 || category == 201 {
        cursor_info(category, index, wide, match session { Some(d) => Some(d.cursors[category - 200]), None => None })
    } else {
        empty_reply()
    }
}

pub open spec fn session_view(session: Option<&Data>) -> Option<DataView> {
    match session {
        Some(d) => Some(d@),
        None => None,
    }
}

proof fn lemma_units_bytes_append(a: Seq<u16>, b: Seq<u16>)
    ensures
        units_bytes(a + b) == units_bytes(a) + units_bytes(b),
    decreases b.len(),
{
    if b.len() == 0 {
        assert(a + b =~= a);
        assert(units_bytes(a) + units_bytes(b) =~= units_bytes(a));
    } else {
        lemma_units_bytes_append(a, b.drop_last());
        assert((a + b).drop_last() =~= a + b.drop_last());
        assert(units_bytes(a) + units_bytes(b) =~= units_bytes(a) + units_bytes(b.drop_last()) + le16_bytes(b.last()));
    }
}

proof fn lemma_words_bytes_append(a: Seq<u32>, b: Seq<u32>)
    ensures
        words_bytes(a + b) == words_bytes(a) + words_bytes(b),
    decreases b.len(),
{
    if b.len() == 0 {
        assert(a + b =~= a);
        assert(words_bytes(a) + words_bytes(b) =~= words_bytes(a));
    } else {
        lemma_words_bytes_append(a, b.drop_last());
        assert((a + b).drop_last() =~= a + b.drop_last());
        assert(words_bytes(a) + words_bytes(b) =~= words_bytes(a) + words_bytes(b.drop_last()) + le32_bytes(b.last()));
    }
}

/// Append the UTF-16 units of `c`.
fn push_utf16(out: &mut Vec<u8>, c: char)
    ensures
        final(out)@ == old(out)@ + units_bytes(utf16_of(c)),
{
    let v = c as u32;
    if v < 0x10000 {
        push_le16(out, v as u16);
        assert(units_bytes(utf16_of(c)) =~= le16_bytes(v as u16)) by {
            let u = utf16_of(c);
            assert(u == seq![v as u16]);
            assert(u.drop_last() =~= Seq::<u16>::empty());
            assert(units_bytes(u.drop_last()) =~= Seq::<u8>::empty());
            assert(units_bytes(u) == units_bytes(u.drop_last()) + le16_bytes(u.last()));
        }
    } else {
        let hi = (0xd800 + (v - 0x10000) / 1024) as u16;
        let lo = (0xdc00 + (v - 0x10000) % 1024) as u16;
        push_le16(out, hi);
        push_le16(out, lo);
        assert(units_bytes(utf16_of(c)) =~= le16_bytes(hi) + le16_bytes(lo)) by {
            let u = utf16_of(c);
            assert(u == seq![hi, lo]);
            assert(u.drop_last() =~= seq![hi]);
            assert(u.drop_last().drop_last() =~= Seq::<u16>::empty());
            assert(units_bytes(u.drop_last().drop_last()) =~= Seq::<u8>::empty());
            assert(units_bytes(u.drop_last()) == units_bytes(u.drop_last().drop_last()) + le16_bytes(hi));
            assert(units_bytes(u) == units_bytes(u.drop_last()) + le16_bytes(u.last()));
        }
    }
    assert(final(out)@ =~= old(out)@ + units_bytes(utf16_of(c)));
}

/// A text in UTF-16 with its terminator.
fn wide_bytes(s: &str) -> (b: Vec<u8>)
    ensures
        b@ == wide_text(s@),
{
    let cs = chars_of(s);
    let mut b: Vec<u8> = Vec::new();
    let mut i: usize = 0;
    while i < cs.len()
        invariant
            i <= cs@.len(),
            cs@ == s@,
            b@ == units_bytes(utf16(cs@.take(i as int))),
        decreases cs@.len() - i,
    {
        let ghost before = cs@.take(i as int);
        push_utf16(&mut b, cs[i]);
        proof {
            let next = cs@.take(i as int + 1);
            assert(next.drop_last() =~= before);
            assert(utf16(next) == utf16(before) + utf16_of(cs@[i as int]));
            lemma_units_bytes_append(utf16(before), utf16_of(cs@[i as int]));
        }
        i += 1;
    }
    push_le16(&mut b, 0);
    proof {
        assert(cs@.take(cs@.len() as int) =~= cs@);
        let u = utf16(s@);
        assert(u.push(0u16).drop_last() =~= u);
    }
    b
}

fn uint_reply(n: u32) -> (r: InfoReply)
    ensures
        r@ == uint(n),
{
    let mut b: Vec<u8> = Vec::new();
    push_le32(&mut b, n);
    assert(b@ =~= le32_bytes(n));
    InfoReply::Bytes(b)
}

fn text_reply(s: &str, wide: bool) -> (r: InfoReply)
    ensures
        r@ == text(s@, wide),
{
    if wide {
        InfoReply::Bytes(wide_bytes(s))
    } else {
        InfoReply::Text(s.to_owned())
    }
}

fn push_axis(out: &mut Vec<u8>, min: i32, max: i32, units: u32, resolution: u32)
    ensures
        final(out)@ == old(out)@ + axis(min, max, units, resolution),
{
    push_le32(out, min as u32);
    push_le32(out, max as u32);
    push_le32(out, units);
    push_le32(out, resolution);
    assert(final(out)@ =~= old(out)@ + axis(min, max, units, resolution));
}

fn axis_reply(min: i32, max: i32, units: u32, resolution: u32) -> (r: InfoReply)
    ensures
        r@ == InfoView::Bytes(axis(min, max, units, resolution)),
{
    let mut b: Vec<u8> = Vec::new();
    push_axis(&mut b, min, max, units, resolution);
    assert(b@ =~= axis(min, max, units, resolution));
    InfoReply::Bytes(b)
}

/// The bytes of 32-bit values.
fn push_words(out: &mut Vec<u8>, w: &[u32])
    ensures
        final(out)@ == old(out)@ + words_bytes(w@),
{
    let mut i: usize = 0;
    while i < w.len()
        invariant
            i <= w@.len(),
            out@ == old(out)@ + words_bytes(w@.take(i as int)),
        decreases w@.len() - i,
    {
        push_le32(out, w[i]);
        proof {
            assert(w@.take(i as int + 1).drop_last() =~= w@.take(i as int));
        }
        i += 1;
    }
    assert(w@.take(w@.len() as int) =~= w@);
}

/// The bytes of 16-bit values.
fn push_units(out: &mut Vec<u8>, u: &[u16])
    ensures
        final(out)@ == old(out)@ + units_bytes(u@),
{
    let mut i: usize = 0;
    while i < u.len()
        invariant
            i <= u@.len(),
            out@ == old(out)@ + units_bytes(u@.take(i as int)),
        decreases u@.len() - i,
    {
        push_le16(out, u[i]);
        proof {
            assert(u@.take(i as int + 1).drop_last() =~= u@.take(i as int));
        }
        i += 1;
    }
    assert(u@.take(u@.len() as int) =~= u@);
}

fn bytes_reply(b: &[u8]) -> (r: InfoReply)
    ensures
        r@ == InfoView::Bytes(b@),
{
    let mut v: Vec<u8> = Vec::new();
    let mut i: usize = 0;
    while i < b.len()
        invariant
            i <= b@.len(),
            v@ == b@.take(i as int),
        decreases b@.len() - i,
    {
        v.push(b[i]);
        proof {
            assert(b@.take(i as int + 1) =~= b@.take(i as int).push(b@[i as int]));
        }
        i += 1;
    }
    assert(b@.take(b@.len() as int) =~= b@);
    InfoReply::Bytes(v)
}

fn status_reply(index: u32, rate: u32, d: &Data) -> (r: InfoReply)
    requires
        d.wf(),
    ensures
        r@ == status_info(index, rate, d@),
{
    let mut open: u32 = 0;
    let mut system: u32 = 0;
    let mut enabled = false;
    let mut packets: u32 = 0;
    let mut buttons: u32 = 0;
    let mut i: usize = 2;
    while i < CONTEXTS
        invariant
            2 <= i <= CONTEXTS,
            d.wf(),
            open == count_open(d.contexts@, i as int),
            system == count_system(d.contexts@, i as int),
            enabled == any_enabled(d.contexts@, i as int),
            packets == packet_union(d.contexts@, i as int),
            buttons == button_union(d.contexts@, i as int),
            open <= i && system <= i,
        decreases CONTEXTS - i,
    {
        let c = d.contexts[i];
        if c.id != 0 {
            open = open + 1;
            if c.words[0] & 1 != 0 {
                system = system + 1;
            }
            if c.enabled != 0 {
                enabled = true;
            }
            packets = packets | c.words[6];
            buttons = buttons | (c.words[9] | c.words[10]);
        } else {
            packets = packets | 0;
            buttons = buttons | 0;
        }
        i += 1;
    }
    let mut managers: u32 = 0;
    let mut k: usize = 0;
    while k < MANAGERS
        invariant
            k <= MANAGERS,
            d.wf(),
            managers == count_managers(d@, k as int),
            managers <= k,
        decreases MANAGERS - k,
    {
        if d.managers[k].id != 0 {
            managers = managers + 1;
        }
        k += 1;
    }
    if index == 1 {
        uint_reply(open)
    } else if index == 2 {
        uint_reply(system)
    } else if index == 3 {
        uint_reply(if enabled { rate } else { 0 })
    } else if index == 4 {
        uint_reply(packets)
    } else if index == 5 {
        uint_reply(managers)
    } else if index == 6 {
        uint_reply(1)
    } else if index == 7 {
        uint_reply(buttons)
    } else if index == 8 {
        uint_reply(3)
    } else {
        InfoReply::Bytes(Vec::new())
    }
}

fn default_record_of(category: u32, session: Option<&Data>) -> (r: Option<Record>)
    requires
        session matches Some(d) ==> d.wf(),
    ensures
        r == default_record(category, session_view(session)),
{
    if category == 3 || category == 4 || category == 400 || category == 500 {
        match session {
            Some(d) => d.get(if category == 4 || category == 500 { 2 } else { 1 }),
            None => None,
        }
    } else {
        None
    }
}

fn name_of(record: &Option<Record>) -> (s: String)
    ensures
        s@ == (match *record {
            Some(r) => utf16_lossy(until_zero(r.name@)),
            None => "OpenCTL 460"@,
        }),
{
    match record {
        Some(r) => {
            let mut units: Vec<u16> = Vec::new();
            let mut k: usize = 0;
            while k < 40 && r.name[k] != 0
                invariant
                    k <= 40,
                    units@ == r.name@.take(k as int),
                    forall|j: int| 0 <= j < k ==> r.name@[j] != 0,
                decreases 40 - k,
            {
                units.push(r.name[k]);
                proof {
                    assert(r.name@.take(k as int + 1) =~= r.name@.take(k as int).push(r.name@[k as int]));
                }
                k += 1;
            }
            proof {
                lemma_until_zero(r.name@, k as int);
            }
            from_utf16_lossy(units.as_slice())
        },
        None => "OpenCTL 460".to_owned(),
    }
}

fn words_of(category: u32, rate: u32, screen: (i32, i32), record: &Option<Record>) -> (w: Words)
    ensures
        w@ == (match *record {
            Some(r) => r.words@.update(5, rate),
            None => {
                let w = spec_default_words(rate, screen.0, screen.1);
                if is_system_category(category) {
                    w.update(0, w[0] | 1).update(17, w[27]).update(18, w[28]).update(20, w[29]).update(21, w[30])
                } else {
                    w
                }
            },
        }),
{
    match record {
        Some(r) => {
            let mut w = r.words;
            w[5] = rate;
            assert(w@ =~= r.words@.update(5, rate));
            w
        },
        None => {
            let mut w = default_words(rate, screen.0, screen.1);
            let ghost base = w@;
            if category == 4 || category == 500 {
                w[0] = w[0] | 1;
                w[17] = w[27];
                w[18] = w[28];
                w[20] = w[29];
                w[21] = w[30];
                assert(w@ =~= base.update(0, base[0] | 1).update(17, base[27]).update(18, base[28]).update(20, base[29]).update(21, base[30]));
            }
            w
        },
    }
}

fn context_reply(category: u32, index: u32, wide: bool, rate: u32, screen: (i32, i32), session: Option<&Data>) -> (r:
    InfoReply)
    requires
        session matches Some(d) ==> d.wf(),
        is_context_category(category),
    ensures
        r@ == context_info(category, index, wide, rate, screen, session_view(session)),
{
    let record = default_record_of(category, session);
    let name = name_of(&record);
    let words = words_of(category, rate, screen, &record);
    if index == 0 || index == 1 {
        if wide {
            let units = name_units(name.as_str());
            let mut b: Vec<u8> = Vec::new();
            push_units(&mut b, units.as_slice());
            if index == 0 {
                push_words(&mut b, words.as_slice());
            }
            assert(b@ =~= (if index == 0 {
                units_bytes(name_field(name@)) + words_bytes(words@)
            } else {
                units_bytes(name_field(name@))
            }));
            InfoReply::Bytes(b)
        } else if index == 0 {
            InfoReply::Context(name, words)
        } else {
            InfoReply::Name(name)
        }
    } else if 2 <= index && index <= 34 {
        uint_reply(words[(index - 2) as usize])
    } else {
        InfoReply::Bytes(Vec::new())
    }
}

fn device_reply(index: u32, wide: bool, rate: u32) -> (r: InfoReply)
    ensures
        r@ == device_info(index, wide, rate),
{
    if index == 1 {
        text_reply("OpenCTL 460 virtual pen", wide)
    } else if index == 2 {
        uint_reply(4)
    } else if index == 3 {
        uint_reply(2)
    } else if index == 4 {
        uint_reply(0)
    } else if index == 5 {
        uint_reply(rate)
    } else if index == 6 || index == 8 {
        uint_reply(SUPPORTED)
    } else if index == 7 {
        uint_reply(0)
    } else if index == 9 || index == 10 {
        uint_reply(16)
    } else if index == 11 {
        uint_reply(0)
    } else if index == 12 {
        axis_reply(0, 14720, 2, LINES_PER_CM)
    } else if index == 13 {
        axis_reply(0, 9200, 2, LINES_PER_CM)
    } else if index == 14 || index == 16 {
        axis_reply(0, 0, 0, 0)
    } else if index == 15 {
        axis_reply(0, 4097, 0, 0)
    } else if index == 17 {
        let mut b: Vec<u8> = Vec::new();
        push_axis(&mut b, 0, 3600, 3, TENTHS_PER_CIRCLE);
        push_axis(&mut b, -900, 900, 3, TENTHS_PER_CIRCLE);
        push_axis(&mut b, 0, 0, 0, 0);
        assert(b@ =~= axis(0, 3600, 3, TENTHS_PER_CIRCLE) + axis(-900i32, 900, 3, TENTHS_PER_CIRCLE) + axis(0, 0, 0, 0));
        InfoReply::Bytes(b)
    } else if index == 18 {
        let b = [0u8; 48];
        let r = bytes_reply(b.as_slice());
        assert(b@ =~= Seq::new(48, |i: int| 0u8));
        r
    } else if index == 19 {
        text_reply("CTL460Studio", wide)
    } else {
        InfoReply::Bytes(Vec::new())
    }
}

fn cursor_reply(category: u32, index: u32, wide: bool, cursor: Option<&Cursor>) -> (r: InfoReply)
    requires
        category == 200 || category == 201,
    ensures
        r@ == cursor_info(
            category,
            index,
            wide,
            match cursor {
                Some(c) => Some(*c),
                None => None,
            },
        ),
{
    let eraser = category == 201;
    if index == 1 {
        text_reply(if eraser { "Eraser" } else { "Pen" }, wide)
    } else if index == 2 {
        uint_reply(match cursor { Some(c) => c.enabled, None => 1 })
    } else if index == 3 || index == 17 {
        uint_reply(SUPPORTED)
    } else if index == 4 || index == 5 {
        let b = [2u8];
        let r = bytes_reply(b.as_slice());
        assert(b@ =~= seq![2u8]);
        r
    } else if index == 6 {
        text_reply("Tip\0Barrel\0", wide)
    } else if index == 7 {
        match cursor {
            Some(c) => bytes_reply(c.button_map.as_slice()),
            None => {
                let mut b: Vec<u8> = Vec::new();
                let mut i: u8 = 0;
                while i < 32
                    invariant
                        i <= 32,
                        b@ == Seq::new(i as nat, |k: int| k as u8),
                    decreases 32 - i,
                {
                    b.push(i);
                    proof {
                        assert(b@ =~= Seq::new((i + 1) as nat, |k: int| k as u8));
                    }
                    i += 1;
                }
                InfoReply::Bytes(b)
            },
        }
    } else if index == 8 {
        match cursor {
            Some(c) => bytes_reply(c.system_map.as_slice()),
            None => {
                let mut b = [0u8; 32];
                b[0] = 1;
                b[1] = 4;
                let r = bytes_reply(b.as_slice());
                assert(b@ =~= Seq::new(32, |i: int| if i == 0 { 1u8 } else if i == 1 { 4u8 } else { 0u8 }));
                r
            },
        }
    } else if index == 9 {
        let b = [0u8];
        let r = bytes_reply(b.as_slice());
        assert(b@ =~= seq![0u8]);
        r
    } else if index == 10 {
        let mut b: Vec<u8> = Vec::new();
        match cursor {
            Some(c) => push_words(&mut b, c.marks.as_slice()),
            None => {
                let m = [0u32, 1u32];
                push_words(&mut b, m.as_slice());
                assert(m@ =~= seq![0u32, 1u32]);
            },
        }
        InfoReply::Bytes(b)
    } else if index == 11 {
        let mut b: Vec<u8> = Vec::new();
        match cursor {
            Some(c) => push_words(&mut b, c.response.as_slice()),
            None => {
                let standard = Cursor::standard();
                push_words(&mut b, standard.response.as_slice());
                assert(standard.response@ =~= Seq::new(256, |i: int| default_response(i)));
            },
        }
        InfoReply::Bytes(b)
    } else if index == 12 {
        let b = [255u8];
        let r = bytes_reply(b.as_slice());
        assert(b@ =~= seq![255u8]);
        r
    } else if index == 13 {
        let b = [0u8; 8];
        let r = bytes_reply(b.as_slice());
        assert(b@ =~= Seq::new(8, |i: int| 0u8));
        r
    } else if index == 14 || index == 16 {
        uint_reply(0)
    } else if index == 15 {
        uint_reply(if eraser { 2 } else { 1 })
    } else if index == 18 {
        uint_reply(2)
    } else if index == 19 {
        uint_reply(if eraser { 4 } else { 0 })
    } else if index == 20 {
        uint_reply(if eraser { 0x080a } else { 0x0802 })
    } else {
        InfoReply::Bytes(Vec::new())
    }
}

/// Answer `WTInfo(category, index)` (see `spec_info`). Status queries expect the caller
/// to have pruned the session of ended processes.
pub fn info(category: u32, index: u32, wide: bool, rate: u32, screen: (i32, i32), session: Option<&Data>) -> (r:
    InfoReply)
    requires
        session matches Some(d) ==> d.wf(),
    ensures
        r@ == spec_info(category, index, wide, rate, screen, session_view(session)),
{
    if category == 300 {
        if index == 1 {
            text_reply("Cursor Mask", wide)
        } else if index == 2 {
            uint_reply(3)
        } else if index == 7 || index == 8 {
            let b = [255u8; 16];
            let r = bytes_reply(b.as_slice());
            assert(b@ =~= Seq::new(16, |i: int| 255u8));
            r
        } else {
            InfoReply::Bytes(Vec::new())
        }
    } else if category == 301 {
        if index == 1 {
            text_reply("Out of Bounds Tracking", wide)
        } else if index == 2 {
            uint_reply(0)
        } else if index == 6 {
            uint_reply(match session { Some(d) => d.out_of_bounds, None => 0 })
        } else {
            InfoReply::Bytes(Vec::new())
        }
    } else if category == 1 {
        if index == 1 {
            text_reply("OpenCTL 460 WinTab", wide)
        } else if index == 2 || index == 3 {
            let mut b: Vec<u8> = Vec::new();
            push_le16(&mut b, if index == 2 { 0x0104 } else { 0x0002 });
            assert(b@ =~= le16_bytes(if index == 2 { 0x0104u16 } else { 0x0002u16 }));
            InfoReply::Bytes(b)
        } else if index == 4 {
            uint_reply(1)
        } else if index == 5 || index == 9 {
            uint_reply(2)
        } else if index == 6 {
            uint_reply(MAX_CONTEXTS)
        } else if index == 7 {
            uint_reply(OPTIONS)
        } else if index == 8 {
            uint_reply(SAVE_BYTES)
        } else if index == 10 {
            uint_reply(MANAGERS as u32)
        } else {
            InfoReply::Bytes(Vec::new())
        }
    } else if category == 2 {
        match session {
            Some(d) => status_reply(index, rate, d),
            None => InfoReply::Bytes(Vec::new()),
        }
    } else if category == 3 || category == 4 || category == 400 || category == 500 {
        context_reply(category, index, wide, rate, screen, session)
    } else if category == 100 {
        device_reply(index, wide, rate)
    } else if category == 200 || category == 201 {
        let cursor = match session {
            Some(d) => Some(&d.cursors[(category - 200) as usize]),
            None => None,
        };
        cursor_reply(category, index, wide, cursor)
    } else {
        InfoReply::Bytes(Vec::new())
    }
}

/// The last index of a category read as a whole (0 for an unknown category).
pub open spec fn last_index(category: u32) -> u32 {
    if category == 1 {
        10
    } else if category == 2 {
        8
    } else if category == 100 {
        19
    } else if category == 200 || category == 201 {
        20
    } else if category == 300 {
        8
    } else if category == 301 {
        6
    } else {
        0
    }
}

/// Answer `WTInfo(category, 0)`: a context category's whole context, or the replies of
/// every index of another category in turn, to be concatenated.
pub fn category_info(category: u32, wide: bool, rate: u32, screen: (i32, i32), session: Option<&Data>) -> (r: Vec<
    InfoReply,
>)
    requires
        session matches Some(d) ==> d.wf(),
    ensures
        is_context_category(category) ==> r@.len() == 1 && r@[0]@ == spec_info(category, 0, wide, rate, screen, session_view(session)),
        !is_context_category(category) ==> {
            &&& r@.len() == last_index(category)
            &&& forall|i: int|
                0 <= i < r@.len() ==> (#[trigger] r@[i])@ == spec_info(category, (i + 1) as u32, wide, rate, screen, session_view(session))
        },
{
    let mut r: Vec<InfoReply> = Vec::new();
    if category == 3 || category == 4 || category == 400 || category == 500 {
        r.push(info(category, 0, wide, rate, screen, session));
        return r;
    }
    let last: u32 = if category == 1 {
        10
    } else if category == 2 {
        8
    } else if category == 100 {
        19
    } else if category == 200 || category == 201 {
        20
    } else if category == 300 {
        8
    } else if category == 301 {
        6
    } else {
        0
    };
    let mut i: u32 = 1;
    while i <= last
        invariant
            1 <= i <= last + 1,
            last == last_index(category),
            last <= 20,
            session matches Some(d) ==> d.wf(),
            r@.len() == i - 1,
            forall|k: int|
                0 <= k < r@.len() ==> (#[trigger] r@[k])@ == spec_info(category, (k + 1) as u32, wide, rate, screen, session_view(session)),
        decreases last + 1 - i,
    {
        r.push(info(category, i, wide, rate, screen, session));
        i += 1;
    }
    r
}

} // verus!
