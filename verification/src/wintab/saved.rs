//! The context save format used by WTSave and WTRestore: a versioned, checksummed
//! little-endian image of a context's name, words, queue size and cursor mask.
use vstd::prelude::*;
use super::words::{Words, spec_valid_words, valid_words};
use crate::text::chars_of;

verus! {

/// Size of a saved context in the current format.
pub const SAVE_SIZE: usize = 244;
/// Size of a saved context in the previous format, which had no cursor mask.
pub const LEGACY_SAVE_SIZE: usize = 228;

pub open spec fn header(version: u8) -> Seq<u8> {
    seq![0x4fu8, 0x43u8, 0x54u8, 0x4cu8, 0x57u8, 0x54u8, 0x30u8, version]
}

/// 32-bit FNV-1a over the bytes.
pub open spec fn fnv(data: Seq<u8>) -> u32
    decreases data.len(),
{
    if data.len() == 0 {
        2166136261u32
    } else {
        ((fnv(data.drop_last()) ^ (data.last() as u32)) as u64 * 16777619u64) as u32
    }
}

pub fn checksum(data: &[u8], n: usize) -> (h: u32)
    requires
        n <= data@.len(),
    ensures
        h == fnv(data@.take(n as int)),
{
    let mut h: u32 = 2166136261;
    let mut i: usize = 0;
    while i < n
        invariant
            i <= n <= data@.len(),
            h == fnv(data@.take(i as int)),
        decreases n - i,
    {
        proof {
            assert(data@.take(i as int + 1).drop_last() =~= data@.take(i as int));
        }
        h = ((h ^ data[i] as u32) as u64 * 16777619u64) as u32;
        i += 1;
    }
    h
}

pub open spec fn le16(b0: u8, b1: u8) -> u16 {
    (b0 as u16) | ((b1 as u16) << 8)
}

pub open spec fn le32(b0: u8, b1: u8, b2: u8, b3: u8) -> u32 {
    (b0 as u32) | ((b1 as u32) << 8) | ((b2 as u32) << 16) | ((b3 as u32) << 24)
}

pub open spec fn le16_bytes(x: u16) -> Seq<u8> {
    seq![(x & 0xff) as u8, ((x >> 8) & 0xff) as u8]
}

pub open spec fn le32_bytes(x: u32) -> Seq<u8> {
    seq![(x & 0xff) as u8, ((x >> 8) & 0xff) as u8, ((x >> 16) & 0xff) as u8, ((x >> 24) & 0xff) as u8]
}

proof fn lemma_le16(x: u16)
    ensures
        le16(le16_bytes(x)[0], le16_bytes(x)[1]) == x,
{
    let b0 = (x & 0xff) as u8;
    let b1 = ((x >> 8) & 0xff) as u8;
    assert((((x & 0xff) as u8) as u16) | ((((x >> 8) & 0xff) as u8) as u16) << 8 == x) by (bit_vector);
}

proof fn lemma_le32(x: u32)
    ensures
        le32(le32_bytes(x)[0], le32_bytes(x)[1], le32_bytes(x)[2], le32_bytes(x)[3]) == x,
{
    assert((((x & 0xff) as u8) as u32) | ((((x >> 8) & 0xff) as u8) as u32) << 8 | ((((x >> 16) & 0xff) as u8)
        as u32) << 16 | ((((x >> 24) & 0xff) as u8) as u32) << 24 == x) by (bit_vector);
}

pub open spec fn units_bytes(u: Seq<u16>) -> Seq<u8>
    decreases u.len(),
{
    if u.len() == 0 { seq![] } else { units_bytes(u.drop_last()) + le16_bytes(u.last()) }
}

pub open spec fn words_bytes(w: Seq<u32>) -> Seq<u8>
    decreases w.len(),
{
    if w.len() == 0 { seq![] } else { words_bytes(w.drop_last()) + le32_bytes(w.last()) }
}

proof fn lemma_units_bytes(u: Seq<u16>)
    ensures
        units_bytes(u).len() == 2 * u.len(),
        forall|k: int| 0 <= k < u.len() ==> {
            &&& #[trigger] units_bytes(u)[2 * k] == le16_bytes(u[k])[0]
            &&& units_bytes(u)[2 * k + 1] == le16_bytes(u[k])[1]
        },
    decreases u.len(),
{
    if u.len() > 0 {
        lemma_units_bytes(u.drop_last());
        assert forall|k: int| 0 <= k < u.len() implies {
            &&& #[trigger] units_bytes(u)[2 * k] == le16_bytes(u[k])[0]
            &&& units_bytes(u)[2 * k + 1] == le16_bytes(u[k])[1]
        } by {
            if k < u.len() - 1 {
                assert(units_bytes(u.drop_last())[2 * k] == le16_bytes(u.drop_last()[k])[0]);
            }
        }
    }
}

proof fn lemma_words_bytes(w: Seq<u32>)
    ensures
        words_bytes(w).len() == 4 * w.len(),
        forall|k: int| 0 <= k < w.len() ==> {
            &&& #[trigger] words_bytes(w)[4 * k] == le32_bytes(w[k])[0]
            &&& words_bytes(w)[4 * k + 1] == le32_bytes(w[k])[1]
            &&& words_bytes(w)[4 * k + 2] == le32_bytes(w[k])[2]
            &&& words_bytes(w)[4 * k + 3] == le32_bytes(w[k])[3]
        },
    decreases w.len(),
{
    if w.len() > 0 {
        lemma_words_bytes(w.drop_last());
        assert forall|k: int| 0 <= k < w.len() implies {
            &&& #[trigger] words_bytes(w)[4 * k] == le32_bytes(w[k])[0]
            &&& words_bytes(w)[4 * k + 1] == le32_bytes(w[k])[1]
            &&& words_bytes(w)[4 * k + 2] == le32_bytes(w[k])[2]
            &&& words_bytes(w)[4 * k + 3] == le32_bytes(w[k])[3]
        } by {
            if k < w.len() - 1 {
                assert(words_bytes(w.drop_last())[4 * k] == le32_bytes(w.drop_last()[k])[0]);
            }
        }
    }
}

/// UTF-16 code units of one character.
pub open spec fn utf16_of(c: char) -> Seq<u16> {
    let v = c as u32;
    if v < 0x10000 {
        seq![v as u16]
    } else {
        seq![(0xd800 + (v - 0x10000) / 1024) as u16, (0xdc00 + (v - 0x10000) % 1024) as u16]
    }
}

/// UTF-16 encoding of a character sequence.
pub open spec fn utf16(cs: Seq<char>) -> Seq<u16>
    decreases cs.len(),
{
    if cs.len() == 0 { seq![] } else { utf16(cs.drop_last()) + utf16_of(cs.last()) }
}

/// The leading characters of a name that fit in 39 UTF-16 units (a name field holds 40
/// units including the terminator); a character that does not fit ends the name.
pub open spec fn kept(cs: Seq<char>) -> Seq<char>
    decreases cs.len(),
{
    if cs.len() == 0 {
        seq![]
    } else {
        let k = kept(cs.drop_last());
        if k == cs.drop_last() && utf16(cs).len() <= 39 { cs } else { k }
    }
}

/// The 40-unit name field: the kept characters in UTF-16, zero padded.
pub open spec fn name_field(cs: Seq<char>) -> Seq<u16> {
    let u = utf16(kept(cs));
    Seq::new(40, |i: int| if i < u.len() { u[i] } else { 0u16 })
}

proof fn lemma_kept_prefix(cs: Seq<char>)
    ensures
        kept(cs).len() <= cs.len(),
        kept(cs) == cs.take(kept(cs).len() as int),
    decreases cs.len(),
{
    if cs.len() > 0 {
        lemma_kept_prefix(cs.drop_last());
        let k = kept(cs.drop_last());
        assert(cs.drop_last().take(k.len() as int) =~= cs.take(k.len() as int));
        assert(cs.take(cs.len() as int) =~= cs);
    } else {
        assert(cs.take(0) =~= cs);
    }
}

/// Once a character fails to fit, no later character is kept.
proof fn lemma_kept_stable(cs: Seq<char>, n: int)
    requires
        0 <= n <= cs.len(),
        kept(cs.take(n)) != cs.take(n),
    ensures
        kept(cs) == kept(cs.take(n)),
    decreases cs.len(),
{
    if cs.len() == n {
        assert(cs.take(n) =~= cs);
    } else {
        assert(cs.drop_last().take(n) =~= cs.take(n));
        lemma_kept_stable(cs.drop_last(), n);
        lemma_kept_prefix(cs.take(n));
        assert(kept(cs.drop_last()).len() < n) by {
            if kept(cs.take(n)).len() == n {
                assert(cs.take(n).take(n) =~= cs.take(n));
                assert(kept(cs.take(n)) == cs.take(n));
            }
        }
    }
}

/// The 40-unit name field of a name.
pub fn name_units(name: &str) -> (a: [u16; 40])
    ensures
        a@ == name_field(name@),
{
    let cs = chars_of(name);
    let mut a = [0u16; 40];
    let mut used: usize = 0;
    let mut i: usize = 0;
    let mut fits = true;
    while i < cs.len()
        invariant
            i <= cs@.len(),
            cs@ == name@,
            kept(cs@.take(i as int)) == cs@.take(i as int),
            used == utf16(cs@.take(i as int)).len(),
            used <= 39,
            a@.len() == 40,
            forall|k: int| 0 <= k < 40 ==> #[trigger] a@[k] == if k < used { utf16(cs@.take(i as int))[k] } else { 0u16 },
            !fits ==> i < cs@.len() && utf16(cs@.take(i as int + 1)).len() > 39,
        ensures
            !fits ==> i < cs@.len() && utf16(cs@.take(i as int + 1)).len() > 39,
            fits ==> i == cs@.len(),
        decreases cs@.len() - i,
    {
        let c = cs[i];
        let v = c as u32;
        proof {
            assert(cs@.take(i as int + 1).drop_last() =~= cs@.take(i as int));
            assert(cs@.take(i as int + 1).last() == c);
        }
        let n: usize = if v < 0x10000 { 1 } else { 2 };
        if used + n > 39 {
            fits = false;
            break;
        }
        let ghost before = a@;
        if v < 0x10000 {
            a[used] = v as u16;
        } else {
            a[used] = (0xd800 + (v - 0x10000) / 1024) as u16;
            a[used + 1] = (0xdc00 + (v - 0x10000) % 1024) as u16;
        }
        used = used + n;
        i += 1;
        proof {
            let t = cs@.take(i as int);
            assert(utf16(t) == utf16(t.drop_last()) + utf16_of(c));
            assert(kept(t) == t);
        }
    }
    proof {
        if fits {
            assert(cs@.take(cs@.len() as int) =~= cs@);
        } else {
            let t = cs@.take(i as int + 1);
            assert(t.drop_last() =~= cs@.take(i as int));
            assert(kept(t) == cs@.take(i as int)) by {
                if kept(t) == t {
                    assert(t.len() == i + 1);
                    assert(kept(t.drop_last()) == t.drop_last());
                }
            }
            assert(kept(t) != t) by {
                assert(t.len() != cs@.take(i as int).len());
            }
            lemma_kept_stable(cs@, i as int + 1);
        }
        assert(a@ =~= name_field(name@));
    }
    a
}

/// The saved image before its checksum.
pub open spec fn save_body(name: Seq<char>, words: Seq<u32>, capacity: u32, mask: Seq<u8>) -> Seq<u8> {
    header(0x33) + units_bytes(name_field(name)) + words_bytes(words) + le32_bytes(capacity) + mask
}

/// A saved context: the body followed by its FNV-1a checksum.
pub open spec fn spec_save(name: Seq<char>, words: Seq<u32>, capacity: u32, mask: Seq<u8>) -> Seq<u8> {
    save_body(name, words, capacity, mask) + le32_bytes(fnv(save_body(name, words, capacity, mask)))
}

pub(crate) fn push_le16(v: &mut Vec<u8>, x: u16)
    ensures
        final(v)@ == old(v)@ + le16_bytes(x),
{
    v.push((x & 0xff) as u8);
    v.push(((x >> 8) & 0xff) as u8);
    assert(v@ =~= old(v)@ + le16_bytes(x));
}

pub(crate) fn push_le32(v: &mut Vec<u8>, x: u32)
    ensures
        final(v)@ == old(v)@ + le32_bytes(x),
{
    v.push((x & 0xff) as u8);
    v.push(((x >> 8) & 0xff) as u8);
    v.push(((x >> 16) & 0xff) as u8);
    v.push(((x >> 24) & 0xff) as u8);
    assert(v@ =~= old(v)@ + le32_bytes(x));
}

/// Serialize a context for WTSave. The queue size is stored in 32 bits.
pub fn save_context(name: &str, words: &Words, capacity: usize, mask: &[u8; 16]) -> (data: Vec<u8>)
    ensures
        data@ == spec_save(name@, words@, capacity as u32, mask@),
        data@.len() == SAVE_SIZE,
{
    let mut data: Vec<u8> = Vec::new();
    let head: [u8; 8] = [0x4f, 0x43, 0x54, 0x4c, 0x57, 0x54, 0x30, 0x33];
    let mut i: usize = 0;
    while i < 8
        invariant
            i <= 8,
            data@ == head@.take(i as int),
        decreases 8 - i,
    {
        data.push(head[i]);
        proof {
            assert(head@.take(i as int + 1) =~= head@.take(i as int).push(head@[i as int]));
        }
        i += 1;
    }
    assert(head@.take(8) =~= header(0x33));
    let units = name_units(name);
    let ghost nf = name_field(name@);
    i = 0;
    while i < 40
        invariant
            i <= 40,
            units@ == nf,
            nf.len() == 40,
            data@ == header(0x33) + units_bytes(nf.take(i as int)),
        decreases 40 - i,
    {
        push_le16(&mut data, units[i]);
        proof {
            assert(nf.take(i as int + 1).drop_last() =~= nf.take(i as int));
        }
        i += 1;
    }
    assert(nf.take(40) =~= nf);
    let ghost after_name = data@;
    i = 0;
    while i < 33
        invariant
            i <= 33,
            data@ == after_name + words_bytes(words@.take(i as int)),
        decreases 33 - i,
    {
        push_le32(&mut data, words[i]);
        proof {
            assert(words@.take(i as int + 1).drop_last() =~= words@.take(i as int));
            assert(data@ =~= after_name + words_bytes(words@.take(i as int + 1)));
        }
        i += 1;
    }
    assert(words@.take(33) =~= words@);
    push_le32(&mut data, capacity as u32);
    let ghost before_mask = data@;
    i = 0;
    while i < 16
        invariant
            i <= 16,
            data@ == before_mask + mask@.take(i as int),
        decreases 16 - i,
    {
        data.push(mask[i]);
        proof {
            assert(data@ =~= before_mask + mask@.take(i as int + 1));
        }
        i += 1;
    }
    assert(mask@.take(16) =~= mask@);
    assert(data@ =~= save_body(name@, words@, capacity as u32, mask@));
    proof {
        lemma_units_bytes(nf);
        lemma_words_bytes(words@);
    }
    let n = data.len();
    let sum = checksum(&data, n);
    assert(data@.take(n as int) =~= data@);
    push_le32(&mut data, sum);
    data
}

pub open spec fn read16(d: Seq<u8>, at: int) -> u16 {
    le16(d[at], d[at + 1])
}

pub open spec fn read32(d: Seq<u8>, at: int) -> u32 {
    le32(d[at], d[at + 1], d[at + 2], d[at + 3])
}

/// The units before the first zero.
pub open spec fn until_zero(u: Seq<u16>) -> Seq<u16>
    decreases u.len(),
{
    if u.len() == 0 || u[0] == 0 { seq![] } else { seq![u[0]] + until_zero(u.drop_first()) }
}

/// A saved image read back, or `None` when it is not an intact image of a valid context:
/// (name units, words, queue size, cursor mask). The previous format restores with
/// every cursor selected.
pub open spec fn spec_restore(d: Seq<u8>) -> Option<(Seq<u16>, Seq<u32>, u32, Seq<u8>)> {
    if !((d.len() == LEGACY_SAVE_SIZE && d.take(8) == header(0x32)) || (d.len() == SAVE_SIZE && d.take(8) == header(
        0x33,
    ))) {
        None
    } else if fnv(d.take(d.len() - 4)) != read32(d, d.len() - 4) {
        None
    } else {
        let units = Seq::new(40, |k: int| read16(d, 8 + 2 * k));
        let words = Seq::new(33, |k: int| read32(d, 88 + 4 * k));
        let capacity = read32(d, 220);
        if !spec_valid_words(words) || capacity > 4096 {
            None
        } else {
            Some((
                until_zero(units),
                words,
                capacity,
                if d.len() == SAVE_SIZE { d.subrange(224, 240) } else { seq![255u8; 16] },
            ))
        }
    }
}

/// Lossy UTF-16 decoding: a high surrogate followed by a low one is one character, any
/// other surrogate becomes U+FFFD, and every other unit is its own character.
pub open spec fn utf16_lossy(units: Seq<u16>) -> Seq<char>
    decreases units.len(),
{
    if units.len() == 0 {
        seq![]
    } else if 0xd800 <= units[0] < 0xdc00 && units.len() >= 2 && 0xdc00 <= units[1] < 0xe000 {
        seq![(0x10000 + (units[0] - 0xd800) * 1024 + (units[1] - 0xdc00)) as char] + utf16_lossy(units.skip(2))
    } else if 0xd800 <= units[0] < 0xe000 {
        seq!['\u{FFFD}'] + utf16_lossy(units.skip(1))
    } else {
        seq![units[0] as char] + utf16_lossy(units.skip(1))
    }
}

proof fn lemma_utf16_first(cs: Seq<char>)
    requires
        cs.len() > 0,
    ensures
        utf16(cs) == utf16_of(cs[0]) + utf16(cs.drop_first()),
    decreases cs.len(),
{
    if cs.len() == 1 {
        assert(cs.drop_last() =~= Seq::<char>::empty());
        assert(cs.drop_first() =~= Seq::<char>::empty());
        assert(utf16(cs) =~= utf16_of(cs[0]) + utf16(cs.drop_first()));
    } else {
        lemma_utf16_first(cs.drop_last());
        assert(cs.drop_last().drop_first() =~= cs.drop_first().drop_last());
        assert(cs.drop_last()[0] == cs[0]);
        assert(cs.drop_first().last() == cs.last());
        assert(utf16(cs) =~= utf16_of(cs[0]) + utf16(cs.drop_first()));
    }
}

proof fn lemma_lossy_one(c: char, rest: Seq<u16>)
    ensures
        utf16_lossy(utf16_of(c) + rest) == seq![c] + utf16_lossy(rest),
{
    let v = c as u32;
    let u = utf16_of(c) + rest;
    if v < 0x10000 {
        assert(u[0] == v as u16);
        assert(u.skip(1) =~= rest);
        assert(!(0xd800 <= v < 0xe000));
        assert((u[0] as char) == c);
    } else {
        let w = v - 0x10000;
        assert(w == (w / 1024) * 1024 + w % 1024);
        assert(0 <= w / 1024 < 1024);
        assert(u[0] == (0xd800 + w / 1024) as u16);
        assert(u[1] == (0xdc00 + w % 1024) as u16);
        assert(u.skip(2) =~= rest);
        assert((0x10000 + (u[0] - 0xd800) * 1024 + (u[1] - 0xdc00)) == v);
    }
}

/// Decoding a valid UTF-16 encoding gives back the characters.
pub proof fn lemma_utf16_round_trip(cs: Seq<char>)
    ensures
        utf16_lossy(utf16(cs)) == cs,
    decreases cs.len(),
{
    if cs.len() > 0 {
        lemma_utf16_first(cs);
        lemma_utf16_round_trip(cs.drop_first());
        lemma_lossy_one(cs[0], utf16(cs.drop_first()));
        assert(seq![cs[0]] + cs.drop_first() =~= cs);
    }
}

/// Decodes UTF-16 with std `String::from_utf16_lossy`, which replaces invalid units
/// with U+FFFD.
#[verifier::external_body]
pub(crate) fn from_utf16_lossy(units: &[u16]) -> (s: String)
    ensures
        s@ == utf16_lossy(units@),
{
    String::from_utf16_lossy(units)
}

fn read16_at(d: &[u8], at: usize) -> (x: u16)
    requires
        at + 2 <= d@.len(),
    ensures
        x == read16(d@, at as int),
{
    (d[at] as u16) | ((d[at + 1] as u16) << 8)
}

fn read32_at(d: &[u8], at: usize) -> (x: u32)
    requires
        at + 4 <= d@.len(),
    ensures
        x == read32(d@, at as int),
{
    (d[at] as u32) | ((d[at + 1] as u32) << 8) | ((d[at + 2] as u32) << 16) | ((d[at + 3] as u32) << 24)
}

/// Read back a WTSave image: name, words, queue size and cursor mask, or `None`
/// when the image is damaged, of an unknown version, or describes an invalid context.
pub fn restore_context(data: &[u8]) -> (r: Option<(String, Words, usize, [u8; 16])>)
    ensures
        r is Some <==> spec_restore(data@) is Some,
        r matches Some((name, words, capacity, mask)) ==> {
            let (units, w, c, m) = spec_restore(data@)->0;
            &&& name@ == utf16_lossy(units)
            &&& forall|cs: Seq<char>| units == utf16(cs) ==> name@ == cs
            &&& words@ == w
            &&& capacity == c
            &&& mask@ == m
        },
{
    let n = data.len();
    if !(n == LEGACY_SAVE_SIZE || n == SAVE_SIZE) {
        return None;
    }
    let version: u8 = if n == SAVE_SIZE { 0x33 } else { 0x32 };
    let head: [u8; 8] = [0x4f, 0x43, 0x54, 0x4c, 0x57, 0x54, 0x30, version];
    assert(head@ =~= header(version));
    let mut i: usize = 0;
    while i < 8
        invariant
            i <= 8,
            n == data@.len(),
            n >= 8,
            head@ == header(version),
            version == if n == SAVE_SIZE { 0x33u8 } else { 0x32u8 },
            forall|k: int| 0 <= k < i ==> data@[k] == head@[k],
        decreases 8 - i,
    {
        if data[i] != head[i] {
            proof {
                assert(data@.take(8)[i as int] != header(version)[i as int]);
            }
            return None;
        }
        i += 1;
    }
    proof {
        assert(data@.take(8) =~= header(version));
        assert(header(0x33) != header(0x32)) by {
            assert(header(0x33)[7] != header(0x32)[7]);
        }
    }
    let end = n - 4;
    let sum = checksum(data, end);
    if sum != read32_at(data, end) {
        return None;
    }
    let mut units: Vec<u16> = Vec::new();
    let ghost field = Seq::new(40, |k: int| read16(data@, 8 + 2 * k));
    let mut k: usize = 0;
    let mut stopped = false;
    while k < 40
        invariant
            k <= 40,
            n == data@.len(),
            n >= 228,
            field == Seq::new(40, |k: int| read16(data@, 8 + 2 * k)),
            !stopped ==> units@ == field.take(k as int) && forall|j: int| 0 <= j < k ==> field[j] != 0,
            stopped ==> units@ == until_zero(field),
        decreases 40 - k,
    {
        if !stopped {
            let u = read16_at(data, 8 + 2 * k);
            if u == 0 {
                stopped = true;
                proof {
                    lemma_until_zero(field, k as int);
                }
            } else {
                units.push(u);
                proof {
                    assert(units@ =~= field.take(k as int + 1));
                }
            }
        }
        k += 1;
    }
    if !stopped {
        proof {
            lemma_until_zero(field, 40);
            assert(field.take(40) =~= field);
        }
    }
    let mut words = [0u32; 33];
    k = 0;
    while k < 33
        invariant
            k <= 33,
            n == data@.len(),
            n >= 228,
            forall|j: int| 0 <= j < k ==> #[trigger] words@[j] == read32(data@, 88 + 4 * j),
        decreases 33 - k,
    {
        words[k] = read32_at(data, 88 + 4 * k);
        k += 1;
    }
    assert(words@ =~= Seq::new(33, |k: int| read32(data@, 88 + 4 * k)));
    let capacity = read32_at(data, 220);
    if !valid_words(&words) || capacity > 4096 {
        return None;
    }
    let mut mask = [255u8; 16];
    if n == SAVE_SIZE {
        k = 0;
        while k < 16
            invariant
                k <= 16,
                n == data@.len(),
                n == SAVE_SIZE,
                forall|j: int| 0 <= j < k ==> #[trigger] mask@[j] == data@[224 + j],
            decreases 16 - k,
        {
            mask[k] = data[224 + k];
            k += 1;
        }
        assert(mask@ =~= data@.subrange(224, 240));
    } else {
        assert(mask@ =~= seq![255u8; 16]);
    }
    let name = from_utf16_lossy(units.as_slice());
    proof {
        assert forall|cs: Seq<char>| units@ == utf16(cs) implies name@ == cs by {
            lemma_utf16_round_trip(cs);
        }
    }
    Some((name, words, capacity as usize, mask))
}

/// The units before the first zero, when the first `n` units are nonzero and unit `n` is zero
/// (or there is none).
pub(crate) proof fn lemma_until_zero(u: Seq<u16>, n: int)
    requires
        0 <= n <= u.len(),
        forall|j: int| 0 <= j < n ==> u[j] != 0,
        n == u.len() || u[n] == 0,
    ensures
        until_zero(u) == u.take(n),
    decreases n,
{
    if n == 0 {
        assert(u.take(0) =~= seq![]);
    } else {
        lemma_until_zero(u.drop_first(), n - 1);
        assert(u.take(n) =~= seq![u[0]] + u.drop_first().take(n - 1));
    }
}

proof fn lemma_utf16_of_nonzero(c: char)
    requires
        c != '\0',
    ensures
        forall|i: int| 0 <= i < utf16_of(c).len() ==> #[trigger] utf16_of(c)[i] != 0,
        utf16_of(c).len() >= 1,
{
    let v = c as u32;
    assert(v != 0);
    if v >= 0x10000 {
        assert(v <= 0x10ffff);
        assert((v - 0x10000) / 1024 <= 0x3ff);
    }
}

proof fn lemma_utf16_nonzero(cs: Seq<char>)
    requires
        forall|i: int| 0 <= i < cs.len() ==> #[trigger] cs[i] != '\0',
    ensures
        forall|i: int| 0 <= i < utf16(cs).len() ==> #[trigger] utf16(cs)[i] != 0,
    decreases cs.len(),
{
    if cs.len() > 0 {
        lemma_utf16_nonzero(cs.drop_last());
        lemma_utf16_of_nonzero(cs.last());
        let a = utf16(cs.drop_last());
        assert forall|i: int| 0 <= i < utf16(cs).len() implies #[trigger] utf16(cs)[i] != 0 by {
            if i < a.len() {
                assert(utf16(cs)[i] == a[i]);
            } else {
                assert(utf16(cs)[i] == utf16_of(cs.last())[i - a.len()]);
            }
        }
    }
}

proof fn lemma_kept_fits(cs: Seq<char>)
    ensures
        utf16(kept(cs)).len() <= 39,
    decreases cs.len(),
{
    if cs.len() > 0 {
        lemma_kept_fits(cs.drop_last());
    }
}

proof fn lemma_kept_no_nul(cs: Seq<char>)
    requires
        forall|i: int| 0 <= i < cs.len() ==> #[trigger] cs[i] != '\0',
    ensures
        forall|i: int| 0 <= i < kept(cs).len() ==> #[trigger] kept(cs)[i] != '\0',
{
    lemma_kept_prefix(cs);
    assert forall|i: int| 0 <= i < kept(cs).len() implies #[trigger] kept(cs)[i] != '\0' by {
        assert(kept(cs)[i] == cs.take(kept(cs).len() as int)[i]);
    }
}

/// Restoring a saved context gives back its words, queue size and cursor mask, and the
/// UTF-16 units of its name as far as they fit the name field (a name without NUL characters).
pub proof fn lemma_restore_saved(name: Seq<char>, words: Seq<u32>, capacity: u32, mask: Seq<u8>)
    requires
        words.len() == 33,
        mask.len() == 16,
        spec_valid_words(words),
        capacity <= 4096,
        forall|i: int| 0 <= i < name.len() ==> #[trigger] name[i] != '\0',
    ensures
        spec_restore(spec_save(name, words, capacity, mask)) == Some((utf16(kept(name)), words, capacity, mask)),
{
    let nf = name_field(name);
    let ub = units_bytes(nf);
    let wb = words_bytes(words);
    let body = save_body(name, words, capacity, mask);
    let d = spec_save(name, words, capacity, mask);
    lemma_units_bytes(nf);
    lemma_words_bytes(words);
    assert(body.len() == 240);
    assert(d.len() == 244);
    assert(d.take(8) =~= header(0x33));
    assert(d.take(240) =~= body);
    lemma_le32(fnv(body));
    assert(read32(d, 240) == fnv(body));
    let units = Seq::new(40, |k: int| read16(d, 8 + 2 * k));
    assert forall|k: int| 0 <= k < 40 implies #[trigger] units[k] == nf[k] by {
        assert(d[8 + 2 * k] == ub[2 * k]);
        assert(d[8 + 2 * k + 1] == ub[2 * k + 1]);
        lemma_le16(nf[k]);
    }
    assert(units =~= nf);
    let kn = utf16(kept(name));
    lemma_kept_fits(name);
    lemma_kept_no_nul(name);
    lemma_utf16_nonzero(kept(name));
    assert forall|j: int| 0 <= j < kn.len() implies nf[j] != 0 by {
        assert(nf[j] == kn[j]);
    }
    lemma_until_zero(nf, kn.len() as int);
    assert(nf.take(kn.len() as int) =~= kn);
    let ws = Seq::new(33, |k: int| read32(d, 88 + 4 * k));
    assert forall|k: int| 0 <= k < 33 implies #[trigger] ws[k] == words[k] by {
        assert(d[88 + 4 * k] == wb[4 * k]);
        assert(d[88 + 4 * k + 1] == wb[4 * k + 1]);
        assert(d[88 + 4 * k + 2] == wb[4 * k + 2]);
        assert(d[88 + 4 * k + 3] == wb[4 * k + 3]);
        lemma_le32(words[k]);
    }
    assert(ws =~= words);
    assert(d[220] == le32_bytes(capacity)[0]);
    assert(d[221] == le32_bytes(capacity)[1]);
    assert(d[222] == le32_bytes(capacity)[2]);
    assert(d[223] == le32_bytes(capacity)[3]);
    lemma_le32(capacity);
    assert(d.subrange(224, 240) =~= mask);
}


/// One FNV-1a step tells different states apart: xor with a byte and a multiplication by
/// the odd FNV prime are both one-to-one.
proof fn lemma_fnv_step_apart(x: u32, y: u32, c: u32, e: u32)
    requires
        x != y || c != e,
        x == y || c == e,
    ensures
        (((x ^ c) as u64 * 16777619u64) as u32) != (((y ^ e) as u64 * 16777619u64) as u32),
{
    assert((((x ^ c) as u64 * 16777619u64) as u32) != (((y ^ e) as u64 * 16777619u64) as u32)) by (bit_vector)
        requires
            x != y || c != e,
            x == y || c == e,
    ;
}

/// Changing one byte changes the FNV-1a checksum.
proof fn lemma_fnv_one_byte(a: Seq<u8>, k: int, b: u8)
    requires
        0 <= k < a.len(),
        b != a[k],
    ensures
        fnv(a.update(k, b)) != fnv(a),
    decreases a.len(),
{
    let a2 = a.update(k, b);
    if k == a.len() - 1 {
        assert(a2.drop_last() =~= a.drop_last());
        lemma_fnv_step_apart(fnv(a.drop_last()), fnv(a.drop_last()), b as u32, a.last() as u32);
    } else {
        assert(a2.drop_last() =~= a.drop_last().update(k, b));
        lemma_fnv_one_byte(a.drop_last(), k, b);
        lemma_fnv_step_apart(fnv(a2.drop_last()), fnv(a.drop_last()), a.last() as u32, a.last() as u32);
    }
}

/// A damaged saved context is refused: changing any one byte of a readable image makes it
/// unreadable (the header, the checksum, or the bytes the checksum covers no longer match).
pub proof fn lemma_one_byte_damage_refused(d: Seq<u8>, k: int, b: u8)
    requires
        spec_restore(d) is Some,
        0 <= k < d.len(),
        b != d[k],
    ensures
        spec_restore(d.update(k, b)) is None,
{
    let d2 = d.update(k, b);
    let n = d.len() as int;
    if k < 8 {
        assert(d2.take(8)[k] != d.take(8)[k]);
    } else if k < n - 4 {
        assert(d2.take(8) =~= d.take(8));
        assert(d2.take(n - 4) =~= d.take(n - 4).update(k, b));
        lemma_fnv_one_byte(d.take(n - 4), k, b);
        assert(read32(d2, n - 4) == read32(d, n - 4));
    } else {
        assert(d2.take(8) =~= d.take(8));
        assert(d2.take(n - 4) =~= d.take(n - 4));
        let (b0, b1, b2, b3) = (d[n - 4], d[n - 3], d[n - 2], d[n - 1]);
        let (c0, c1, c2, c3) = (d2[n - 4], d2[n - 3], d2[n - 2], d2[n - 1]);
        assert(b0 != c0 || b1 != c1 || b2 != c2 || b3 != c3);
        assert(le32(b0, b1, b2, b3) != le32(c0, c1, c2, c3)) by {
            lemma_le32_apart(b0, b1, b2, b3, c0, c1, c2, c3);
        }
    }
}


/// Four bytes read little-endian are told apart by any byte.
proof fn lemma_le32_apart(b0: u8, b1: u8, b2: u8, b3: u8, c0: u8, c1: u8, c2: u8, c3: u8)
    requires
        b0 != c0 || b1 != c1 || b2 != c2 || b3 != c3,
    ensures
        le32(b0, b1, b2, b3) != le32(c0, c1, c2, c3),
{
    assert(((b0 as u32) | ((b1 as u32) << 8) | ((b2 as u32) << 16) | ((b3 as u32) << 24)) != ((c0 as u32) | ((c1
        as u32) << 8) | ((c2 as u32) << 16) | ((c3 as u32) << 24))) by (bit_vector)
        requires
            b0 != c0 || b1 != c1 || b2 != c2 || b3 != c3,
    ;
}

} // verus!
