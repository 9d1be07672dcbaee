//! The revision stamp of a live settings file: a 64-bit FNV-1a hash of its bytes, so the
//! acknowledgement written back names exactly the contents that were applied; and the
//! acknowledgement texts themselves.
use vstd::prelude::*;
use vstd::string::StringSliceAdditionalSpecFns;
use crate::text::{push_char, push_str};

verus! {

pub const FNV64_OFFSET: u64 = 0xcbf29ce484222325;

pub const FNV64_PRIME: u64 = 0x100000001b3;

/// FNV-1a over `bytes`: xor each byte into the hash, then multiply by the prime modulo 2^64.
pub open spec fn fnv1a64(bytes: Seq<u8>) -> u64
    decreases bytes.len(),
{
    if bytes.len() == 0 {
        FNV64_OFFSET
    } else {
        (((fnv1a64(bytes.drop_last()) ^ (bytes.last() as u64)) as nat * FNV64_PRIME as nat)
            % 0x1_0000_0000_0000_0000nat) as u64
    }
}

/// The revision of a settings text: FNV-1a of its UTF-8 bytes.
pub fn fingerprint(contents: &str) -> (h: u64)
    ensures
        h == fnv1a64(contents.spec_bytes()),
{
    let bytes = contents.as_bytes();
    let mut h: u64 = FNV64_OFFSET;
    let mut i: usize = 0;
    while i < bytes.len()
        invariant
            i <= bytes@.len(),
            bytes@ == contents.spec_bytes(),
            h == fnv1a64(bytes@.take(i as int)),
        decreases bytes@.len() - i,
    {
        proof {
            assert(bytes@.take(i as int + 1).drop_last() =~= bytes@.take(i as int));
        }
        h = (h ^ bytes[i] as u64).wrapping_mul(FNV64_PRIME);
        i += 1;
    }
    assert(bytes@.take(bytes@.len() as int) =~= bytes@);
    h
}

/// The lowercase hexadecimal digit of `d` in 0..16.
pub open spec fn hex_char(d: u64) -> char {
    if d < 10 {
        (('0' as u64) + d) as char
    } else {
        (('a' as u64) + d - 10) as char
    }
}

/// The revision as 16 lowercase hexadecimal digits, most significant first.
pub open spec fn revision_text(revision: u64) -> Seq<char> {
    Seq::new(16, |i: int| hex_char((revision >> ((60 - 4 * i) as u64)) & 0xf))
}

fn push_revision(out: &mut String, revision: u64)
    ensures
        final(out)@ == old(out)@ + revision_text(revision),
{
    let mut i: u64 = 0;
    while i < 16
        invariant
            i <= 16,
            out@ == old(out)@ + revision_text(revision).take(i as int),
        decreases 16 - i,
    {
        let sh: u64 = 60 - 4 * i;
        let d = (revision >> sh) & 0xf;
        assert(d < 16) by (bit_vector)
            requires
                d == (revision >> sh) & 0xf,
        ;
        assert(revision_text(revision)[i as int] == hex_char(d));
        let c = if d < 10 { ((48 + d) as u8) as char } else { ((87 + d) as u8) as char };
        assert(c == hex_char(d));
        push_char(out, c);
        assert(revision_text(revision).take(i as int + 1) =~= revision_text(revision).take(i as int).push(c));
        assert(out@ =~= old(out)@ + revision_text(revision).take(i as int + 1));
        i += 1;
    }
    assert(revision_text(revision).take(16) =~= revision_text(revision));
}

/// What the settings watcher reports after reading a changed file: the revision, then
/// that it waits for the pen to lift, or why the settings were refused.
pub open spec fn read_status(revision: u64, parsed: Result<(), Seq<char>>) -> Seq<char> {
    revision_text(revision) + "\n"@ + match parsed {
        Ok(()) => "Changes saved; applying when the pen is lifted."@,
        Err(e) => "Settings not applied: "@ + e,
    }
}

/// What the driver reports after trying to apply settings: the revision, then whether
/// they took effect.
pub open spec fn applied_status(revision: u64, result: Result<(), Seq<char>>) -> Seq<char> {
    revision_text(revision) + "\n"@ + match result {
        Ok(()) => "Settings applied."@,
        Err(e) => "Settings not applied; previous settings remain active: "@ + e,
    }
}

pub open spec fn result_text(r: Result<(), String>) -> Result<(), Seq<char>> {
    match r {
        Ok(()) => Ok(()),
        Err(e) => Err(e@),
    }
}

/// The status written after reading a changed settings file.
pub fn read_status_text(revision: u64, parsed: &Result<(), String>) -> (s: String)
    ensures
        s@ == read_status(revision, result_text(*parsed)),
{
    let mut s = String::new();
    push_revision(&mut s, revision);
    push_str(&mut s, "\n");
    match parsed {
        Ok(()) => push_str(&mut s, "Changes saved; applying when the pen is lifted."),
        Err(e) => {
            push_str(&mut s, "Settings not applied: ");
            push_str(&mut s, e.as_str());
        },
    }
    assert(s@ =~= read_status(revision, result_text(*parsed)));
    s
}

/// The status written after the driver applied settings, or failed to.
pub fn applied_status_text(revision: u64, result: &Result<(), String>) -> (s: String)
    ensures
        s@ == applied_status(revision, result_text(*result)),
{
    let mut s = String::new();
    push_revision(&mut s, revision);
    push_str(&mut s, "\n");
    match result {
        Ok(()) => push_str(&mut s, "Settings applied."),
        Err(e) => {
            push_str(&mut s, "Settings not applied; previous settings remain active: ");
            push_str(&mut s, e.as_str());
        },
    }
    assert(s@ =~= applied_status(revision, result_text(*result)));
    s
}

} // verus!
