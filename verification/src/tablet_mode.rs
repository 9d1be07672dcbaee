//! The CTL-460 pen-mode handshake, checked before acquisition starts. Like Linux's
//! wacom_set_device_mode, the SET/GET exchange is repeated while the tablet reports
//! another mode.
use vstd::prelude::*;
use crate::text::{push_char, push_str};

verus! {

/// How many exchanges the handshake tries.
pub const ATTEMPTS: u32 = 3;

/// The tablet confirms pen mode: report 2 with mode 2.
pub open spec fn confirms_pen_mode(reply: Seq<u8>) -> bool {
    reply.len() >= 2 && reply[0] == 2 && reply[1] == 2
}

pub open spec fn hex_digit(d: int) -> char {
    if d < 10 {
        (('0' as u32) + d) as char
    } else {
        (('A' as u32) + d - 10) as char
    }
}

/// Two uppercase hexadecimal digits of a byte.
pub open spec fn hex_byte(b: u8) -> Seq<char> {
    seq![hex_digit(b as int / 16), hex_digit(b as int % 16)]
}

/// A byte list as `[02, 0A, FF]`.
pub open spec fn hex_list(bytes: Seq<u8>) -> Seq<char>
    decreases bytes.len(),
{
    if bytes.len() == 0 {
        seq![]
    } else if bytes.len() == 1 {
        hex_byte(bytes[0])
    } else {
        hex_list(bytes.drop_last()) + ", "@ + hex_byte(bytes.last())
    }
}

/// Why one exchange failed: the reply of another mode, or the exchange's own error.
pub open spec fn attempt_error(outcome: Result<Seq<u8>, Seq<char>>) -> Seq<char> {
    match outcome {
        Ok(reply) => "unexpected mode response ["@ + hex_list(reply) + "]"@,
        Err(error) => error,
    }
}

/// The handshake's error after the last failed attempt.
pub open spec fn handshake_failure(last: Seq<char>) -> Seq<char> {
    "Tablet did not confirm pen mode after 3 attempts: "@ + last
        + ". Reconnect the tablet and try again."@
}

pub open spec fn outcome_view(outcome: Result<Vec<u8>, String>) -> Result<Seq<u8>, Seq<char>> {
    match outcome {
        Ok(v) => Ok(v@),
        Err(e) => Err(e@),
    }
}

fn push_hex_byte(out: &mut String, b: u8)
    ensures
        final(out)@ == old(out)@ + hex_byte(b),
{
    let hi = b / 16;
    let lo = b % 16;
    let h = if hi < 10 { ((48 + hi) as u8) as char } else { ((55 + hi) as u8) as char };
    let l = if lo < 10 { ((48 + lo) as u8) as char } else { ((55 + lo) as u8) as char };
    push_char(out, h);
    push_char(out, l);
    assert(out@ =~= old(out)@ + hex_byte(b));
}

/// The outcome of one exchange: `Ok` when the tablet confirmed pen mode, otherwise what
/// went wrong with this attempt.
pub fn judge_reply(outcome: Result<Vec<u8>, String>) -> (r: Result<(), String>)
    ensures
        r is Ok <==> (outcome matches Ok(reply) && confirms_pen_mode(reply@)),
        r matches Err(e) ==> e@ == attempt_error(outcome_view(outcome)),
{
    match outcome {
        Ok(reply) => {
            if reply.len() >= 2 && reply[0] == 2 && reply[1] == 2 {
                Ok(())
            } else {
                let mut s = String::new();
                push_str(&mut s, "unexpected mode response [");
                let mut i: usize = 0;
                while i < reply.len()
                    invariant
                        i <= reply@.len(),
                        s@ == "unexpected mode response ["@ + hex_list(reply@.take(i as int)),
                    decreases reply@.len() - i,
                {
                    let ghost before = s@;
                    if i > 0 {
                        push_str(&mut s, ", ");
                    }
                    push_hex_byte(&mut s, reply[i]);
                    proof {
                        let t = reply@.take(i as int + 1);
                        assert(t.drop_last() =~= reply@.take(i as int));
                        assert(t.last() == reply@[i as int]);
                        if i == 0 {
                            assert(reply@.take(0) =~= Seq::<u8>::empty());
                            assert(hex_list(t) == hex_byte(t[0]));
                        }
                        assert(s@ =~= "unexpected mode response ["@ + hex_list(t));
                    }
                    i += 1;
                }
                push_str(&mut s, "]");
                assert(reply@.take(reply@.len() as int) =~= reply@);
                assert(s@ =~= attempt_error(outcome_view(Ok(reply))));
                Err(s)
            }
        },
        Err(error) => Err(error),
    }
}

/// The error reported when no attempt confirmed pen mode.
pub fn handshake_error(last: &str) -> (s: String)
    ensures
        s@ == handshake_failure(last@),
{
    let mut s = String::new();
    push_str(&mut s, "Tablet did not confirm pen mode after 3 attempts: ");
    push_str(&mut s, last);
    push_str(&mut s, ". Reconnect the tablet and try again.");
    assert(s@ =~= handshake_failure(last@));
    s
}

/// The exchange's outcome confirms pen mode.
pub open spec fn confirmed(outcome: Result<Seq<u8>, Seq<char>>) -> bool {
    outcome matches Ok(reply) && confirms_pen_mode(reply)
}

/// Outcomes of SET/GET exchanges, in order: the reply bytes, or the exchange's error text.
pub type Outcomes = Seq<Result<Seq<u8>, Seq<char>>>;

/// The tablet's pen-mode exchange: one SET of report 2 followed by a GET of it. The
/// application implements it over the HID device.
pub trait ModeExchange {
    /// The outcomes of the exchanges made so far, in order. A specification-only history:
    /// it exists for the verifier and is never called at run time.
    spec fn outcomes(&self) -> Outcomes;

    /// Make one exchange; its outcome joins the history.
    fn exchange(&mut self) -> (r: Result<Vec<u8>, String>)
        ensures
            final(self).outcomes() == old(self).outcomes().push(outcome_view(r)),
    ;
}

/// What the handshake does after an exchange.
#[derive(Debug, PartialEq, Eq)]
pub enum Step {
    /// Pen mode is confirmed.
    Done,
    /// Try another exchange.
    Retry,
    /// Give up with this error.
    Fail(String),
}

/// The handshake's decision after exchange number `done + 1` ended with `outcome`: done when
/// the reply confirms pen mode; otherwise another try while fewer than three were made,
/// and after the third the error that names it.
pub fn handshake_step(done: u32, outcome: Result<Vec<u8>, String>) -> (s: Step)
    requires
        done < ATTEMPTS,
    ensures
        confirmed(outcome_view(outcome)) ==> s is Done,
        !confirmed(outcome_view(outcome)) && done + 1 < ATTEMPTS ==> s is Retry,
        !confirmed(outcome_view(outcome)) && done + 1 == ATTEMPTS ==> (s matches Step::Fail(e) && e@
            == handshake_failure(attempt_error(outcome_view(outcome)))),
{
    match judge_reply(outcome) {
        Ok(()) => Step::Done,
        Err(e) => {
            if done + 1 < ATTEMPTS {
                Step::Retry
            } else {
                Step::Fail(handshake_error(e.as_str()))
            }
        },
    }
}

/// `log` is a run of the handshake ending in `r`: one to three exchanges, none before the
/// last one confirming pen mode; `Ok` exactly when the last one confirms, and otherwise all
/// three were made and the error names the third.
pub open spec fn handshake_run(log: Outcomes, r: Result<(), String>) -> bool {
    &&& 1 <= log.len() <= ATTEMPTS
    &&& forall|k: int| 0 <= k < log.len() - 1 ==> !confirmed(#[trigger] log[k])
    &&& (r is Ok <==> confirmed(log.last()))
    &&& (r matches Err(e) ==> log.len() == ATTEMPTS && e@ == handshake_failure(attempt_error(log.last())))
}

/// Run the SET/GET exchange up to three times, stopping at the first reply that confirms
/// pen mode; after three that do not, the error names the third. The exchanges made are
/// exactly the run.
pub fn initialize<E: ModeExchange>(device: &mut E) -> (r: Result<(), String>)
    ensures
        final(device).outcomes().len() >= old(device).outcomes().len(),
        final(device).outcomes().take(old(device).outcomes().len() as int) == old(device).outcomes(),
        handshake_run(final(device).outcomes().skip(old(device).outcomes().len() as int), r),
{
    let ghost h0 = device.outcomes();
    let mut n: u32 = 0;
    proof {
        assert(device.outcomes().skip(h0.len() as int) =~= Seq::<Result<Seq<u8>, Seq<char>>>::empty());
    }
    loop
        invariant
            n < ATTEMPTS,
            h0 == old(device).outcomes(),
            device.outcomes().len() == h0.len() + n,
            device.outcomes().take(h0.len() as int) == h0,
            forall|k: int| 0 <= k < n ==> !confirmed(#[trigger] device.outcomes().skip(h0.len() as int)[k]),
        decreases ATTEMPTS - n,
    {
        let ghost before = device.outcomes();
        let outcome = device.exchange();
        let ghost log = device.outcomes().skip(h0.len() as int);
        proof {
            assert(device.outcomes().take(h0.len() as int) =~= h0);
            assert forall|k: int| 0 <= k < n implies !confirmed(#[trigger] log[k]) by {
                assert(log[k] == before.skip(h0.len() as int)[k]);
            }
            assert(log.last() == outcome_view(outcome));
        }
        match handshake_step(n, outcome) {
            Step::Done => {
                return Ok(());
            },
            Step::Retry => {},
            Step::Fail(e) => {
                return Err(e);
            },
        }
        n += 1;
    }
}

} // verus!
