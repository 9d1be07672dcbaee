//! A bounded login readiness window. Times are milliseconds on one monotonic clock.
//! Only an absent tablet may defer the launch, and a cancelled window never reopens.
use vstd::prelude::*;

verus! {

/// How long after login a missing tablet may still defer the launch.
pub const LOGIN_WINDOW_MS: u64 = 60_000;

/// The pause before the next attempt after a deferral.
pub const RETRY_MS: u64 = 2_000;

/// One deferral at `now` from a window ending at `deadline` (if open) and a next attempt
/// at `next`: whether the launch is deferred, then the window and the next attempt after it.
pub open spec fn defer_step(deadline: Option<u64>, next: u64, now: u64) -> (bool, Option<u64>, u64) {
    if deadline matches Some(end) && now < end {
        (true, deadline, (now + RETRY_MS) as u64)
    } else {
        (false, None, next)
    }
}

/// Deferrals at `times`, in order, from a window ending at `deadline` and a next attempt
/// at `next`: the answers, then the window and the next attempt after them.
pub open spec fn defer_run(deadline: Option<u64>, next: u64, times: Seq<u64>) -> (Seq<bool>, Option<u64>, u64)
    decreases times.len(),
{
    if times.len() == 0 {
        (seq![], deadline, next)
    } else {
        let (answers, d, n) = defer_run(deadline, next, times.drop_last());
        let (a, d2, n2) = defer_step(d, n, times.last());
        (answers.push(a), d2, n2)
    }
}

/// A closed window never reopens: once a deferral was refused (or the wait cancelled),
/// every later deferral is refused, whatever its time, and the next attempt time stays.
pub proof fn lemma_window_never_reopens(next: u64, times: Seq<u64>)
    ensures
        defer_run(None, next, times).0.len() == times.len(),
        defer_run(None, next, times).1 is None,
        defer_run(None, next, times).2 == next,
        forall|i: int| 0 <= i < times.len() ==> !(#[trigger] defer_run(None, next, times).0[i]),
    decreases times.len(),
{
    if times.len() > 0 {
        lemma_window_never_reopens(next, times.drop_last());
        let (answers, d, n) = defer_run(None, next, times.drop_last());
        assert forall|i: int| 0 <= i < times.len() implies !(#[trigger] defer_run(None, next, times).0[i]) by {
            if i < times.len() - 1 {
                assert(defer_run(None, next, times).0[i] == answers[i]);
            }
        }
    }
}

/// A refused deferral closes the window and keeps the next attempt time; a wait that
/// opened no window (not a login start), or asked after its window ended, refuses.
pub proof fn lemma_refusal_closes(deadline: Option<u64>, next: u64, now: u64)
    ensures
        !defer_step(deadline, next, now).0 ==> defer_step(deadline, next, now).1 is None && defer_step(deadline, next, now).2
            == next,
        (deadline is None || (deadline matches Some(end) && now >= end)) ==> !defer_step(deadline, next, now).0,
{
}

pub struct StartupWait {
    deadline: Option<u64>,
    next: u64,
}

impl StartupWait {
    /// The end of the window in which a missing device may defer the launch, if open.
    pub closed spec fn deadline(&self) -> Option<u64> {
        self.deadline
    }

    /// The earliest time of the next attempt.
    pub closed spec fn next(&self) -> u64 {
        self.next
    }

    /// A wait at `now`; a login start opens a window of `LOGIN_WINDOW_MS`.
    pub fn new(now: u64, login: bool) -> (w: Self)
        requires
            login ==> now + LOGIN_WINDOW_MS <= u64::MAX,
        ensures
            w.deadline() == (if login { Some((now + LOGIN_WINDOW_MS) as u64) } else { None::<u64> }),
            w.next() == now,
    {
        Self { deadline: if login { Some(now + LOGIN_WINDOW_MS) } else { None }, next: now }
    }

    /// An attempt is due at `now`.
    pub fn due(&self, now: u64) -> (r: bool)
        ensures
            r == (now >= self.next()),
    {
        now >= self.next
    }

    /// The device is missing at `now`: defer the next attempt by `RETRY_MS` while the window
    /// is open, otherwise close the window for good.
    pub fn defer_missing_device(&mut self, now: u64) -> (r: bool)
        requires
            (old(self).deadline() matches Some(end) && now < end) ==> now + RETRY_MS <= u64::MAX,
        ensures
            r == (old(self).deadline() matches Some(end) && now < end),
            r ==> final(self).deadline() == old(self).deadline() && final(self).next() == now + RETRY_MS,
            !r ==> final(self).deadline() is None && final(self).next() == old(self).next(),
            (r, final(self).deadline(), final(self).next()) == defer_step(old(self).deadline(), old(self).next(), now),
    {
        let open = match self.deadline {
            Some(end) => now < end,
            None => false,
        };
        if open {
            self.next = now + RETRY_MS;
            true
        } else {
            self.cancel();
            false
        }
    }

    /// Close the window: a launched or failed feeder is never retried.
    pub fn cancel(&mut self)
        ensures
            final(self).deadline() is None,
            final(self).next() == old(self).next(),
    {
        self.deadline = None;
    }
}

} // verus!
