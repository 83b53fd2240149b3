//! The system clock: seconds and nanoseconds since the clock was started,
//! advanced by the timer tick.

use vstd::prelude::*;
use crate::multitasking::waitfor::Instant;

verus! {

/// Nanoseconds in a second.
pub const NANOS_PER_SEC: u32 = 1_000_000_000;

/// Nanoseconds in a millisecond.
pub const NANOS_PER_MILLI: u64 = 1_000_000;

/// The nanoseconds from the start of the clock to an instant.
pub open spec fn nanos(t: Instant) -> nat {
    (t.sec as nat) * (NANOS_PER_SEC as nat) + (t.nsec as nat)
}

/// Whether an instant is one that the clock can show: its nanoseconds stay
/// below a second.
pub open spec fn valid(t: Instant) -> bool {
    t.nsec < NANOS_PER_SEC
}

/// The clock.
#[derive(Debug)]
pub struct SystemClock {
    sec: u64,
    nsec: u32,
}

impl SystemClock {
    /// What the clock shows.
    pub closed spec fn view(&self) -> Instant {
        Instant { sec: self.sec, nsec: self.nsec }
    }

    /// The nanoseconds stay below a second.
    pub open spec fn wf(&self) -> bool {
        valid(self@)
    }

    /// A clock that shows zero.
    pub fn new() -> (clock: Self)
        ensures
            clock.wf(),
            clock@ == (Instant { sec: 0, nsec: 0 }),
    {
        SystemClock { sec: 0, nsec: 0 }
    }

    /// A clock that shows the given instant. `None` where no clock can show
    /// it.
    pub fn at(instant: Instant) -> (clock: Option<Self>)
        ensures
            match clock {
                Some(clock) => clock.wf() && clock@ == instant,
                None => !valid(instant),
            },
    {
        if instant.nsec < NANOS_PER_SEC {
            Some(SystemClock { sec: instant.sec, nsec: instant.nsec })
        } else {
            None
        }
    }

    /// Whether the clock can be advanced by a tick of `inc` nanoseconds.
    pub fn can_tick(&self, inc: u32) -> (b: bool)
        ensures
            b == (inc <= NANOS_PER_SEC && self@.sec < u64::MAX),
    {
        inc <= NANOS_PER_SEC && self.sec < u64::MAX
    }

    /// Advances the clock by one tick of `inc` nanoseconds. Returns what
    /// the clock shows then. Only to be used by the handler of the timer
    /// tick.
    pub fn tick(&mut self, inc: u32) -> (now: Instant)
        requires
            old(self).wf(),
            inc <= NANOS_PER_SEC,
            old(self)@.sec < u64::MAX,
        ensures
            final(self).wf(),
            now == final(self)@,
            nanos(now) == nanos(old(self)@) + inc,
    {
        let ghost before = self@;
        // Cannot overflow, as (2 * max nanoseconds) < u32::MAX
        if self.nsec + inc >= NANOS_PER_SEC {
            self.sec = self.sec + 1;
            self.nsec = (self.nsec + inc) - NANOS_PER_SEC;
        } else {
            self.nsec = self.nsec + inc;
        }
        let now = Instant { sec: self.sec, nsec: self.nsec };
        assert(nanos(now) == nanos(before) + inc) by (nonlinear_arith)
            requires
                now.sec == before.sec + 1 && now.nsec + 1_000_000_000 == before.nsec + inc
                    || now.sec == before.sec && now.nsec == before.nsec + inc,
                nanos(now) == now.sec * 1_000_000_000 + now.nsec,
                nanos(before) == before.sec * 1_000_000_000 + before.nsec,
        ;
        now
    }

    /// Gets current time
    pub fn now(&self) -> (now: Instant)
        ensures
            now == self@,
    {
        Instant { sec: self.sec, nsec: self.nsec }
    }
}

/// What a reader makes of two looks at a clock that may tick in between:
/// the second look, where the seconds agree and the nanoseconds have not
/// gone back, and else nothing, so that the reader looks again.
pub fn settle(previous: Instant, current: Instant) -> (now: Option<Instant>)
    ensures
        now == (if previous.sec == current.sec && previous.nsec <= current.nsec {
            Some(current)
        } else {
            None
        }),
{
    if previous.sec == current.sec && previous.nsec <= current.nsec {
        Some(current)
    } else {
        None
    }
}

/// A clock that shows zero.
pub fn init() -> (clock: SystemClock)
    ensures
        clock.wf(),
        clock@ == (Instant { sec: 0, nsec: 0 }),
{
    SystemClock::new()
}

/// Whether a sleep until `until` is over at `now`.
pub fn busy_sleep_until(now: Instant, until: Instant) -> (over: bool)
    ensures
        valid(now) && valid(until) ==> over == (nanos(now) >= nanos(until)),
        over == (now.sec > until.sec || now.sec == until.sec && now.nsec >= until.nsec),
{
    proof {
        if valid(now) && valid(until) {
            assert((now.sec > until.sec || now.sec == until.sec && now.nsec >= until.nsec) == (
            nanos(now) >= nanos(until))) by (nonlinear_arith)
                requires
                    now.nsec < 1_000_000_000,
                    until.nsec < 1_000_000_000,
                    nanos(now) == now.sec * 1_000_000_000 + now.nsec,
                    nanos(until) == until.sec * 1_000_000_000 + until.nsec,
            ;
        }
    }
    now.sec > until.sec || now.sec == until.sec && now.nsec >= until.nsec
}

/// The instant `ms` milliseconds after `now`: when a sleep of `ms`
/// milliseconds that begins at `now` is over. `None` where the clock cannot
/// show that instant.
pub fn sleep_ms(now: Instant, ms: u64) -> (until: Option<Instant>)
    requires
        valid(now),
    ensures
        match until {
            Some(until) => valid(until) && nanos(until) == nanos(now) + ms * NANOS_PER_MILLI,
            None => now.sec + (now.nsec + (ms % 1000) * NANOS_PER_MILLI) / (NANOS_PER_SEC as int)
                + ms / 1000 > u64::MAX,
        },
{
    let whole = ms / 1000;
    let part = (ms % 1000) * NANOS_PER_MILLI;
    let nsec = now.nsec as u64 + part;
    let carry = nsec / (NANOS_PER_SEC as u64);
    let nsec = nsec % (NANOS_PER_SEC as u64);
    if whole > u64::MAX - now.sec || carry > u64::MAX - now.sec - whole {
        return None;
    }
    let until = Instant { sec: now.sec + whole + carry, nsec: nsec as u32 };
    assert(nanos(until) == nanos(now) + ms * NANOS_PER_MILLI) by (nonlinear_arith)
        requires
            until.sec == now.sec + ms / 1000 + carry,
            until.nsec + carry * 1_000_000_000 == now.nsec + (ms % 1000) * 1_000_000,
            nanos(until) == until.sec * 1_000_000_000 + until.nsec,
            nanos(now) == now.sec * 1_000_000_000 + now.nsec,
            NANOS_PER_MILLI == 1_000_000,
    ;
    Some(until)
}

} // verus!
