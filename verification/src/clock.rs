//! Wall-clock time, for what people read: no decision of the engine rests on it.

use vstd::prelude::*;

verus! {

/// A source of wall-clock time, in milliseconds since the Unix epoch. It may say anything.
pub trait Clock {
    /// The current time.
    fn now_ms(&self) -> (t: u64);
}

/// The clock can say that it is this time.
pub open spec fn may_say<C: Clock>(clock: C, t: u64) -> bool {
    call_ensures(C::now_ms, (&clock,), t)
}

/// A clock that is moved by hand.
#[derive(Debug)]
pub struct ManualClock {
    now: u64,
}

impl View for ManualClock {
    type V = u64;

    closed spec fn view(&self) -> u64 {
        self.now
    }
}

impl ManualClock {
    /// A clock frozen at this instant.
    pub fn new(now_ms: u64) -> (c: ManualClock)
        ensures
            c@ == now_ms,
    {
        ManualClock { now: now_ms }
    }

    /// Moves time forward, around the end of the range if need be.
    pub fn advance_ms(&mut self, delta: u64)
        ensures
            final(self)@ == old(self)@.wrapping_add(delta),
    {
        self.now = self.now.wrapping_add(delta);
    }

    /// Moves time to any point, backwards too.
    pub fn set_ms(&mut self, now_ms: u64)
        ensures
            final(self)@ == now_ms,
    {
        self.now = now_ms;
    }
}

/// A clock that is moved by hand says the time that it was moved to.
pub proof fn a_frozen_clock_says_its_time(clock: ManualClock, t: u64)
    requires
        may_say(clock, t),
    ensures
        t == clock@,
{
}

impl Clock for ManualClock {
    fn now_ms(&self) -> (t: u64)
        ensures
            t == self@,
    {
        self.now
    }
}

} // verus!
