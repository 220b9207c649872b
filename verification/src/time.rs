//! Game time, counted in ticks.

use vstd::prelude::*;

verus! {

/// Number of ticks in one in-game day.
pub const TICKS_PER_DAY: u64 = 24_000;

/// A point in game time.
pub struct Instant {
    ticks: u64,
}

impl Instant {
    /// Ticks elapsed since the start of day zero.
    pub closed spec fn ticks(&self) -> nat {
        self.ticks as nat
    }

    /// The instant `time_of_day` ticks into day `day`.
    pub fn new(day: u64, time_of_day: u16) -> (r: Instant)
        requires
            TICKS_PER_DAY * day + time_of_day <= u64::MAX,
        ensures
            r.ticks() == TICKS_PER_DAY * day + time_of_day,
    {
        Instant { ticks: TICKS_PER_DAY * day + time_of_day as u64 }
    }

    /// Ticks elapsed since the last day began.
    pub fn time_of_day(&self) -> (r: u16)
        ensures
            r == self.ticks() % (TICKS_PER_DAY as nat),
    {
        (self.ticks % TICKS_PER_DAY) as u16
    }
}

} // verus!
