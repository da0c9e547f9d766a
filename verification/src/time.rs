//! Deterministic simulation time: a tick counter and the day/night phase it gives.
//!
//! All time advances by whole ticks, so replays are deterministic; the day phase is the
//! whole number of ticks since midnight, the fraction of a day being that count divided by
//! the ticks per day.

use vstd::prelude::*;

verus! {

/// A simulation tick count.
#[derive(Debug, Clone, Copy, PartialEq, Eq, Hash, PartialOrd, Ord)]
pub struct SimTick(pub u64);

impl SimTick {
    /// Tick zero.
    pub fn zero() -> (res: SimTick)
        ensures
            res.0 == 0,
    {
        SimTick(0)
    }

    /// The tick `ticks` later.
    pub fn advance(self, ticks: u64) -> (res: SimTick)
        requires
            self.0 + ticks <= u64::MAX,
        ensures
            res.0 == self.0 + ticks,
    {
        SimTick(self.0 + ticks)
    }
}

/// Ticks since midnight at tick `tick` for a day of `ticks_per_day` ticks. Tick 0 is sunrise,
/// a quarter day after midnight.
pub open spec fn spec_day_phase(tick: nat, ticks_per_day: nat) -> nat
    recommends
        ticks_per_day > 0,
{
    (tick % ticks_per_day + ticks_per_day / 4) % ticks_per_day
}

/// Simulation time: the current tick and the length of a day.
#[derive(Debug, Clone, Copy, PartialEq)]
pub struct SimTime {
    /// Current simulation tick.
    pub tick: SimTick,
    /// Ticks per in-game day.
    pub ticks_per_day: u64,
}

impl SimTime {
    /// Time at tick 0 with days of the given length.
    pub fn new(ticks_per_day: u64) -> (res: SimTime)
        ensures
            res.tick.0 == 0,
            res.ticks_per_day == ticks_per_day,
    {
        SimTime { tick: SimTick::zero(), ticks_per_day }
    }

    /// Advance time by one tick.
    pub fn advance(&mut self)
        requires
            old(self).tick.0 < u64::MAX,
        ensures
            final(self).tick.0 == old(self).tick.0 + 1,
            final(self).ticks_per_day == old(self).ticks_per_day,
    {
        self.tick = self.tick.advance(1);
    }

    /// Whole ticks since midnight: sunrise (tick 0 of each day) is a quarter day, noon half a
    /// day, midnight zero. The time of day as a fraction is this over `ticks_per_day`. The
    /// day must not be empty, and the shifted tick must fit in 64 bits.
    pub fn day_phase_ticks(&self) -> (res: u64)
        requires
            self.ticks_per_day > 0,
            self.tick.0 % self.ticks_per_day + self.ticks_per_day / 4 <= u64::MAX,
        ensures
            res == spec_day_phase(self.tick.0 as nat, self.ticks_per_day as nat),
            res < self.ticks_per_day,
    {
        let tick_in_day = self.tick.0 % self.ticks_per_day;
        let phase_shift = self.ticks_per_day / 4;
        (tick_in_day + phase_shift) % self.ticks_per_day
    }
}

impl Default for SimTime {
    /// Days of 24000 ticks, starting at tick 0.
    fn default() -> (res: SimTime)
        ensures
            res.tick.0 == 0,
            res.ticks_per_day == 24000,
    {
        SimTime::new(24000)
    }
}

/// The day phase repeats every day: a tick and the same tick one day later have the same
/// phase.
pub proof fn law_day_phase_wraps(tick: nat, ticks_per_day: nat)
    requires
        ticks_per_day > 0,
    ensures
        spec_day_phase(tick + ticks_per_day, ticks_per_day) == spec_day_phase(tick, ticks_per_day),
{
    assert((tick + ticks_per_day) % ticks_per_day == tick % ticks_per_day) by {
        vstd::arithmetic::div_mod::lemma_mod_add_multiples_vanish(tick as int, ticks_per_day as int);
    }
}

} // verus!
