//! Fixed-timestep accounting: elapsed wall-clock time is deposited into an
//! accumulator, and the tick pipeline runs once for every full tick duration
//! withdrawn from it. The caller measures time and runs the pipeline; this
//! type decides how many ticks are due.

use vstd::prelude::*;

verus! {

/// Accumulator of unconsumed wall-clock time, in nanoseconds.
pub struct SimulationClock {
    tick_nanos: u64,
    accumulator_nanos: u64,
}

impl SimulationClock {
    /// Duration of one fixed tick, in nanoseconds.
    pub closed spec fn tick_spec(self) -> u64 {
        self.tick_nanos
    }

    /// Wall-clock time deposited and not yet consumed, in nanoseconds.
    pub closed spec fn acc_spec(self) -> u64 {
        self.accumulator_nanos
    }

    pub open spec fn wf(self) -> bool {
        self.tick_spec() > 0
    }

    /// A clock with the given tick duration and nothing pending.
    pub fn new(tick_nanos: u64) -> (clock: Self)
        requires
            tick_nanos > 0,
        ensures
            clock.wf(),
            clock.tick_spec() == tick_nanos,
            clock.acc_spec() == 0,
    {
        SimulationClock { tick_nanos, accumulator_nanos: 0 }
    }

    pub fn tick_nanos(&self) -> (n: u64)
        ensures
            n == self.tick_spec(),
    {
        self.tick_nanos
    }

    pub fn accumulator_nanos(&self) -> (n: u64)
        ensures
            n == self.acc_spec(),
    {
        self.accumulator_nanos
    }

    /// Deposits the wall-clock time that elapsed since the previous poll.
    pub fn accumulate(&mut self, elapsed_nanos: u64)
        requires
            old(self).acc_spec() + elapsed_nanos <= u64::MAX,
        ensures
            final(self).tick_spec() == old(self).tick_spec(),
            final(self).acc_spec() == old(self).acc_spec() + elapsed_nanos,
    {
        self.accumulator_nanos = self.accumulator_nanos + elapsed_nanos;
    }

    /// Consumes one tick when at least a full tick's worth of time is
    /// pending; the caller runs the pipeline exactly once per `true`.
    pub fn try_tick(&mut self) -> (ticked: bool)
        ensures
            final(self).tick_spec() == old(self).tick_spec(),
            ticked == (old(self).acc_spec() >= old(self).tick_spec()),
            ticked ==> final(self).acc_spec() == old(self).acc_spec() - old(self).tick_spec(),
            !ticked ==> final(self).acc_spec() == old(self).acc_spec(),
    {
        if self.accumulator_nanos >= self.tick_nanos {
            self.accumulator_nanos = self.accumulator_nanos - self.tick_nanos;
            true
        } else {
            false
        }
    }
}

} // verus!
