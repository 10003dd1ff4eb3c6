//! The firing rate limiter of play mode: how much time has passed since
//! the last shot, and whether the next one may go off. Time is counted
//! in whole milliseconds.

use vstd::prelude::*;

verus! {

/// The state of the rate limiter.
#[derive(Debug, Clone, Copy, PartialEq, Eq, Structural)]
pub struct FireRateState {
    /// Milliseconds passed since the last shot.
    pub time_passed_ms: u64,
    /// Milliseconds that must pass between shots.
    pub time_to_wait_between_shots_ms: u64,
    /// Whether enough time has passed for the next shot.
    pub ready: bool,
}

impl FireRateState {
    /// A limiter that has just fired: not ready, no time passed.
    pub fn new(time_to_wait_between_shots_ms: u64) -> (r: Self)
        ensures
            r.time_passed_ms == 0,
            r.time_to_wait_between_shots_ms == time_to_wait_between_shots_ms,
            !r.ready,
    {
        Self {
            time_passed_ms: 0,
            time_to_wait_between_shots_ms,
            ready: false,
        }
    }

    /// Counts the frame's time; the limiter is ready once more time has
    /// passed than the wait demands.
    pub fn tick(&mut self, delta_time_ms: u64)
        requires
            old(self).time_passed_ms + delta_time_ms <= u64::MAX,
        ensures
            final(self).time_passed_ms == old(self).time_passed_ms + delta_time_ms,
            final(self).time_to_wait_between_shots_ms
                == old(self).time_to_wait_between_shots_ms,
            final(self).ready
                == (final(self).time_passed_ms > final(self).time_to_wait_between_shots_ms),
    {
        self.time_passed_ms = self.time_passed_ms + delta_time_ms;
        self.ready = self.time_passed_ms > self.time_to_wait_between_shots_ms;
    }

    /// Starts the wait over after a shot; readiness is recomputed by the
    /// next tick.
    pub fn reset(&mut self)
        ensures
            final(self).time_passed_ms == 0,
            final(self).time_to_wait_between_shots_ms
                == old(self).time_to_wait_between_shots_ms,
            final(self).ready == old(self).ready,
    {
        self.time_passed_ms = 0;
    }
}

} // verus!
