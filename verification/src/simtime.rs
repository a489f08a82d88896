//! Simulated-time values: absolute instants (`EmulatedTime`) and durations
//! (`SimulationTime`), both with nanosecond granularity.
//!
//! An `EmulatedTime` counts nanoseconds from a fixed `SIMULATION_START` epoch
//! and admits a total order; arithmetic saturates rather than wrapping.

use vstd::prelude::*;

verus! {

/// Nanoseconds in one second.
pub const NANOS_PER_SECOND: u64 = 1_000_000_000;

/// Saturating addition of two nanosecond counts.
pub open spec fn sat_add_ns(a: u64, b: u64) -> u64 {
    if a + b <= u64::MAX {
        (a + b) as u64
    } else {
        u64::MAX
    }
}

/// A duration of simulated time, in nanoseconds.
#[derive(Clone, Copy, Debug, PartialEq, Eq, Structural, Hash)]
pub struct SimulationTime {
    pub ns: u64,
}

/// An absolute simulated instant: nanoseconds since `SIMULATION_START`.
#[derive(Clone, Copy, Debug, PartialEq, Eq, Structural, Hash)]
pub struct EmulatedTime {
    pub ns: u64,
}

impl SimulationTime {
    /// The duration of `ns` nanoseconds.
    pub fn from_nanos(ns: u64) -> (r: SimulationTime)
        ensures
            r.ns == ns,
    {
        SimulationTime { ns }
    }

    /// The duration of `s` whole seconds, saturating at the largest duration.
    pub fn from_secs_saturating(s: u64) -> (r: SimulationTime)
        ensures
            r.ns == if s * NANOS_PER_SECOND <= u64::MAX { s * NANOS_PER_SECOND } else { u64::MAX as int },
    {
        let ns = s.checked_mul(NANOS_PER_SECOND);
        match ns {
            Some(ns) => SimulationTime { ns },
            None => SimulationTime { ns: u64::MAX },
        }
    }
}

impl EmulatedTime {
    /// The epoch all simulations start from.
    pub fn simulation_start() -> (r: EmulatedTime)
        ensures
            r.ns == 0,
    {
        EmulatedTime { ns: 0 }
    }

    /// The largest representable instant; also used as "no next event".
    pub fn max_time() -> (r: EmulatedTime)
        ensures
            r.ns == u64::MAX,
    {
        EmulatedTime { ns: u64::MAX }
    }

    /// The instant `ns` nanoseconds after `SIMULATION_START`.
    pub fn from_nanos_since_start(ns: u64) -> (r: EmulatedTime)
        ensures
            r.ns == ns,
    {
        EmulatedTime { ns }
    }

    /// Advances this instant by a duration, saturating at the largest instant.
    pub fn saturating_add(self, d: SimulationTime) -> (r: EmulatedTime)
        ensures
            r.ns == if self.ns + d.ns <= u64::MAX { self.ns + d.ns } else { u64::MAX as int },
    {
        EmulatedTime { ns: self.ns.saturating_add(d.ns) }
    }

    /// The duration from `earlier` to `self`; `earlier` must not lie after `self`.
    pub fn duration_since(self, earlier: EmulatedTime) -> (r: SimulationTime)
        requires
            earlier.ns <= self.ns,
        ensures
            r.ns == self.ns - earlier.ns,
    {
        SimulationTime { ns: self.ns - earlier.ns }
    }

    /// Whether this instant lies strictly before `other`.
    pub fn is_before(self, other: EmulatedTime) -> (r: bool)
        ensures
            r == (self.ns < other.ns),
    {
        self.ns < other.ns
    }

    /// The earlier of two instants.
    pub fn min_with(self, other: EmulatedTime) -> (r: EmulatedTime)
        ensures
            r.ns == if self.ns <= other.ns { self.ns } else { other.ns },
    {
        if self.ns <= other.ns {
            self
        } else {
            other
        }
    }
}

} // verus!
