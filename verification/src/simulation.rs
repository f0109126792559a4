//! Simulation time.
use vstd::prelude::*;

verus! {

/// A point in simulation time, in ticks.
#[derive(Clone, Copy, PartialEq, Eq, Debug, Default, Structural)]
pub struct Timestamp(pub usize);

/// A span of simulation time, in ticks.
#[derive(Clone, Copy, PartialEq, Eq, Debug, Default, Structural)]
pub struct Duration(pub usize);

/// A time of day, in seconds since midnight.
#[derive(Clone, Copy, PartialEq, Eq, Debug, Default, Structural)]
pub struct TimeOfDay(pub usize);

/// A span of time, in seconds.
#[derive(Clone, Copy, PartialEq, Eq, Debug, Default, Structural)]
pub struct DurationSeconds(pub usize);

impl DurationSeconds {
    /// A span of `seconds` seconds.
    pub fn new(seconds: usize) -> (d: DurationSeconds)
        ensures
            d.0 == seconds,
    {
        DurationSeconds(seconds)
    }
}

} // verus!
