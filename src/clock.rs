//! Wall-clock timing of the write pipeline's stages.
use vstd::prelude::*;

use std::time::{Duration, Instant};

verus! {

#[verifier::external_type_specification]
#[verifier::external_body]
pub struct ExInstant(std::time::Instant);

/// Relies on `Instant::now`: the current instant; nothing is known of it.
#[verifier::external_body]
pub(crate) fn now() -> Instant {
    Instant::now()
}

/// Relies on `Instant::elapsed`: the time since `start`; nothing is known
/// of it.
#[verifier::external_body]
pub(crate) fn elapsed(start: &Instant) -> Duration {
    start.elapsed()
}

/// Relies on `Duration::saturating_add`, which does not panic.
#[verifier::external_body]
pub(crate) fn add_durations(a: Duration, b: Duration) -> Duration {
    a.saturating_add(b)
}

/// Relies on `Duration::from_nanos`: the duration of `nanos` nanoseconds.
#[verifier::external_body]
pub(crate) fn zero_duration() -> Duration {
    Duration::from_nanos(0)
}

/// Time spent in each stage of writing to a file.
#[derive(Debug, PartialEq, Default, Clone, Copy)]
pub struct WriteMeasurements {
    save_time: Duration,
    chunk_time: Duration,
    hash_time: Duration,
}

impl WriteMeasurements {
    /// Save, chunking and hashing time, in that order.
    pub closed spec fn times(&self) -> (Duration, Duration, Duration) {
        (self.save_time, self.chunk_time, self.hash_time)
    }

    pub(crate) fn new(save_time: Duration, chunk_time: Duration, hash_time: Duration) -> (r: Self)
        ensures
            r.times() == (save_time, chunk_time, hash_time),
    {
        WriteMeasurements { save_time, chunk_time, hash_time }
    }

    /// Measurements with every time zero.
    pub fn zero() -> Self {
        WriteMeasurements::new(zero_duration(), zero_duration(), zero_duration())
    }

    pub fn save_time(&self) -> (r: Duration)
        ensures
            r == self.times().0,
    {
        self.save_time
    }

    pub fn chunk_time(&self) -> (r: Duration)
        ensures
            r == self.times().1,
    {
        self.chunk_time
    }

    pub fn hash_time(&self) -> (r: Duration)
        ensures
            r == self.times().2,
    {
        self.hash_time
    }

    /// Field-wise sum of two measurements.
    pub fn combined(self, rhs: Self) -> Self {
        WriteMeasurements {
            save_time: add_durations(self.save_time, rhs.save_time),
            chunk_time: add_durations(self.chunk_time, rhs.chunk_time),
            hash_time: add_durations(self.hash_time, rhs.hash_time),
        }
    }
}

} // verus!
