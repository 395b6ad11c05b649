//! Time as the scheduler sees it.
use std::time::Instant;
use vstd::prelude::*;

verus! {

/// A reading of the system's steady clock.
#[verifier::external_type_specification]
#[verifier::external_body]
pub struct ExInstant(std::time::Instant);

/// `Instant::now`. Nothing is said of what it returns.
#[verifier::external_body]
fn read_clock() -> Instant {
    Instant::now()
}

/// `Instant::elapsed`, in nanoseconds. Nothing is said of what it returns.
#[verifier::external_body]
fn nanos_since(start: &Instant) -> u64 {
    start.elapsed().as_nanos() as u64
}

/// Counts nanoseconds from the moment it was started.
#[derive(Debug)]
pub struct Clock {
    start: Instant,
}

impl Clock {
    pub fn start() -> Self {
        Clock { start: read_clock() }
    }

    /// The nanoseconds since the clock was started. What they are is up to the system.
    pub fn now(&self) -> u64 {
        nanos_since(&self.start)
    }
}

} // verus!
