//! The node's clock: nanoseconds since it was started, never going back.

use std::time::Instant;
use vstd::prelude::*;

verus! {

/// A reading of the system's monotonic clock.
#[verifier::external_type_specification]
#[verifier::external_body]
pub struct ExInstant(Instant);

/// `Instant::now`. Which moment it is, is left open.
#[verifier::external_body]
fn instant_now() -> (i: Instant) {
    Instant::now()
}

/// `Instant::elapsed`, in nanoseconds. How long it has been, is left open.
#[verifier::external_body]
fn instant_elapsed(since: &Instant) -> (nanos: u64) {
    since.elapsed().as_nanos() as u64
}

/// Counts nanoseconds from when it was started.
pub struct Clock {
    started: Instant,
    latest: u64,
}

impl Clock {
    /// The latest reading taken off it.
    pub closed spec fn latest(self) -> u64 {
        self.latest
    }

    pub fn start() -> (c: Self)
        ensures
            c.latest() == 0,
    {
        Clock { started: instant_now(), latest: 0 }
    }

    /// Takes a reading. None is earlier than one before it.
    pub fn now(&mut self) -> (nanos: u64)
        ensures
            nanos == final(self).latest(),
            old(self).latest() <= nanos,
    {
        let reading = instant_elapsed(&self.started);
        self.read(reading)
    }

    /// The same, with what the system's clock said in hand.
    pub fn read(&mut self, reading: u64) -> (nanos: u64)
        ensures
            nanos == (if reading > old(self).latest() {
                reading
            } else {
                old(self).latest()
            }),
            final(self).latest() == nanos,
    {
        if reading > self.latest {
            self.latest = reading;
        }
        self.latest
    }
}

/// Nanoseconds between two readings; none, if the second is the earlier one.
pub open spec fn elapsed(from: u64, to: u64) -> int {
    if to >= from {
        to - from
    } else {
        0
    }
}

pub fn elapsed_between(from: u64, to: u64) -> (nanos: u64)
    ensures
        nanos == elapsed(from, to),
{
    to.saturating_sub(from)
}

/// A time later is that time, and a time earlier is no time at all.
pub proof fn time_passes_forward(from: u64, to: u64)
    ensures
        from <= to ==> from + elapsed(from, to) == to,
        to < from ==> elapsed(from, to) == 0,
{
}

} // verus!
