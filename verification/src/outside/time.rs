//! std's clock.
use std::time::{Duration, Instant};
use vstd::prelude::*;

verus! {

/// std's `Instant`, carried without looking inside.
#[verifier::external_type_specification]
#[verifier::external_body]
pub struct ExInstant(std::time::Instant);

/// std's `Instant::now`. Which instant it is depends on the clock: nothing is
/// claimed.
pub assume_specification[ std::time::Instant::now ]() -> (instant: Instant);

/// What `Duration::as_nanos` makes of a duration.
pub uninterp spec fn duration_nanos(duration: Duration) -> u128;

/// std's `Duration::as_nanos`, the nanoseconds of a duration: they depend on the
/// duration alone.
pub assume_specification[ std::time::Duration::as_nanos ](duration: &Duration) -> (nanos: u128)
    ensures
        nanos == duration_nanos(*duration),
;

/// What the clock read, with a record of the instant that it counted from.
pub struct Reading {
    elapsed: Duration,
    since: Ghost<Instant>,
}

impl Reading {
    /// The instant that the clock counted from.
    pub closed spec fn since(self) -> Instant {
        self.since@
    }

    /// What the clock read.
    pub(crate) fn elapsed(&self) -> (elapsed: Duration)
        ensures
            duration_nanos(elapsed) == self.at(),
    {
        self.elapsed
    }

    /// The nanoseconds that it counted.
    pub closed spec fn at(self) -> u128 {
        duration_nanos(self.elapsed)
    }
}

/// A record says what the clock read, to the nanosecond.
proof fn law_record_holds_what_was_read(reading: Reading)
    ensures
        reading.at() == duration_nanos(reading.elapsed),
{
}

/// Whether `now` is what the clock read, in nanoseconds since `epoch`.
pub open spec fn is_reading(epoch: Instant, now: u128) -> bool {
    exists|reading: Reading| reading.since() == epoch && #[trigger] reading.at() == now
}

/// std's `Instant::elapsed`. It counts from `epoch`; how much time has passed
/// depends on the clock, and nothing is claimed of it.
#[verifier::external_body]
pub(crate) fn read_clock(epoch: &Instant) -> (reading: Reading)
    ensures
        reading.since() == *epoch,
{
    Reading { elapsed: epoch.elapsed(), since: Ghost(arbitrary()) }
}

} // verus!
