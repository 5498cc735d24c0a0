//! The clock of the cache.
//!
//! Instants are counted in nanoseconds since the cache was made, so that the
//! rules on idleness are rules on integers.
use crate::outside::time::{is_reading, read_clock};
use std::time::Instant;
use vstd::prelude::*;

verus! {

/// The nanoseconds that have passed since `epoch`.
pub(crate) fn nanos_since(epoch: &Instant) -> (now: u128)
    ensures
        is_reading(*epoch, now),
{
    let reading = read_clock(epoch);
    let now = reading.elapsed().as_nanos();
    assert(reading.since() == *epoch && reading.at() == now);
    now
}

} // verus!
