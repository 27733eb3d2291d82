//! The wall clock.

use std::time::{SystemTime, UNIX_EPOCH};
use vstd::prelude::*;

verus! {

/// Calls `std::time::SystemTime::now` and takes the time since the Unix
/// epoch as whole seconds and the nanoseconds within the last second
/// (`Duration::as_secs`, `Duration::subsec_nanos`, which std documents to be
/// less than one billion). The value depends on the moment of the call, so
/// nothing more is promised of it; a clock set before the epoch reads as 0.
#[verifier::external_body]
pub(crate) fn unix_now() -> (res: (u64, u32))
    ensures
        res.1 < 1_000_000_000,
{
    match SystemTime::now().duration_since(UNIX_EPOCH) {
        Ok(d) => (d.as_secs(), d.subsec_nanos()),
        Err(_) => (0, 0),
    }
}

/// A time since the epoch in nanoseconds, kept to 64 bits as a `u64` cast
/// keeps it.
pub open spec fn nanos_since_epoch(secs: u64, nanos: u32) -> u64 {
    ((secs * 1_000_000_000 + nanos) % 0x1_0000_0000_0000_0000) as u64
}

/// Nanoseconds since the epoch, kept to 64 bits.
pub(crate) fn epoch_nanos(secs: u64, nanos: u32) -> (res: u64)
    ensures
        res == nanos_since_epoch(secs, nanos),
{
    let total: u128 = (secs as u128) * 1_000_000_000u128 + (nanos as u128);
    (total % 0x1_0000_0000_0000_0000u128) as u64
}

} // verus!
