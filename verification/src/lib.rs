//! A generic time-to-live cache of keyed, timestamped entries, the
//! path and staleness logic of the manager that persists such caches,
//! a canonical JSON form of a string cache, and a tolerant resolver
//! that maps a loosely written template name to a cached payload.

pub mod cache;
pub mod codec;
pub mod errors;
pub mod keyed;
pub mod manager;
pub mod resolve;
pub mod text;

use vstd::prelude::*;

verus! {

/// Saturating subtraction on seconds: an age never goes negative, so a
/// timestamp in the future reads as age zero.
pub open spec fn age_of(now: u64, then: u64) -> u64 {
    if now >= then {
        (now - then) as u64
    } else {
        0u64
    }
}

/// Computes `age_of` executably.
pub fn age_between(now: u64, then: u64) -> (r: u64)
    ensures
        r == age_of(now, then),
{
    if now >= then {
        now - then
    } else {
        0
    }
}

} // verus!
