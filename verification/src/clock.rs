//! Time, in milliseconds since the epoch.

use vstd::prelude::*;

verus! {

/// Whether something observed at `at` is younger than `ttl` at `now`. What was
/// observed in the future is not.
pub open spec fn fresh(at: Option<u64>, now: u64, ttl: u64) -> bool {
    match at {
        Some(at) => at <= now && now - at < ttl,
        None => false,
    }
}

/// Whether something observed at `at` is younger than `ttl` at `now`.
pub fn is_fresh(at: Option<u64>, now: u64, ttl: u64) -> (is_fresh: bool)
    ensures
        is_fresh == fresh(at, now, ttl),
{
    match at {
        Some(at) => at <= now && now - at < ttl,
        None => false,
    }
}

/// What was observed counts for as long as it is young, and no longer: at the moment it
/// was observed, at every moment between that and one at which it counts, and never
/// once its time is over, before it was observed or where nothing was.
pub proof fn freshness_ends(at: u64, now: u64, later: u64, ttl: u64)
    ensures
        ttl > 0 ==> fresh(Some(at), at, ttl),
        fresh(Some(at), later, ttl) && at <= now <= later ==> fresh(Some(at), now, ttl),
        now >= at + ttl ==> !fresh(Some(at), now, ttl),
        at <= now < at + ttl ==> fresh(Some(at), now, ttl),
        now < at ==> !fresh(Some(at), now, ttl),
        !fresh(None, now, ttl),
{
}

} // verus!
