//! Spreading the start of the aggregation tasks over time, so that they do
//! not all reach the catalog in the same instant.

use rand::Rng;
use vstd::prelude::*;

verus! {

/// The milliseconds of delay that each track of the run adds to the span from
/// which the tasks draw their delays.
pub const JITTER_PER_TRACK: u64 = 10;

/// `rand::rng().random_range(0..bound)`: a number drawn from the thread's
/// generator. Whatever is drawn lies below `bound`; the call panics on an
/// empty range, which `requires` leaves out.
#[verifier::external_body]
fn random_below(bound: u64) -> (drawn: u64)
    requires
        bound > 0,
    ensures
        drawn < bound,
{
    rand::rng().random_range(0..bound)
}

/// The delay, in milliseconds, that a task waits before its first request: a
/// number drawn anew at every call from zero up to, and not including, ten
/// times the number of tracks of the run.
pub fn jitter_millis(total_tracks: u64) -> (delay: u64)
    requires
        0 < total_tracks,
        JITTER_PER_TRACK * total_tracks <= u64::MAX,
    ensures
        delay < JITTER_PER_TRACK * total_tracks,
{
    random_below(total_tracks * JITTER_PER_TRACK)
}

} // verus!
