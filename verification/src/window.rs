//! The window of time that a ranking looks back over.

use vstd::prelude::*;

verus! {

/// The length of the window in days.
pub const WINDOW_DAYS: i64 = 365;

/// The length of a day in seconds.
pub const SECONDS_PER_DAY: i64 = 86_400;

/// The instant at which the window that ends at `now` starts: `WINDOW_DAYS` days earlier.
/// Both instants are in seconds since the epoch.
pub fn window_start(now: i64) -> (since: i64)
    requires
        now - WINDOW_DAYS * SECONDS_PER_DAY >= i64::MIN,
    ensures
        since == now - WINDOW_DAYS * SECONDS_PER_DAY,
{
    now - WINDOW_DAYS * SECONDS_PER_DAY
}

} // verus!
