//! The staleness clock: seconds since the Unix epoch.

use vstd::prelude::*;

verus! {

/// Relies on `std::time::SystemTime::now` and
/// `duration_since(std::time::UNIX_EPOCH)`: the wall clock as whole seconds
/// since the Unix epoch, and 0 when the clock reads before the epoch.
/// Nothing can be promised of a clock reading.
#[verifier::external_body]
fn system_time_secs() -> u64 {
    std::time::SystemTime::now().duration_since(std::time::UNIX_EPOCH).unwrap_or_default().as_secs()
}

/// The current Unix timestamp, against which `next_update` marks decide
/// staleness. Every refresh decision takes the reading as an argument, so
/// the decisions themselves are verified for every clock value.
pub fn get_current_time() -> u64 {
    system_time_secs()
}

} // verus!
