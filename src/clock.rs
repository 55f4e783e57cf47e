//! The wall clock.

use vstd::prelude::*;

verus! {

/// Relies on std::time::SystemTime::now and SystemTime::duration_since: the
/// current Unix time in whole seconds, 0 for a clock set before 1970.
/// Nothing is promised of the value: it is whatever the clock says.
#[verifier::external_body]
pub fn now_secs() -> (r: u64) {
    match std::time::SystemTime::now().duration_since(std::time::UNIX_EPOCH) {
        Ok(d) => d.as_secs(),
        Err(_) => 0,
    }
}

/// The current Unix time in whole seconds, by the wall clock.
pub fn unix_timestamp() -> (r: u64) {
    now_secs()
}

} // verus!
