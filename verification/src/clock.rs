//! The system clock.

use vstd::prelude::*;

verus! {

/// Calls `SystemTime::now`. Gives the seconds since 1970, or zero for a clock
/// set before that. What the clock shows is not stated.
#[verifier::external_body]
pub(crate) fn now_secs() -> (r: u64) {
    match std::time::SystemTime::now().duration_since(std::time::UNIX_EPOCH) {
        Ok(d) => d.as_secs(),
        Err(_) => 0,
    }
}

} // verus!
