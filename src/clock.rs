//! The millisecond clock that drives the transport timers.
use vstd::prelude::*;

verus! {

/// Relies on std::time::SystemTime::now: the current wall-clock time in
/// milliseconds since the Unix epoch (0 before the epoch). Nothing is
/// promised of the value.
#[verifier::external_body]
pub(crate) fn now_ms() -> u128 {
    match std::time::SystemTime::now().duration_since(std::time::UNIX_EPOCH) {
        Ok(d) => d.as_millis(),
        Err(_) => 0,
    }
}

} // verus!
