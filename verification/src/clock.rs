//! The system clock, read in milliseconds.
use vstd::prelude::*;

verus! {

/// Milliseconds since the Unix epoch by `std::time::SystemTime::now`, or zero where the clock
/// reads earlier than the epoch. Nothing is stated of the reading: it depends on the machine
/// and the moment.
#[verifier::external_body]
pub(crate) fn now_millis() -> u64 {
    match std::time::SystemTime::now().duration_since(std::time::UNIX_EPOCH) {
        Ok(elapsed) => elapsed.as_millis() as u64,
        Err(_) => 0,
    }
}

} // verus!
