//! The process clock. Reading the time is inherently nondeterministic, so
//! nothing is promised about the value; every function that depends on it
//! takes the reading as an explicit argument and is verified for every
//! possible value.

use vstd::prelude::*;

verus! {

/// Relies on std::time::SystemTime::now; the body converts its result to
/// plain microseconds since the Unix epoch (zero if the clock reads earlier
/// than the epoch). No property of the returned value is assumed.
#[verifier::external_body]
pub fn now_micros() -> u64 {
    match std::time::SystemTime::now().duration_since(std::time::UNIX_EPOCH) {
        Ok(d) => d.as_micros() as u64,
        Err(_) => 0,
    }
}

} // verus!
