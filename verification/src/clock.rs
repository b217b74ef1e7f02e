//! The one source of wall-clock time: a trusted wrapper around `std::time`.
//! All timing logic works on the plain milliseconds value this returns.

use vstd::prelude::*;

verus! {

/// Relies on `std::time::SystemTime::now` and
/// `SystemTime::duration_since(UNIX_EPOCH)`: milliseconds of wall-clock time
/// since the epoch, or 0 when the clock reads earlier than the epoch.
/// Wall time is not a function of the arguments, so nothing is promised of
/// the value.
#[verifier::external_body]
pub(crate) fn now_millis() -> u64 {
    match std::time::SystemTime::now().duration_since(std::time::UNIX_EPOCH) {
        Ok(d) => d.as_millis() as u64,
        Err(_) => 0,
    }
}

} // verus!
