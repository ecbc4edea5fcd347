//! The one place that reads the system clock.
use vstd::prelude::*;

verus! {

/// Relies on `SystemTime::elapsed` from the Unix epoch: the whole seconds
/// since then, or `None` when the clock reads a time before the epoch.
#[verifier::external_body]
pub(crate) fn unix_now() -> (r: Option<u64>) {
    std::time::SystemTime::UNIX_EPOCH.elapsed().ok().map(|d| d.as_secs())
}

/// The seconds since the Unix epoch, or 0 when the clock reads earlier.
pub fn now_or_zero() -> u64 {
    match unix_now() {
        Some(t) => t,
        None => 0,
    }
}

} // verus!
