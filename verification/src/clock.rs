//! The wall clock.

use vstd::prelude::*;
use iggy::prelude::IggyTimestamp;

verus! {

/// The current time in microseconds since the Unix epoch, as
/// `IggyTimestamp::now().as_micros()` gives it. Nothing is claimed of the
/// value: two calls may differ, and the clock may step back. The call
/// panics where the system clock stands before the epoch.
#[verifier::external_body]
pub(crate) fn now_micros() -> (now: u64) {
    IggyTimestamp::now().as_micros()
}

} // verus!
