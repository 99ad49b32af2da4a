//! Wall-clock access for trailing windows.

use vstd::prelude::*;

verus! {

/// Relies on chrono's conversion from the system clock, read as Unix
/// seconds. The conversion handles a clock before the epoch; the result
/// is the current time, and nothing is promised of its value.
#[verifier::external_body]
pub(crate) fn now_timestamp() -> i64 {
    chrono::DateTime::<chrono::Utc>::from(std::time::SystemTime::now()).timestamp()
}

} // verus!
