//! The one place where the library reads the wall clock.

use vstd::prelude::*;

verus! {

/// Relies on chrono::Utc::now for the current time, as whole seconds since
/// the Unix epoch. chrono documents its dates as limited to about plus or
/// minus 262,000 years from the common era, which keeps the timestamp well
/// inside the stated bounds; nothing else is assumed of the clock.
#[verifier::external_body]
pub(crate) fn now_timestamp() -> (r: i64)
    ensures
        -9_000_000_000_000 < r < 9_000_000_000_000,
{
    chrono::Utc::now().timestamp()
}

} // verus!
