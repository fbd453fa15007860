//! The one place the library reads the wall clock.

use vstd::prelude::*;

verus! {

/// Relies on chrono::Utc::now for the current wall-clock time, read out as
/// milliseconds since the Unix epoch via chrono::DateTime::timestamp_millis.
/// Nothing is assumed of the value: callers state what holds of every
/// outcome. chrono::Utc::now panics if the system clock stands before the
/// Unix epoch.
#[verifier::external_body]
pub(crate) fn now_millis() -> i64 {
    chrono::Utc::now().timestamp_millis()
}

} // verus!
