use vstd::prelude::*;

verus! {

/// Relies on chrono's Local::now, read out through
/// DateTime::timestamp_millis: the moment of the call as milliseconds
/// since the Unix epoch.  The result depends on the clock, so nothing is
/// promised of it.
#[verifier::external_body]
pub(crate) fn now_millis() -> i64 {
    chrono::Local::now().timestamp_millis()
}

} // verus!
