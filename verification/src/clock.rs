use vstd::prelude::*;

verus! {

/// Relies on chrono's `Utc::now().timestamp_millis()`: the milliseconds since
/// the Unix epoch, read from the system clock. Nothing can be promised of a
/// clock reading, so every caller states what holds for all values.
#[verifier::external_body]
pub fn now_millis() -> i64 {
    chrono::Utc::now().timestamp_millis()
}

} // verus!
