//! The current time, read through chrono.
use vstd::prelude::*;

verus! {

/// Relies on `chrono::Local::now` and the `Display` of chrono's `DateTime`:
/// the current local date and time as text, for instance
/// `2024-05-01 13:45:10.123456789 +02:00`. It differs from call to call, so
/// nothing is stated of it. chrono panics if the system clock reads a time
/// before the Unix epoch.
#[verifier::external_body]
pub(crate) fn local_now_text() -> (r: String) {
    chrono::Local::now().to_string()
}

/// Relies on `chrono::Utc::now` and `DateTime::timestamp_millis`: the
/// current time in milliseconds since the Unix epoch. It differs from call
/// to call, so nothing is stated of it. chrono panics if the system clock
/// reads a time before the Unix epoch.
#[verifier::external_body]
pub(crate) fn utc_now_millis() -> (r: i64) {
    chrono::Utc::now().timestamp_millis()
}

} // verus!
