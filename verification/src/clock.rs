use vstd::prelude::*;

verus! {

/// Relies on chrono::Utc::now and chrono::DateTime::timestamp_micros: the
/// present instant as microseconds since the Unix epoch, read from the
/// system clock. Nothing is promised of the value; every caller must be
/// correct whatever instant comes back.
#[verifier::external_body]
pub fn now_timestamp_micros() -> i64 {
    chrono::Utc::now().timestamp_micros()
}

} // verus!
