//! Fresh identifiers and the current time. Both come from outside: ids from
//! the process random number source, time from the system clock. Every
//! function that consumes them takes the value as an argument and is
//! verified for every value, so nothing below rests on their randomness.

use vstd::prelude::*;

verus! {

/// Relies on `uuid::Uuid::new_v4` and the `Display` form of `Uuid`: a random
/// version-4 UUID rendered as the usual 36-character hyphenated lowercase
/// string. The value is random; only its length is assumed.
#[verifier::external_body]
pub(crate) fn fresh_uuid() -> (r: String)
    ensures
        r@.len() == 36,
{
    uuid::Uuid::new_v4().to_string()
}

/// Relies on `uuid::Uuid::new_v4` and the `Display` form of `uuid::fmt::Simple`:
/// the same random UUID without hyphens, 32 hexadecimal characters. Used as a
/// collision-avoidance token in asset file names.
#[verifier::external_body]
pub(crate) fn fresh_token() -> (r: String)
    ensures
        r@.len() == 32,
{
    uuid::Uuid::new_v4().simple().to_string()
}

/// Relies on `chrono::Utc::now` and `chrono::DateTime::timestamp_millis`: the
/// system clock as milliseconds since the Unix epoch. Nothing is assumed of
/// the value; the clock may jump in either direction.
#[verifier::external_body]
pub(crate) fn now_millis_raw() -> (r: i64)
{
    chrono::Utc::now().timestamp_millis()
}

/// The clock reading clamped to an unsigned timestamp: readings before the
/// epoch count as the epoch itself.
pub(crate) fn now_millis() -> u64 {
    let t = now_millis_raw();
    if t < 0 {
        0
    } else {
        t as u64
    }
}

} // verus!
