//! The wall clock, read through `chrono`.
//!
//! Nothing here is proved: each function hands on what `chrono` returns.

use vstd::prelude::*;

verus! {

/// `chrono::NaiveDateTime`: a date and time without a time zone. Opaque here;
/// the library only keeps one and hands it back to `chrono`.
#[verifier::external_type_specification]
#[verifier::external_body]
pub struct ExNaiveDateTime(chrono::NaiveDateTime);

/// `chrono::TimeDelta` (also named `chrono::Duration`): a signed span of time.
/// Opaque here.
#[verifier::external_type_specification]
#[verifier::external_body]
pub struct ExTimeDelta(chrono::TimeDelta);

/// The current time in UTC, from `chrono::Utc::now`, as the naive date and
/// time that `DateTime::naive_utc` gives for it.
///
/// Nothing is claimed of the result: it is whatever the system clock says.
/// `Utc::now` panics where that clock stands before 1970.
#[verifier::external_body]
pub(crate) fn now() -> (time: chrono::NaiveDateTime) {
    chrono::Utc::now().naive_utc()
}

/// The span from `since` to `until`, by `chrono`'s subtraction of one
/// `NaiveDateTime` from another (`NaiveDateTime::signed_duration_since`).
///
/// Nothing is claimed of the result. It is negative where `until` is the
/// earlier of the two.
#[verifier::external_body]
pub(crate) fn span(since: &chrono::NaiveDateTime, until: &chrono::NaiveDateTime) -> (delta:
    chrono::TimeDelta) {
    *until - *since
}

/// The whole seconds in `delta`, by `chrono::TimeDelta::num_seconds`.
///
/// Nothing is claimed of the result.
#[verifier::external_body]
pub(crate) fn whole_seconds(delta: &chrono::TimeDelta) -> (seconds: i64) {
    delta.num_seconds()
}

} // verus!
