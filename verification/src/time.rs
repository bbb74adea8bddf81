//! Calendar formatting, provided by chrono behind trusted wrappers.
//!
//! UTC renderings are functions of the timestamp alone, so they are named by
//! uninterpreted spec functions; local renderings depend on the machine's
//! time zone and are only bounded in length.

use vstd::prelude::*;

verus! {

/// Largest timestamp the formatters accept: 9999-12-30T23:59:59Z, one day
/// short of the end of year 9999 so that a time-zone offset cannot push a
/// local rendering past four year digits.
pub const MAX_TIMESTAMP: i64 = 253402214399;

/// The `YYYY-MM-DD` rendering, in UTC, of a timestamp in seconds.
pub uninterp spec fn utc_date_of(secs: i64) -> Seq<char>;

/// The `YYYY-MM-DD HH:MM:SS` rendering, in UTC, of a timestamp in seconds.
pub uninterp spec fn utc_datetime_of(secs: i64) -> Seq<char>;

/// Relies on chrono's `DateTime::from_timestamp` and `%Y-%m-%d` formatting:
/// within the accepted range the date exists, renders as exactly ten
/// characters, and is determined by the timestamp alone.
#[verifier::external_body]
pub fn format_utc_date(secs: i64) -> (r: String)
    requires
        0 <= secs <= MAX_TIMESTAMP,
    ensures
        r@ == utc_date_of(secs),
        r@.len() == 10,
{
    match chrono::DateTime::from_timestamp(secs, 0) {
        Some(dt) => dt.format("%Y-%m-%d").to_string(),
        None => String::new(),
    }
}

/// Relies on chrono's `DateTime::from_timestamp` and `%Y-%m-%d %H:%M:%S`
/// formatting: within the accepted range the rendering is nineteen characters
/// and is determined by the timestamp alone.
#[verifier::external_body]
pub fn format_utc_datetime(secs: i64) -> (r: String)
    requires
        0 <= secs <= MAX_TIMESTAMP,
    ensures
        r@ == utc_datetime_of(secs),
        r@.len() == 19,
{
    match chrono::DateTime::from_timestamp(secs, 0) {
        Some(dt) => dt.format("%Y-%m-%d %H:%M:%S").to_string(),
        None => String::new(),
    }
}

/// Relies on chrono's `Local::now`: the current wall-clock time in seconds
/// since the Unix epoch. Nothing is promised of the value.
#[verifier::external_body]
pub fn now_timestamp() -> i64 {
    chrono::Local::now().timestamp()
}

/// Relies on chrono's local-time conversion and `%Y-%m-%d %H:%M:%S`
/// formatting. The rendering depends on the machine's time zone, so only its
/// length is promised.
#[verifier::external_body]
pub fn format_local_datetime(secs: i64) -> (r: String)
    requires
        0 <= secs <= MAX_TIMESTAMP,
    ensures
        r@.len() == 19,
{
    match chrono::DateTime::from_timestamp(secs, 0) {
        Some(dt) => dt.with_timezone(&chrono::Local).format("%Y-%m-%d %H:%M:%S").to_string(),
        None => String::new(),
    }
}

/// Relies on chrono's local-time conversion and `%H:%M:%S` formatting. The
/// rendering depends on the machine's time zone, so only its length is
/// promised.
#[verifier::external_body]
pub fn format_local_time(secs: i64) -> (r: String)
    requires
        0 <= secs <= MAX_TIMESTAMP,
    ensures
        r@.len() == 8,
{
    match chrono::DateTime::from_timestamp(secs, 0) {
        Some(dt) => dt.with_timezone(&chrono::Local).format("%H:%M:%S").to_string(),
        None => String::new(),
    }
}

} // verus!
