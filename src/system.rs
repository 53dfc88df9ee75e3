//! Calls into the clock, the id generator and std's Unicode tables.
use vstd::prelude::*;

use chrono::{Datelike, Timelike};

use crate::date_parser::LocalDateTime;

verus! {

/// What `str::to_lowercase` makes of a string.
pub uninterp spec fn lower_of(s: Seq<char>) -> Seq<char>;

/// Relies on uuid::Uuid::new_v4 for a random id, taken as its 128-bit value.
#[verifier::external_body]
pub(crate) fn fresh_id() -> (r: u128) {
    uuid::Uuid::new_v4().as_u128()
}

/// Relies on chrono::Utc::now for the current instant, in microseconds since the epoch.
#[verifier::external_body]
pub(crate) fn now_micros() -> (r: i64) {
    chrono::Utc::now().timestamp_micros()
}

/// Relies on str::to_lowercase, whose result depends on the characters alone.
#[verifier::external_body]
pub(crate) fn lowercase_chars(s: &str) -> (r: Vec<char>)
    ensures
        r@ == lower_of(s@),
{
    s.to_lowercase().chars().collect()
}

/// Relies on chrono's Local::now and DateTime::with_time: today's local date at the given
/// time, or nothing where that local time does not exist or is ambiguous.
#[verifier::external_body]
pub(crate) fn local_today_at(hour: u32, minute: u32) -> (r: Option<LocalDateTime>)
    requires
        hour < 24,
        minute < 60,
    ensures
        r matches Some(d) ==> d.hour == hour && d.minute == minute && d.second == 0,
{
    let time = chrono::NaiveTime::from_hms_opt(hour, minute, 0)?;
    let d = chrono::Local::now().with_time(time).single()?;
    Some(LocalDateTime {
        year: d.year(),
        month: d.month(),
        day: d.day(),
        hour: d.hour(),
        minute: d.minute(),
        second: d.second(),
        timestamp_micros: d.timestamp_micros(),
    })
}

} // verus!
