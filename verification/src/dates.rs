//! Timestamps as dates.

use chrono::{TimeZone, Utc};
use vstd::prelude::*;

verus! {

/// The date and time, in UTC, of the moment `timestamp` seconds after the
/// start of 1970, as text; nothing where the calendar does not reach it.
pub uninterp spec fn utc_text(timestamp: i64) -> Option<Seq<char>>;

/// `Utc.timestamp_opt(timestamp, 0)` of the `chrono` crate, which gives one
/// moment or none, and the moment's `to_string`. Both depend on the
/// timestamp alone: the time zone is fixed and no locale is read.
#[verifier::external_body]
fn utc_string(timestamp: i64) -> (text: Option<String>)
    ensures
        text.deep_view() == utc_text(timestamp),
{
    match Utc.timestamp_opt(timestamp, 0).single() {
        Some(moment) => Some(moment.to_string()),
        None => None,
    }
}

/// The date that a timestamp is shown as: its date and time in UTC, or the
/// empty text where the calendar does not reach it.
pub open spec fn date_text(timestamp: i64) -> Seq<char> {
    match utc_text(timestamp) {
        Some(date) => date,
        None => Seq::empty(),
    }
}

/// Format creation date as a human-readable string: the date and time in
/// UTC, or the empty string where the timestamp is out of range.
pub fn format_creation_date(timestamp: i64) -> (text: String)
    ensures
        text@ == date_text(timestamp),
{
    match utc_string(timestamp) {
        Some(date) => date,
        None => String::new(),
    }
}

} // verus!
