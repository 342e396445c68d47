//! Which stations the store takes in: those still reporting (a last daily
//! record within a week of now) with at least five years of daily history.
//! Dates arrive as "YYYY-MM-DD HH:MM:SS" or "YYYY-MM-DD" texts; instants are
//! seconds since the Unix epoch, UTC.

use vstd::prelude::*;

verus! {

/// How recent a station's last daily record must be: seven days, in seconds.
pub const ACTIVE_WINDOW_SECONDS: i64 = 604_800;

/// How long a station's daily history must span: 1825 days (five years),
/// in seconds.
pub const SUFFICIENT_HISTORY_SECONDS: i64 = 157_680_000;

/// The instant that a "YYYY-MM-DD HH:MM:SS" text names, if it names one.
pub uninterp spec fn datetime_seconds(s: Seq<char>) -> Option<i64>;

/// The midnight that a "YYYY-MM-DD" text names, if it names a date.
pub uninterp spec fn date_seconds(s: Seq<char>) -> Option<i64>;

/// Relies on chrono's `NaiveDateTime::parse_from_str` with
/// "%Y-%m-%d %H:%M:%S" and on `timestamp`: the instant depends on the text
/// alone.
#[verifier::external_body]
fn parse_datetime_seconds(s: &str) -> (r: Option<i64>)
    ensures
        r == datetime_seconds(s@),
{
    match chrono::NaiveDateTime::parse_from_str(s, "%Y-%m-%d %H:%M:%S") {
        Ok(t) => Some(t.and_utc().timestamp()),
        Err(_) => None,
    }
}

/// Relies on chrono's `NaiveDate::parse_from_str` with "%Y-%m-%d", taken at
/// midnight, and on `timestamp`: the instant depends on the text alone.
#[verifier::external_body]
fn parse_date_seconds(s: &str) -> (r: Option<i64>)
    ensures
        r == date_seconds(s@),
{
    match chrono::NaiveDate::parse_from_str(s, "%Y-%m-%d") {
        Ok(d) => Some(d.and_time(chrono::NaiveTime::MIN).and_utc().timestamp()),
        Err(_) => None,
    }
}

/// The instant a date text names: as a date and time, else as a date.
pub open spec fn timestamp_of(s: Seq<char>) -> Option<i64> {
    match datetime_seconds(s) {
        Some(t) => Some(t),
        None => date_seconds(s),
    }
}

/// Whether a last-record date lies within the active window before `now`.
pub open spec fn station_active(last: Option<Seq<char>>, now: i64) -> bool {
    match last {
        None => false,
        Some(t) => match timestamp_of(t) {
            None => false,
            Some(ts) => ts >= now - ACTIVE_WINDOW_SECONDS,
        },
    }
}

/// Whether the first and last record dates span the sufficient history.
pub open spec fn history_sufficient(first: Option<Seq<char>>, last: Option<Seq<char>>) -> bool {
    match (first, last) {
        (Some(f), Some(l)) => match (timestamp_of(f), timestamp_of(l)) {
            (Some(a), Some(b)) => b - a >= SUFFICIENT_HISTORY_SECONDS,
            _ => false,
        },
        _ => false,
    }
}

pub open spec fn text_view(t: Option<&str>) -> Option<Seq<char>> {
    match t {
        Some(s) => Some(s@),
        None => None,
    }
}

/// The instant a date text names, read as "YYYY-MM-DD HH:MM:SS" or else as
/// "YYYY-MM-DD" (midnight).
pub fn parse_timestamp(s: &str) -> (r: Option<i64>)
    ensures
        r == timestamp_of(s@),
{
    match parse_datetime_seconds(s) {
        Some(t) => Some(t),
        None => parse_date_seconds(s),
    }
}

/// Whether a station still reports: its last daily record lies no more
/// than a week before `now`. A missing or unreadable date is not active.
pub fn is_station_active(dly_last_date: Option<&str>, now: i64) -> (r: bool)
    ensures
        r == station_active(text_view(dly_last_date), now),
{
    match dly_last_date {
        None => false,
        Some(t) => match parse_timestamp(t) {
            None => false,
            Some(ts) => (ts as i128) >= (now as i128) - (ACTIVE_WINDOW_SECONDS as i128),
        },
    }
}

/// Whether a station's daily history spans at least five years (1825
/// days). A missing or unreadable date gives no.
pub fn has_sufficient_data(dly_first_date: Option<&str>, dly_last_date: Option<&str>) -> (r: bool)
    ensures
        r == history_sufficient(text_view(dly_first_date), text_view(dly_last_date)),
{
    let first = match dly_first_date {
        None => {
            return false;
        },
        Some(f) => f,
    };
    let last = match dly_last_date {
        None => {
            return false;
        },
        Some(l) => l,
    };
    let a = match parse_timestamp(first) {
        None => {
            return false;
        },
        Some(a) => a,
    };
    let b = match parse_timestamp(last) {
        None => {
            return false;
        },
        Some(b) => b,
    };
    (b as i128) - (a as i128) >= (SUFFICIENT_HISTORY_SECONDS as i128)
}

/// What the store does with a station from the source.
#[derive(Debug, Clone, Copy, PartialEq, Eq)]
pub enum StationIntake {
    /// No daily record within the active window.
    Inactive,
    /// Active, but with under five years of daily history.
    InsufficientHistory,
    /// Taken into the store.
    Accepted,
}

/// Sorts a station from the source: inactive ones first, then those with
/// too short a history; the rest are accepted.
pub fn classify_station(dly_first_date: Option<&str>, dly_last_date: Option<&str>, now: i64) -> (r:
    StationIntake)
    ensures
        (r == StationIntake::Inactive) <==> !station_active(text_view(dly_last_date), now),
        (r == StationIntake::InsufficientHistory) <==> station_active(text_view(dly_last_date), now)
            && !history_sufficient(text_view(dly_first_date), text_view(dly_last_date)),
        (r == StationIntake::Accepted) <==> station_active(text_view(dly_last_date), now)
            && history_sufficient(text_view(dly_first_date), text_view(dly_last_date)),
{
    if !is_station_active(dly_last_date, now) {
        StationIntake::Inactive
    } else if !has_sufficient_data(dly_first_date, dly_last_date) {
        StationIntake::InsufficientHistory
    } else {
        StationIntake::Accepted
    }
}

} // verus!
