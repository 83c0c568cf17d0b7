//! The integer features of a transaction: its UTC clock, the time since the
//! previous transaction and whether the merchant is known to the customer.

use vstd::prelude::*;
use chrono::{Datelike, Timelike};

verus! {

/// Hour (0..24) and weekday (days from Monday, 0..7) in UTC of the instant that
/// `chrono::DateTime::parse_from_rfc3339` reads from `s`, or nothing when it
/// rejects `s`.
pub uninterp spec fn rfc3339_utc_clock(s: Seq<char>) -> Option<(u32, u32)>;

/// Whole minutes (truncated toward zero, as `chrono::TimeDelta::num_minutes`
/// counts them) from the instant `last` to the instant `current`, both read by
/// `chrono::DateTime::parse_from_rfc3339`, or nothing when either is rejected.
pub uninterp spec fn rfc3339_minutes_between(current: Seq<char>, last: Seq<char>) -> Option<i64>;

/// Value of the decimal digit at position `i` of `s`.
pub open spec fn digit_at(s: Seq<char>, i: int) -> int {
    (s[i] as u32) as int - 48
}

/// Value of the two decimal digits at positions `i` and `i + 1` of `s`.
pub open spec fn two_digits(s: Seq<char>, i: int) -> int {
    10 * digit_at(s, i) + digit_at(s, i + 1)
}

/// Weekday, in days from Monday, of the proleptic Gregorian date `y-m-d`
/// (Zeller's congruence, January and February counted as months 13 and 14 of
/// the previous year).
pub open spec fn gregorian_weekday(y: int, m: int, d: int) -> int {
    let yy = if m <= 2 { y - 1 } else { y };
    let mm = if m <= 2 { m + 12 } else { m };
    let k = yy % 100;
    let j = yy / 100;
    let from_saturday = (d + (13 * (mm + 1)) / 5 + k + k / 4 + j / 4 + 5 * j) % 7;
    (from_saturday + 5) % 7
}

/// The UTC offset, in minutes east, written at the end of an RFC 3339 text:
/// 0 for a final `Z` (or `z`), `±(HH * 60 + MM)` for a final `+HH:MM` or
/// `-HH:MM`; nothing for any other ending.
pub open spec fn text_offset_minutes(s: Seq<char>) -> Option<int> {
    let n = s.len() as int;
    if n >= 1 && (s[n - 1] == 'Z' || s[n - 1] == 'z') {
        Some(0)
    } else if n >= 6 && (s[n - 6] == '+' || s[n - 6] == '-') && s[n - 3] == ':' {
        let minutes = two_digits(s, n - 5) * 60 + two_digits(s, n - 2);
        Some(if s[n - 6] == '-' { -minutes } else { minutes })
    } else {
        None
    }
}

/// The UTC hour of day and weekday (days from Monday) of the instant written
/// as `YYYY-MM-DDTHH:MM:SS[.fraction]` followed by an offset `Z` or `±HH:MM`:
/// the local clock moved back by the offset, the weekday moving with it across
/// midnight. Nothing when the text does not end in such an offset.
pub open spec fn rfc3339_text_clock(s: Seq<char>) -> Option<(int, int)> {
    match text_offset_minutes(s) {
        Some(offset) => {
            let year = 100 * two_digits(s, 0) + two_digits(s, 2);
            let local_minutes = two_digits(s, 11) * 60 + two_digits(s, 14);
            let utc_minutes = local_minutes - offset;
            let day_shift = utc_minutes / 1440;
            Some((
                (utc_minutes % 1440) / 60,
                (gregorian_weekday(year, two_digits(s, 5), two_digits(s, 8)) + day_shift) % 7,
            ))
        },
        None => None,
    }
}

/// Calls `chrono::DateTime::parse_from_rfc3339`, converts the instant to UTC
/// with `with_timezone(&chrono::Utc)` and reads `hour()` and
/// `weekday().num_days_from_monday()`. Trusted: the result is the named
/// `rfc3339_utc_clock` of the text; chrono documents the hour as lying in
/// 0..24 and the weekday number in 0..7; and, as chrono's RFC 3339 parser reads
/// the date, the hour and minute at fixed positions and the offset at the end
/// of the text, an accepted text that ends in `Z` or `±HH:MM` gives the clock
/// of `rfc3339_text_clock`. Which texts chrono accepts is left to the name.
#[verifier::external_body]
fn utc_clock(s: &str) -> (r: Option<(u32, u32)>)
    ensures
        r == rfc3339_utc_clock(s@),
        r matches Some((h, d)) ==> h < 24 && d < 7,
        r matches Some((h, d)) ==> (rfc3339_text_clock(s@) matches Some((eh, ed)) ==> h == eh && d
            == ed),
{
    match chrono::DateTime::parse_from_rfc3339(s) {
        Ok(dt) => {
            let utc = dt.with_timezone(&chrono::Utc);
            Some((utc.hour(), utc.weekday().num_days_from_monday()))
        },
        Err(_) => None,
    }
}

/// Parses both texts with `chrono::DateTime::parse_from_rfc3339`, converts them
/// to UTC and takes `signed_duration_since(..).num_minutes()`. Trusted: the
/// result is the named `rfc3339_minutes_between` of the two texts, and it is
/// present exactly when both texts parse (the same parse that `utc_clock`
/// makes). The value of the difference is left to the name.
#[verifier::external_body]
fn minutes_between(current: &str, last: &str) -> (r: Option<i64>)
    ensures
        r == rfc3339_minutes_between(current@, last@),
        r is Some <==> (rfc3339_utc_clock(current@) is Some && rfc3339_utc_clock(last@) is Some),
{
    match (chrono::DateTime::parse_from_rfc3339(current), chrono::DateTime::parse_from_rfc3339(last)) {
        (Ok(c), Ok(l)) => Some(
            c.with_timezone(&chrono::Utc).signed_duration_since(l.with_timezone(&chrono::Utc)).num_minutes(),
        ),
        _ => None,
    }
}

/// Clock features of a transaction.
#[derive(Clone, Copy, Debug, PartialEq, Eq)]
pub struct TimeFeatures {
    /// UTC hour of the transaction (0 when its time does not parse).
    pub hour: u32,
    /// UTC weekday, days from Monday (0 when its time does not parse).
    pub day_of_week: u32,
    /// Minutes since the previous transaction, never negative (0 when either
    /// time does not parse); nothing when there is no previous transaction.
    pub minutes_since_last: Option<i64>,
}

/// Clock features from the parsed UTC clock of the transaction (hour and
/// weekday) and, when there is a previous transaction, the minutes elapsed
/// since it (nothing when either time failed to parse).
pub open spec fn spec_clock_features(
    clock: Option<(u32, u32)>,
    has_last: bool,
    elapsed_minutes: Option<i64>,
) -> TimeFeatures {
    TimeFeatures {
        hour: match clock {
            Some((h, _)) => h,
            None => 0,
        },
        day_of_week: match clock {
            Some((_, d)) => d,
            None => 0,
        },
        minutes_since_last: if has_last {
            Some(
                match elapsed_minutes {
                    Some(m) => if m < 0 { 0 } else { m },
                    None => 0,
                },
            )
        } else {
            None
        },
    }
}

/// Builds the clock features: an unparsed time counts as hour 0 of weekday 0,
/// a previous transaction that cannot be placed counts as 0 minutes ago, and
/// a previous transaction later than this one counts as 0 minutes ago too.
pub fn clock_features(clock: Option<(u32, u32)>, has_last: bool, elapsed_minutes: Option<i64>) -> (f:
    TimeFeatures)
    ensures
        f == spec_clock_features(clock, has_last, elapsed_minutes),
{
    let (hour, day_of_week) = match clock {
        Some((h, d)) => (h, d),
        None => (0, 0),
    };
    let minutes_since_last = if has_last {
        let minutes = match elapsed_minutes {
            Some(m) => if m < 0 { 0 } else { m },
            None => 0,
        };
        Some(minutes)
    } else {
        None
    };
    TimeFeatures { hour, day_of_week, minutes_since_last }
}

/// The clock features of a transaction at `requested_at` whose previous
/// transaction (if any) happened at `last_timestamp`.
pub fn time_features(requested_at: &str, last_timestamp: Option<&str>) -> (f: TimeFeatures)
    ensures
        f == spec_clock_features(
            rfc3339_utc_clock(requested_at@),
            last_timestamp is Some,
            match last_timestamp {
                Some(last) => rfc3339_minutes_between(requested_at@, last@),
                None => None,
            },
        ),
        rfc3339_utc_clock(requested_at@) is Some ==> (rfc3339_text_clock(requested_at@) matches Some((
            eh,
            ed,
        )) ==> f.hour == eh && f.day_of_week == ed),
        last_timestamp matches Some(l) ==> (rfc3339_minutes_between(requested_at@, l@) is Some
            <==> (rfc3339_utc_clock(requested_at@) is Some && rfc3339_utc_clock(l@) is Some)),
        f.hour < 24,
        f.day_of_week < 7,
        f.minutes_since_last matches Some(m) ==> m >= 0,
{
    let clock = utc_clock(requested_at);
    let elapsed = match last_timestamp {
        Some(last) => minutes_between(requested_at, last),
        None => None,
    };
    clock_features(clock, last_timestamp.is_some(), elapsed)
}

/// Whether the merchant is missing from the customer's known merchants.
pub fn is_unknown_merchant(known_merchants: &Vec<String>, merchant_id: &String) -> (unknown: bool)
    ensures
        unknown == !known_merchants@.map_values(|m: String| m@).contains(merchant_id@),
{
    let ghost ids = known_merchants@.map_values(|m: String| m@);
    let mut i: usize = 0;
    while i < known_merchants.len()
        invariant
            i <= known_merchants@.len(),
            ids == known_merchants@.map_values(|m: String| m@),
            forall|j: int| 0 <= j < i ==> ids[j] != merchant_id@,
        decreases known_merchants@.len() - i,
    {
        if known_merchants[i] == *merchant_id {
            assert(ids[i as int] == merchant_id@);
            return false;
        }
        i = i + 1;
    }
    proof {
        if ids.contains(merchant_id@) {
            let j = choose|j: int| 0 <= j < ids.len() && ids[j] == merchant_id@;
            assert(ids[j] != merchant_id@);
        }
    }
    true
}

} // verus!
