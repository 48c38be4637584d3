//! Reading a date given loosely on the command line: with time and zone,
//! with a time in UTC, a date alone (its midnight in UTC), or a time of
//! today. The parsing of each form is chrono's; which form wins is decided
//! here.
use crate::granularity::Moment;
use vstd::prelude::*;

verus! {

/// What `chrono::DateTime::parse_from_str(input, fmt)` gives, as seconds
/// after the epoch and the nanoseconds after that second; none when chrono
/// refuses the text.
pub uninterp spec fn chrono_zoned(input: Seq<char>, fmt: Seq<char>) -> Option<(i64, u32)>;

/// What `chrono::NaiveDateTime::parse_from_str(input, fmt)` gives, read as
/// a UTC time.
pub uninterp spec fn chrono_naive_datetime(input: Seq<char>, fmt: Seq<char>) -> Option<(i64, u32)>;

/// What `chrono::NaiveDate::parse_from_str(input, fmt)` gives: the seconds
/// after the epoch of that day's midnight in UTC.
pub uninterp spec fn chrono_naive_date(input: Seq<char>, fmt: Seq<char>) -> Option<i64>;

/// What `chrono::NaiveTime::parse_from_str(input, fmt)` gives: the seconds
/// after midnight and the nanoseconds after that second.
pub uninterp spec fn chrono_naive_time(input: Seq<char>, fmt: Seq<char>) -> Option<(u32, u32)>;

/// `chrono::DateTime::parse_from_str`, then `timestamp` and
/// `timestamp_subsec_nanos`. Claimed: the result is `chrono_zoned` of the
/// arguments.
#[verifier::external_body]
fn parse_zoned(input: &str, fmt: &str) -> (r: Option<(i64, u32)>)
    ensures
        r == chrono_zoned(input@, fmt@),
{
    match chrono::DateTime::parse_from_str(input, fmt) {
        Ok(t) => Some((t.timestamp(), t.timestamp_subsec_nanos())),
        Err(_) => None,
    }
}

/// `chrono::NaiveDateTime::parse_from_str`, then `and_utc`, `timestamp`
/// and `timestamp_subsec_nanos`. Claimed: the result is
/// `chrono_naive_datetime` of the arguments.
#[verifier::external_body]
fn parse_naive_datetime(input: &str, fmt: &str) -> (r: Option<(i64, u32)>)
    ensures
        r == chrono_naive_datetime(input@, fmt@),
{
    match chrono::NaiveDateTime::parse_from_str(input, fmt) {
        Ok(t) => Some((t.and_utc().timestamp(), t.and_utc().timestamp_subsec_nanos())),
        Err(_) => None,
    }
}

/// `chrono::NaiveDate::parse_from_str`, then the midnight of that day in
/// UTC and its `timestamp`. Claimed: the result is `chrono_naive_date` of
/// the arguments, and a midnight is a whole number of days after the epoch
/// (chrono counts days times 86 400 plus the seconds since midnight).
#[verifier::external_body]
fn parse_naive_date(input: &str, fmt: &str) -> (r: Option<i64>)
    ensures
        r == chrono_naive_date(input@, fmt@),
        r matches Some(s) ==> s % 86400 == 0,
{
    match chrono::NaiveDate::parse_from_str(input, fmt) {
        Ok(d) => Some(d.and_time(chrono::NaiveTime::MIN).and_utc().timestamp()),
        Err(_) => None,
    }
}

/// `chrono::NaiveTime::parse_from_str`, then `num_seconds_from_midnight`
/// and `nanosecond`. Claimed: the result is `chrono_naive_time` of the
/// arguments, with fewer seconds than a day has.
#[verifier::external_body]
fn parse_naive_time(input: &str, fmt: &str) -> (r: Option<(u32, u32)>)
    ensures
        r == chrono_naive_time(input@, fmt@),
        r matches Some(t) ==> t.0 < 86400,
{
    match chrono::NaiveTime::parse_from_str(input, fmt) {
        Ok(t) => Some((chrono::Timelike::num_seconds_from_midnight(&t), chrono::Timelike::nanosecond(&t))),
        Err(_) => None,
    }
}

/// `chrono::Utc::now()`, then `date_naive`, the midnight of that day and
/// its `timestamp`. The day depends on the clock, so nothing names it;
/// claimed only that a midnight is a whole number of days after the epoch,
/// and that it comes before 10^13 seconds, as every day up to chrono's last
/// one (December 31, 262142) does.
#[verifier::external_body]
fn today_midnight() -> (r: i64)
    ensures
        r % 86400 == 0,
        r < 10_000_000_000_000,
{
    chrono::Utc::now().date_naive().and_time(chrono::NaiveTime::MIN).and_utc().timestamp()
}

/// The moment of a `(seconds, nanoseconds)` pair.
pub open spec fn moment_of(p: (i64, u32)) -> Moment {
    Moment { secs: p.0, nanos: p.1 }
}

/// The forms tried, in order.
pub open spec fn zoned_format() -> Seq<char> {
    "%Y-%m-%d %H:%M:%S %z"@
}

pub open spec fn datetime_format() -> Seq<char> {
    "%Y-%m-%d %H:%M:%S"@
}

pub open spec fn date_format() -> Seq<char> {
    "%Y-%m-%d"@
}

pub open spec fn time_format() -> Seq<char> {
    "%H:%M:%S"@
}

/// The moment `input` names when it is not a time of day alone: the first
/// of the zoned, the UTC date-time and the date forms that reads it.
pub open spec fn dated_moment(input: Seq<char>) -> Option<Moment> {
    if chrono_zoned(input, zoned_format()) is Some {
        Some(moment_of(chrono_zoned(input, zoned_format())->Some_0))
    } else if chrono_naive_datetime(input, datetime_format()) is Some {
        Some(moment_of(chrono_naive_datetime(input, datetime_format())->Some_0))
    } else if chrono_naive_date(input, date_format()) is Some {
        Some(Moment { secs: chrono_naive_date(input, date_format())->Some_0, nanos: 0 })
    } else {
        None
    }
}

/// The moment chosen among what the forms read, in order of preference:
/// the zoned reading, the UTC date-time, the date's midnight, then the time
/// of day on the day whose midnight is `today`.
pub open spec fn chosen_moment(
    zoned: Option<(i64, u32)>,
    naive: Option<(i64, u32)>,
    date: Option<i64>,
    time: Option<(u32, u32)>,
    today: i64,
) -> Option<Moment> {
    match (zoned, naive, date, time) {
        (Some(z), _, _, _) => Some(moment_of(z)),
        (None, Some(n), _, _) => Some(moment_of(n)),
        (None, None, Some(d), _) => Some(Moment { secs: d, nanos: 0 }),
        (None, None, None, Some(t)) => Some(Moment { secs: (today + t.0) as i64, nanos: t.1 }),
        (None, None, None, None) => None,
    }
}

/// Chooses the moment among what the four forms read (see
/// `chosen_moment`).
pub fn choose_moment(
    zoned: Option<(i64, u32)>,
    naive: Option<(i64, u32)>,
    date: Option<i64>,
    time: Option<(u32, u32)>,
    today: i64,
) -> (r: Option<Moment>)
    requires
        time matches Some(t) ==> today + t.0 <= i64::MAX,
    ensures
        r == chosen_moment(zoned, naive, date, time, today),
{
    match (zoned, naive, date, time) {
        (Some(z), _, _, _) => Some(Moment { secs: z.0, nanos: z.1 }),
        (None, Some(n), _, _) => Some(Moment { secs: n.0, nanos: n.1 }),
        (None, None, Some(d), _) => Some(Moment { secs: d, nanos: 0 }),
        (None, None, None, Some(t)) => Some(Moment { secs: today + t.0 as i64, nanos: t.1 }),
        (None, None, None, None) => None,
    }
}

/// The moment that `input` names, tried in the forms "%Y-%m-%d %H:%M:%S %z",
/// "%Y-%m-%d %H:%M:%S" (UTC), "%Y-%m-%d" (its midnight in UTC) and
/// "%H:%M:%S" (that time of today, in UTC); none when no form reads it.
/// The day of the last form is the clock's: of that result, what is stated
/// is the time of day it has.
pub fn parse_loose_datetime(input: &str) -> (r: Option<Moment>)
    ensures
        dated_moment(input@) is Some ==> r == dated_moment(input@),
        dated_moment(input@) is None ==> match chrono_naive_time(input@, time_format()) {
            Some(t) => r matches Some(m) && m.nanos == t.1 && (m.secs - t.0) % 86400 == 0,
            None => r is None,
        },
{
    let zoned = parse_zoned(input, "%Y-%m-%d %H:%M:%S %z");
    let naive = parse_naive_datetime(input, "%Y-%m-%d %H:%M:%S");
    let date = parse_naive_date(input, "%Y-%m-%d");
    let time = parse_naive_time(input, "%H:%M:%S");
    let today = today_midnight();
    choose_moment(zoned, naive, date, time, today)
}

} // verus!
