//! Picking the commits to measure: one commit per period (day, hour, week,
//! month, or every few hours), or every commit.
use crate::text::{
    chars_less, chars_eq, chars_of, lemma_str_lt_irreflexive, lemma_str_lt_transitive, push_char,
    str_eq, str_lt, views_of,
};
use vstd::prelude::*;

verus! {

/// How densely a repository's history is sampled.
#[derive(Debug, Clone, Copy, PartialEq, Eq, Structural)]
pub enum Granularity {
    /// Every commit.
    Infinite,
    Daily,
    Hourly,
    /// Periods of the given number of hours, counted from midnight.
    EveryXHours(i64),
    /// Weeks that start on Sunday.
    Weekly,
    Monthly,
}

/// The granularity a name stands for.
pub open spec fn granularity_named(s: Seq<char>) -> Option<Granularity> {
    if s == "infinite"@ || s == "all"@ {
        Some(Granularity::Infinite)
    } else if s == "day"@ || s == "daily"@ {
        Some(Granularity::Daily)
    } else if s == "hour"@ || s == "hourly"@ {
        Some(Granularity::Hourly)
    } else if s == "week"@ || s == "weekly"@ {
        Some(Granularity::Weekly)
    } else if s == "month"@ || s == "monthly"@ {
        Some(Granularity::Monthly)
    } else {
        None
    }
}

impl Granularity {
    /// The granularity named `s`: "infinite" or "all", "day" or "daily",
    /// "hour" or "hourly", "week" or "weekly", "month" or "monthly".
    pub fn from_string(s: &str) -> (r: Option<Self>)
        ensures
            r == granularity_named(s@),
    {
        if str_eq(s, "infinite") || str_eq(s, "all") {
            Some(Granularity::Infinite)
        } else if str_eq(s, "day") || str_eq(s, "daily") {
            Some(Granularity::Daily)
        } else if str_eq(s, "hour") || str_eq(s, "hourly") {
            Some(Granularity::Hourly)
        } else if str_eq(s, "week") || str_eq(s, "weekly") {
            Some(Granularity::Weekly)
        } else if str_eq(s, "month") || str_eq(s, "monthly") {
            Some(Granularity::Monthly)
        } else {
            None
        }
    }
}

// ---------------------------------------------------------------------------
// Time of day and day of week, from a Unix timestamp in UTC
// ---------------------------------------------------------------------------
/// Seconds in a day.
pub const SECONDS_PER_DAY: i64 = 86400;

/// The hour of the day (UTC) at `secs` seconds after the epoch.
pub open spec fn hour_of(secs: int) -> int {
    (secs % 86400) / 3600
}

/// Days since the Sunday that began the week of `secs` (1970-01-01 was a
/// Thursday).
pub open spec fn days_from_sunday(secs: int) -> int {
    (secs / 86400 + 4) % 7
}

/// The same time of day on the Sunday that began the week of `secs`.
pub open spec fn week_start(secs: int) -> int {
    secs - days_from_sunday(secs) * 86400
}

/// `secs` split into whole days (rounded down) and the seconds left over.
fn split_days(secs: i64) -> (r: (i64, i64))
    ensures
        r.0 == secs / 86400,
        r.1 == secs % 86400,
{
    if secs >= 0 {
        (secs / SECONDS_PER_DAY, secs % SECONDS_PER_DAY)
    } else {
        let a: i64 = -(secs + 1);
        let q: i64 = a / SECONDS_PER_DAY;
        let m: i64 = a % SECONDS_PER_DAY;
        proof {
            assert(a == 86400 * q + m);
            assert(secs == 86400 * (-q - 1) + (86399 - m));
            assert(0 <= 86399 - m < 86400);
        }
        (-q - 1, 86399 - m)
    }
}

/// The hour of the day (UTC) at `secs`; as chrono's `Timelike::hour`.
fn hour_at(secs: i64) -> (r: u32)
    ensures
        r == hour_of(secs as int),
        r < 24,
{
    let (_, rem) = split_days(secs);
    (rem / 3600) as u32
}

/// Days since the Sunday that began the week of `secs`; as chrono's
/// `Weekday::num_days_from_sunday`.
fn days_since_sunday(secs: i64) -> (r: i64)
    ensures
        r == days_from_sunday(secs as int),
        0 <= r < 7,
{
    let (days, _) = split_days(secs);
    let m: i64 = if days >= 0 {
        days % 7
    } else {
        let a: i64 = -(days + 1);
        proof {
            assert(a == 7 * (a / 7) + a % 7);
            assert(days == 7 * (-(a / 7) - 1) + (6 - a % 7));
        }
        6 - a % 7
    };
    proof {
        assert(m == days % 7);
    }
    if m + 4 >= 7 {
        m - 3
    } else {
        m + 4
    }
}

// ---------------------------------------------------------------------------
// chrono
// ---------------------------------------------------------------------------
/// Whether `chrono::DateTime::from_timestamp(secs, 0)` gives a date.
pub uninterp spec fn utc_timestamp_valid(secs: i64) -> bool;

/// `chrono::DateTime::format(fmt)` of the UTC date at `secs`, as text.
pub uninterp spec fn utc_format(secs: i64, fmt: Seq<char>) -> Seq<char>;

/// `chrono::DateTime::from_timestamp(secs, 0)`. Claimed: it gives a date
/// exactly when `utc_timestamp_valid(secs)`.
#[verifier::external_body]
fn timestamp_valid(secs: i64) -> (r: bool)
    ensures
        r == utc_timestamp_valid(secs),
{
    chrono::DateTime::from_timestamp(secs, 0).is_some()
}

/// The formats that period keys use.
pub open spec fn key_format(fmt: Seq<char>) -> bool {
    fmt == "%Y-%m-%d"@ || fmt == "%Y-%m-%d %H"@ || fmt == "%Y-%m"@ || fmt == "%Y"@
}

/// `chrono::DateTime::from_timestamp(secs, 0)`, then `format(fmt)` and
/// `to_string`. Claimed: the text is `utc_format(secs, fmt)`. Called only
/// with the fixed formats of `key_format`, which chrono renders without error.
#[verifier::external_body]
fn format_utc(secs: i64, fmt: &str) -> (r: String)
    requires
        utc_timestamp_valid(secs),
        key_format(fmt@),
    ensures
        r@ == utc_format(secs, fmt@),
{
    match chrono::DateTime::from_timestamp(secs, 0) {
        Some(t) => t.format(fmt).to_string(),
        None => String::new(),
    }
}

/// Day `doe` (0 to 146096) of a 400-year cycle of the Gregorian calendar
/// whose years start on 1 March: the day within its year, from 0 (1 March)
/// to 365.
pub open spec fn day_of_march_year(doe: int) -> int {
    let yoe = (doe - doe / 1460 + doe / 36524 - doe / 146096) / 365;
    doe - (365 * yoe + yoe / 4 - yoe / 100)
}

/// The month, 1 (January) to 12, of the proleptic Gregorian calendar on the
/// day `days` after 1970-01-01 (day 719468 of a cycle that starts on
/// 0000-03-01).
pub open spec fn month_of_day(days: int) -> int {
    month_of_march_day(day_of_march_year((days + 719468) % 146097))
}

/// The month, 1 to 12, of day `doy` of a year that starts on 1 March.
pub open spec fn month_of_march_day(doy: int) -> int {
    let mp = (5 * doy + 2) / 153;
    if mp < 10 {
        mp + 3
    } else {
        mp - 9
    }
}

/// The month (UTC) at `secs` seconds after the epoch.
pub open spec fn month_of(secs: int) -> int {
    month_of_day(secs / 86400)
}

proof fn lemma_march_year_bounds(doe: int)
    requires
        0 <= doe < 146097,
    ensures
        0 <= day_of_march_year(doe) <= 365,
{
}

/// The month (UTC) at `secs`, 1 to 12; as chrono's `Datelike::month`.
fn month_at(secs: i64) -> (r: u32)
    ensures
        r == month_of(secs as int),
        1 <= r <= 12,
{
    let (days, _) = split_days(secs);
    let z: i64 = days + 719468;
    let doe: i64 = if z >= 0 {
        z % 146097
    } else {
        let a: i64 = -(z + 1);
        proof {
            assert(a == 146097 * (a / 146097) + a % 146097);
            assert(z == 146097 * (-(a / 146097) - 1) + (146096 - a % 146097));
        }
        146096 - a % 146097
    };
    proof {
        assert(doe == z % 146097);
        lemma_march_year_bounds(doe as int);
    }
    let yoe: i64 = (doe - doe / 1460 + doe / 36524 - doe / 146096) / 365;
    let doy: i64 = doe - (365 * yoe + yoe / 4 - yoe / 100);
    let mp: i64 = (5 * doy + 2) / 153;
    if mp < 10 {
        (mp + 3) as u32
    } else {
        (mp - 9) as u32
    }
}

// ---------------------------------------------------------------------------
// Period keys
// ---------------------------------------------------------------------------
/// The decimal digit `d`.
pub open spec fn decimal_digit(d: int) -> char {
    seq!['0', '1', '2', '3', '4', '5', '6', '7', '8', '9'][d]
}

/// `n` written with two digits.
pub open spec fn two_digits(n: int) -> Seq<char> {
    seq![decimal_digit(n / 10), decimal_digit(n % 10)]
}

/// The hour that begins the `x`-hour period holding `secs`; `x` is read as
/// a `u32`, its low 32 bits.
pub open spec fn rounded_hour(x: i64, secs: i64) -> int {
    hour_of(secs as int) / ((x as u32) as int) * ((x as u32) as int)
}

/// The key of the period of `g` that holds `secs`, as chrono's formats
/// write it ("%Y-%m-%d", "%Y-%m-%d %H", "%Y-%m"): the hour and the month
/// written from the time itself, the date and the year by chrono. Commits
/// with equal keys fall in the same period, and keys sort as their periods
/// do.
pub open spec fn period_key(g: Granularity, secs: i64) -> Seq<char> {
    match g {
        Granularity::Daily => utc_format(secs, "%Y-%m-%d"@),
        Granularity::Hourly => utc_format(secs, "%Y-%m-%d"@) + seq![' '] + two_digits(
            hour_of(secs as int),
        ),
        Granularity::EveryXHours(x) => utc_format(secs, "%Y-%m-%d"@) + seq![' '] + two_digits(
            rounded_hour(x, secs),
        ),
        Granularity::Weekly => utc_format(week_start(secs as int) as i64, "%Y-%m-%d"@),
        Granularity::Monthly => utc_format(secs, "%Y"@) + seq!['-'] + two_digits(
            month_of(secs as int),
        ),
        Granularity::Infinite => Seq::empty(),
    }
}

/// The period key of `secs` can be computed: the date at the start of the
/// week exists, and a period of hours is not zero hours long.
pub open spec fn key_computable(g: Granularity, secs: i64) -> bool {
    match g {
        Granularity::Weekly => i64::MIN <= week_start(secs as int) && utc_timestamp_valid(
            week_start(secs as int) as i64,
        ),
        Granularity::EveryXHours(x) => (x as u32) != 0,
        _ => true,
    }
}

/// The digit `d` as a character.
fn digit_char(d: u32) -> (r: char)
    requires
        d < 10,
    ensures
        r == decimal_digit(d as int),
{
    let digits: [char; 10] = ['0', '1', '2', '3', '4', '5', '6', '7', '8', '9'];
    proof {
        assert(digits@ =~= seq!['0', '1', '2', '3', '4', '5', '6', '7', '8', '9']);
    }
    digits[d as usize]
}

/// The key of the period of `g` that holds `secs`.
fn period_key_of(g: Granularity, secs: i64) -> (r: String)
    requires
        !(g is Infinite),
        utc_timestamp_valid(secs),
        key_computable(g, secs),
    ensures
        r@ == period_key(g, secs),
{
    match g {
        Granularity::Daily => format_utc(secs, "%Y-%m-%d"),
        Granularity::Hourly => {
            let hour = hour_at(secs);
            let mut key = format_utc(secs, "%Y-%m-%d");
            push_char(&mut key, ' ');
            push_char(&mut key, digit_char(hour / 10));
            push_char(&mut key, digit_char(hour % 10));
            proof {
                assert(key@ =~= period_key(g, secs));
            }
            key
        },
        Granularity::EveryXHours(x) => {
            #[verifier::truncate]
            let every: u32 = x as u32;
            let hour = hour_at(secs);
            let periods: u32 = hour / every;
            proof {
                assert(periods * every <= hour) by (nonlinear_arith)
                    requires
                        periods == hour / every,
                        every > 0,
                ;
            }
            let rounded: u32 = periods * every;
            let mut key = format_utc(secs, "%Y-%m-%d");
            push_char(&mut key, ' ');
            push_char(&mut key, digit_char(rounded / 10));
            push_char(&mut key, digit_char(rounded % 10));
            proof {
                assert(key@ =~= period_key(g, secs));
            }
            key
        },
        Granularity::Weekly => {
            let back: i64 = days_since_sunday(secs) * SECONDS_PER_DAY;
            format_utc(secs - back, "%Y-%m-%d")
        },
        Granularity::Monthly => {
            let month = month_at(secs);
            let mut key = format_utc(secs, "%Y");
            push_char(&mut key, '-');
            push_char(&mut key, digit_char(month / 10));
            push_char(&mut key, digit_char(month % 10));
            proof {
                assert(key@ =~= period_key(g, secs));
            }
            key
        },
        Granularity::Infinite => String::new(),
    }
}

// ---------------------------------------------------------------------------
// What the periods are
// ---------------------------------------------------------------------------
proof fn lemma_decimal_digit_code(d: int)
    requires
        0 <= d < 10,
    ensures
        decimal_digit(d) as int == 48 + d,
{
    let ds = seq!['0', '1', '2', '3', '4', '5', '6', '7', '8', '9'];
    if d == 0 {
        assert(ds[0] == '0');
    } else if d == 1 {
        assert(ds[1] == '1');
    } else if d == 2 {
        assert(ds[2] == '2');
    } else if d == 3 {
        assert(ds[3] == '3');
    } else if d == 4 {
        assert(ds[4] == '4');
    } else if d == 5 {
        assert(ds[5] == '5');
    } else if d == 6 {
        assert(ds[6] == '6');
    } else if d == 7 {
        assert(ds[7] == '7');
    } else if d == 8 {
        assert(ds[8] == '8');
    } else {
        assert(ds[9] == '9');
    }
}

/// Two numbers below 100 written alike with two digits are equal.
proof fn lemma_two_digits_injective(m: int, n: int)
    requires
        0 <= m < 100,
        0 <= n < 100,
        two_digits(m) == two_digits(n),
    ensures
        m == n,
{
    assert(two_digits(m)[0] == two_digits(n)[0]);
    assert(two_digits(m)[1] == two_digits(n)[1]);
    lemma_decimal_digit_code(m / 10);
    lemma_decimal_digit_code(n / 10);
    lemma_decimal_digit_code(m % 10);
    lemma_decimal_digit_code(n % 10);
}

/// A text, a separator and two characters split back into their parts.
proof fn lemma_split_key(a1: Seq<char>, a2: Seq<char>, c: char, t1: Seq<char>, t2: Seq<char>)
    requires
        t1.len() == 2,
        t2.len() == 2,
        a1 + seq![c] + t1 == a2 + seq![c] + t2,
    ensures
        a1 == a2,
        t1 == t2,
{
    let k = a1 + seq![c] + t1;
    let l = a2 + seq![c] + t2;
    assert(k.len() == l.len());
    assert(a1 =~= k.subrange(0, a1.len() as int));
    assert(a2 =~= l.subrange(0, a2.len() as int));
    assert(t1 =~= k.subrange(k.len() - 2, k.len() as int));
    assert(t2 =~= l.subrange(l.len() - 2, l.len() as int));
}

/// Hourly periods are the hours of the UTC day: two moments share an
/// hourly period exactly when they fall on the same UTC date (share a daily
/// period) and in the same hour of that day, so moments an hour apart are
/// in different periods.
pub proof fn lemma_hourly_periods(a: i64, b: i64)
    ensures
        period_key(Granularity::Hourly, a) == period_key(Granularity::Hourly, b) <==> (period_key(
            Granularity::Daily,
            a,
        ) == period_key(Granularity::Daily, b) && hour_of(a as int) == hour_of(b as int)),
{
    if period_key(Granularity::Hourly, a) == period_key(Granularity::Hourly, b) {
        lemma_split_key(
            utc_format(a, "%Y-%m-%d"@),
            utc_format(b, "%Y-%m-%d"@),
            ' ',
            two_digits(hour_of(a as int)),
            two_digits(hour_of(b as int)),
        );
        lemma_two_digits_injective(hour_of(a as int), hour_of(b as int));
    }
}

/// The hour of the day numbers the hours of a UTC day: two moments of one
/// day (`secs / 86400`) have the same hour of the day exactly when they lie
/// in the same hour since the epoch (`secs / 3600`), and that hour is 0 to
/// 23.
pub proof fn lemma_hours_of_a_day(a: int, b: int)
    ensures
        0 <= hour_of(a) < 24,
        a / 86400 == b / 86400 ==> (hour_of(a) == hour_of(b) <==> a / 3600 == b / 3600),
        a / 3600 == b / 3600 ==> a / 86400 == b / 86400,
{
}

/// The month is one of the twelve.
pub proof fn lemma_month_in_year(days: int)
    ensures
        1 <= month_of_day(days) <= 12,
{
    lemma_march_year_bounds((days + 719468) % 146097);
}

/// Monthly periods are the calendar months: two moments share a monthly
/// period exactly when they fall in the same UTC year (as chrono writes it)
/// and in the same month of it, so moments in different months of one year
/// are in different periods.
pub proof fn lemma_monthly_periods(a: i64, b: i64)
    ensures
        period_key(Granularity::Monthly, a) == period_key(Granularity::Monthly, b) <==> (
        utc_format(a, "%Y"@) == utc_format(b, "%Y"@) && month_of(a as int) == month_of(b as int)),
{
    if period_key(Granularity::Monthly, a) == period_key(Granularity::Monthly, b) {
        lemma_split_key(
            utc_format(a, "%Y"@),
            utc_format(b, "%Y"@),
            '-',
            two_digits(month_of(a as int)),
            two_digits(month_of(b as int)),
        );
        lemma_month_in_year(a as int / 86400);
        lemma_month_in_year(b as int / 86400);
        lemma_two_digits_injective(month_of(a as int), month_of(b as int));
    }
}

/// The day of its March-based year of the day `days` after 1970-01-01.
pub open spec fn march_day_at(days: int) -> int {
    day_of_march_year((days + 719468) % 146097)
}

/// From one day to the next, the day of the March-based year counts up by
/// one, or starts again at 0 after the year's last day (364 or 365).
proof fn lemma_march_day_at_step(days: int)
    ensures
        0 <= march_day_at(days) <= 365,
        march_day_at(days + 1) == march_day_at(days) + 1 || (march_day_at(days + 1) == 0
            && march_day_at(days) >= 364),
{
    let doe = (days + 719468) % 146097;
    let next = (days + 1 + 719468) % 146097;
    assert(next == if doe < 146096 {
        doe + 1
    } else {
        0
    }) by {
        assert(0 <= doe < 146097);
    }
    lemma_march_year_bounds(doe);
    lemma_march_year_bounds(next);
    if doe < 146096 {
        lemma_march_day_step(doe);
    } else {
        assert(day_of_march_year(146096) == 365);
        assert(day_of_march_year(0) == 0);
    }
}

/// Months follow one another: the day after any day is in the same month
/// or in the next one (January after December).
pub proof fn lemma_months_in_order(days: int)
    ensures
        month_of_day(days + 1) == month_of_day(days) || month_of_day(days + 1) == month_of_day(days)
            % 12 + 1,
{
    lemma_march_day_at_step(days);
    lemma_month_of_march_step(march_day_at(days), march_day_at(days + 1));
}

proof fn lemma_month_of_march_step(x: int, y: int)
    requires
        0 <= x <= 365,
        y == x + 1 || (y == 0 && x >= 364),
    ensures
        month_of_march_day(y) == month_of_march_day(x) || month_of_march_day(y) == month_of_march_day(x)
            % 12 + 1,
{
}

/// Over `j` days (at most 31) the day of the March-based year either counts
/// up by `j`, or the year ended on the way and it counted up again from 0.
proof fn lemma_march_days_ahead(days: int, j: int)
    requires
        0 <= j <= 31,
    ensures
        0 <= march_day_at(days + j) <= 365,
        march_day_at(days + j) == march_day_at(days) + j || (march_day_at(days + j) < j
            && march_day_at(days) + j - march_day_at(days + j) >= 365),
    decreases j,
{
    lemma_march_day_at_step(days + j);
    if j > 0 {
        lemma_march_days_ahead(days, j - 1);
        lemma_march_day_at_step(days + (j - 1));
        assert(days + (j - 1) + 1 == days + j);
    }
}

/// Every month lasts at least 28 days: from the first day of a month, the
/// next 27 days are in it too.
pub proof fn lemma_months_are_long(days: int)
    requires
        month_of_day(days - 1) != month_of_day(days),
    ensures
        forall|k: int| 0 <= k <= 27 ==> #[trigger] month_of_day(days + k) == month_of_day(days),
{
    lemma_march_day_at_step(days - 1);
    assert(days - 1 + 1 == days);
    assert(month_of_day(days - 1) == month_of_march_day(march_day_at(days - 1)));
    assert(month_of_day(days) == month_of_march_day(march_day_at(days)));
    let s = march_day_at(days);
    assert((5 * s + 2) % 153 < 5);
    assert forall|k: int| 0 <= k <= 27 implies #[trigger] month_of_day(days + k) == month_of_day(days) by {
        lemma_march_days_ahead(days, k);
        assert(month_of_day(days + k) == month_of_march_day(march_day_at(days + k)));
    }
}

/// The epoch, 1970-01-01, is in January; the day before it in December.
pub proof fn lemma_epoch_months()
    ensures
        month_of_day(0) == 1,
        month_of_day(-1) == 12,
{
    assert((0int + 719468) % 146097 == 135080);
    assert((-1int + 719468) % 146097 == 135079);
    assert((135080int - 135080int / 1460 + 135080int / 36524 - 135080int / 146096) / 365 == 369);
    assert((135079int - 135079int / 1460 + 135079int / 36524 - 135079int / 146096) / 365 == 369);
    assert(day_of_march_year(135080) == 306);
    assert(day_of_march_year(135079) == 305);
    assert(month_of_march_day(306) == 1);
    assert(month_of_march_day(305) == 12);
}

/// No month lasts longer than 31 days: 31 days after any day, the month
/// has changed.
pub proof fn lemma_months_are_short(days: int)
    ensures
        month_of_day(days + 31) != month_of_day(days),
{
    lemma_march_day_at_step(days);
    lemma_march_days_ahead(days, 31);
    assert(month_of_day(days) == month_of_march_day(march_day_at(days)));
    assert(month_of_day(days + 31) == month_of_march_day(march_day_at(days + 31)));
}

#[verifier::rlimit(60)]
#[verifier::spinoff_prover]
proof fn lemma_march_day_step(doe: int)
    requires
        0 <= doe < 146096,
    ensures
        day_of_march_year(doe + 1) == day_of_march_year(doe) + 1 || (day_of_march_year(doe + 1) == 0
            && day_of_march_year(doe) >= 364),
{
}

// ---------------------------------------------------------------------------
// Selecting commits
// ---------------------------------------------------------------------------
/// A point in time: seconds after the Unix epoch and the nanoseconds after
/// that second.
#[derive(Debug, Clone, Copy, PartialEq, Eq, Structural)]
pub struct Moment {
    pub secs: i64,
    pub nanos: u32,
}

/// A commit made at `t` (whole seconds) is earlier than `start`.
pub open spec fn before_start(t: i64, start: Option<Moment>) -> bool {
    match start {
        Some(s) => t < s.secs || (t == s.secs && s.nanos > 0),
        None => false,
    }
}

/// A commit made at `t` is later than `end`.
pub open spec fn after_end(t: i64, end: Option<Moment>) -> bool {
    match end {
        Some(e) => t > e.secs,
        None => false,
    }
}

/// The walk, newest commit first, reaches commit `i`: no earlier commit was
/// before the start.
pub open spec fn reached(times: Seq<i64>, start: Option<Moment>, i: int) -> bool {
    0 <= i < times.len() && forall|j: int| 0 <= j < i ==> !before_start(#[trigger] times[j], start)
}

/// Commit `i` lies in the range: the walk reaches it, it is not before the
/// start and not after the end.
pub open spec fn in_range(times: Seq<i64>, start: Option<Moment>, end: Option<Moment>, i: int) -> bool {
    reached(times, start, i) && !before_start(times[i], start) && !after_end(times[i], end)
}

/// The commits in range, in walk order.
pub open spec fn in_range_prefix(
    times: Seq<i64>,
    start: Option<Moment>,
    end: Option<Moment>,
    n: int,
) -> Seq<int>
    decreases n,
{
    if n <= 0 {
        Seq::empty()
    } else if in_range(times, start, end, n - 1) {
        in_range_prefix(times, start, end, n - 1).push(n - 1)
    } else {
        in_range_prefix(times, start, end, n - 1)
    }
}

/// What the selection asks of the commit times: every commit the walk
/// reaches has a date, and every commit in range has a period key.
pub open spec fn selectable(
    times: Seq<i64>,
    g: Granularity,
    start: Option<Moment>,
    end: Option<Moment>,
) -> bool {
    &&& forall|i: int| reached(times, start, i) ==> utc_timestamp_valid(#[trigger] times[i])
    &&& forall|i: int|
        in_range(times, start, end, i) && !(g is Infinite) ==> key_computable(g, #[trigger] times[i])
}

/// `r` is the selection of `g` among the commits at `times`: with
/// `Infinite`, every commit in range in walk order; otherwise, for each
/// period that holds a commit in range, the first such commit of the walk,
/// ordered by period.
pub open spec fn selects(
    r: Seq<usize>,
    times: Seq<i64>,
    g: Granularity,
    start: Option<Moment>,
    end: Option<Moment>,
) -> bool {
    if g == Granularity::Infinite {
        r.map_values(|i: usize| i as int) == in_range_prefix(times, start, end, times.len() as int)
    } else {
        &&& forall|k: int|
            0 <= k < r.len() ==> in_range(times, start, end, #[trigger] r[k] as int)
        &&& forall|k: int, j: int|
            #![trigger r[k], in_range(times, start, end, j)]
            0 <= k < r.len() && 0 <= j < r[k] && in_range(times, start, end, j) ==> period_key(
                g,
                times[j],
            ) != period_key(g, times[r[k] as int])
        &&& forall|k: int, l: int|
            0 <= k < l < r.len() ==> str_lt(
                period_key(g, times[#[trigger] r[k] as int]),
                period_key(g, times[#[trigger] r[l] as int]),
            )
        &&& forall|i: int|
            in_range(times, start, end, i) ==> exists|k: int|
                0 <= k < r.len() && period_key(g, times[#[trigger] r[k] as int]) == period_key(
                    g,
                    times[i],
                )
    }
}

/// A periodic selection (every granularity but `Infinite`) takes at most one
/// commit per period: two selected commits lie in different periods, and
/// the selection never lists a commit twice.
pub proof fn lemma_one_commit_per_period(
    r: Seq<usize>,
    times: Seq<i64>,
    g: Granularity,
    start: Option<Moment>,
    end: Option<Moment>,
    k: int,
    l: int,
)
    requires
        selects(r, times, g, start, end),
        g != Granularity::Infinite,
        0 <= k < r.len(),
        0 <= l < r.len(),
        k != l,
    ensures
        period_key(g, times[r[k] as int]) != period_key(g, times[r[l] as int]),
        r[k] != r[l],
{
    let a = period_key(g, times[r[k] as int]);
    let b = period_key(g, times[r[l] as int]);
    if k < l {
        assert(str_lt(a, b));
    } else {
        assert(str_lt(b, a));
    }
    lemma_str_lt_irreflexive(a);
}

/// A periodic selection lists its periods in increasing order: a commit
/// selected before another has the smaller period key.
pub proof fn lemma_periods_increase(
    r: Seq<usize>,
    times: Seq<i64>,
    g: Granularity,
    start: Option<Moment>,
    end: Option<Moment>,
    k: int,
    l: int,
)
    requires
        selects(r, times, g, start, end),
        g != Granularity::Infinite,
        0 <= k < l < r.len(),
    ensures
        str_lt(period_key(g, times[r[k] as int]), period_key(g, times[r[l] as int])),
        !str_lt(period_key(g, times[r[l] as int]), period_key(g, times[r[k] as int])),
{
    let a = period_key(g, times[r[k] as int]);
    let b = period_key(g, times[r[l] as int]);
    assert(str_lt(a, b));
    if str_lt(b, a) {
        lemma_str_lt_transitive(a, b, a);
        lemma_str_lt_irreflexive(a);
    }
}

/// The key of each entry.
pub open spec fn entry_keys(entries: Seq<(String, usize)>) -> Seq<Seq<char>> {
    entries.map_values(|e: (String, usize)| e.0@)
}

/// The keys are strictly increasing.
pub open spec fn keys_sorted(keys: Seq<Seq<char>>) -> bool {
    forall|i: int, j: int| 0 <= i < j < keys.len() ==> str_lt(#[trigger] keys[i], #[trigger] keys[j])
}

/// The first position whose key does not sort before `key`.
fn search_key(entries: &Vec<(String, usize)>, key: &Vec<char>) -> (p: usize)
    requires
        keys_sorted(entry_keys(entries@)),
    ensures
        p <= entries@.len(),
        forall|k: int| 0 <= k < p ==> str_lt(#[trigger] entry_keys(entries@)[k], key@),
        forall|k: int| p <= k < entries@.len() ==> !str_lt(#[trigger] entry_keys(entries@)[k], key@),
{
    let ghost ks = entry_keys(entries@);
    let mut lo: usize = 0;
    let mut hi: usize = entries.len();
    while lo < hi
        invariant
            ks == entry_keys(entries@),
            keys_sorted(ks),
            lo <= hi <= entries@.len(),
            forall|k: int| 0 <= k < lo ==> str_lt(#[trigger] ks[k], key@),
            forall|k: int| hi <= k < entries@.len() ==> !str_lt(#[trigger] ks[k], key@),
        decreases hi - lo,
    {
        let mid = lo + (hi - lo) / 2;
        let mk = chars_of(entries[mid].0.as_str());
        if chars_less(mk.as_slice(), key.as_slice()) {
            proof {
                assert forall|k: int| 0 <= k <= mid implies str_lt(#[trigger] ks[k], key@) by {
                    if k < mid {
                        crate::text::lemma_str_lt_transitive(ks[k], ks[mid as int], key@);
                    }
                }
            }
            lo = mid + 1;
        } else {
            proof {
                assert forall|k: int| mid <= k < entries@.len() implies !str_lt(
                    #[trigger] ks[k],
                    key@,
                ) by {
                    if k > mid && str_lt(ks[k], key@) {
                        crate::text::lemma_str_lt_transitive(ks[mid as int], ks[k], key@);
                    }
                }
            }
            hi = mid;
        }
    }
    lo
}

proof fn lemma_insert_contains<A>(s: Seq<A>, p: int, x: A)
    requires
        0 <= p <= s.len(),
    ensures
        forall|y: A| s.insert(p, x).contains(y) <==> (s.contains(y) || y == x),
{
    assert forall|y: A| s.insert(p, x).contains(y) <==> (s.contains(y) || y == x) by {
        let t = s.insert(p, x);
        if t.contains(y) {
            let i = choose|i: int| 0 <= i < t.len() && t[i] == y;
            if i < p {
                assert(s[i] == y);
            } else if i > p {
                assert(s[i - 1] == y);
            }
        }
        if s.contains(y) {
            let i = choose|i: int| 0 <= i < s.len() && s[i] == y;
            if i < p {
                assert(t[i] == y);
            } else {
                assert(t[i + 1] == y);
            }
        }
        if y == x {
            assert(t[p] == y);
        }
    }
}

/// `r` is the selection among the commits at `times` whose periods are
/// `keys`: unless `periodic`, every commit in range in walk order; otherwise,
/// for each period that holds a commit in range, the first such commit of
/// the walk, ordered by period key.
pub open spec fn selects_by(
    r: Seq<usize>,
    times: Seq<i64>,
    keys: Seq<Seq<char>>,
    periodic: bool,
    start: Option<Moment>,
    end: Option<Moment>,
) -> bool {
    if !periodic {
        r.map_values(|i: usize| i as int) == in_range_prefix(times, start, end, times.len() as int)
    } else {
        &&& forall|k: int|
            0 <= k < r.len() ==> in_range(times, start, end, #[trigger] r[k] as int)
        &&& forall|k: int, j: int|
            #![trigger r[k], in_range(times, start, end, j)]
            0 <= k < r.len() && 0 <= j < r[k] && in_range(times, start, end, j) ==> keys[j]
                != keys[r[k] as int]
        &&& forall|k: int, l: int|
            0 <= k < l < r.len() ==> str_lt(keys[#[trigger] r[k] as int], keys[#[trigger] r[l] as int])
        &&& forall|i: int|
            in_range(times, start, end, i) ==> exists|k: int|
                0 <= k < r.len() && keys[#[trigger] r[k] as int] == keys[i]
    }
}

/// The commits selected among commits made at `times` (seconds after the
/// epoch, newest first as the walk of first parents yields them), limited
/// to `start ..= end`, where `keys` gives the period of each commit. The walk
/// stops at the first commit before `start`; commits after `end` are
/// skipped. Unless `periodic`, every commit in range is selected, in walk
/// order; otherwise, of each period that holds a commit in range, the first
/// such commit of the walk, ordered by period key. Returns the positions in
/// `times` of the selected commits.
pub fn select_by_keys(
    times: &Vec<i64>,
    keys: &Vec<String>,
    periodic: bool,
    start: Option<Moment>,
    end: Option<Moment>,
) -> (r: Vec<usize>)
    requires
        keys@.len() == times@.len(),
    ensures
        selects_by(r@, times@, views_of(keys@), periodic, start, end),
{
    let ghost ts = times@;
    let ghost kv = views_of(keys@);
    let n = times.len();
    let mut all: Vec<usize> = Vec::new();
    let mut entries: Vec<(String, usize)> = Vec::new();
    let mut i: usize = 0;
    let mut stopped = false;
    while i < n && !stopped
        invariant
            ts == times@,
            kv == views_of(keys@),
            n == ts.len(),
            kv.len() == n,
            i <= n,
            forall|j: int| 0 <= j < i ==> !before_start(#[trigger] ts[j], start),
            stopped ==> i < n && before_start(ts[i as int], start),
            !periodic ==> all@.map_values(|x: usize| x as int) == in_range_prefix(
                ts,
                start,
                end,
                i as int,
            ),
            keys_sorted(entry_keys(entries@)),
            forall|k: int|
                0 <= k < entries@.len() ==> {
                    let e = #[trigger] entries@[k];
                    &&& e.1 < i
                    &&& in_range(ts, start, end, e.1 as int)
                    &&& periodic ==> e.0@ == kv[e.1 as int]
                    &&& forall|j: int|
                        0 <= j < e.1 && in_range(ts, start, end, j) ==> kv[j]
                            != e.0@
                },
            periodic ==> forall|j: int|
                0 <= j < i && in_range(ts, start, end, j) ==> entry_keys(entries@).contains(
                    #[trigger] kv[j],
                ),
        decreases (n - i) as int * 2 + if stopped {
            0int
        } else {
            1int
        },
    {
        let t = times[i];
        proof {
            assert(reached(ts, start, i as int));
        }
        let before = match start {
            Some(s) => t < s.secs || (t == s.secs && s.nanos > 0),
            None => false,
        };
        if before {
            stopped = true;
        } else {
            let after = match end {
                Some(e) => t > e.secs,
                None => false,
            };
            proof {
                assert(in_range(ts, start, end, i as int) == !after);
            }
            if !after {
                if !periodic {
                    let ghost prev = all@.map_values(|x: usize| x as int);
                    all.push(i);
                    proof {
                        assert(all@.map_values(|x: usize| x as int) =~= prev.push(i as int));
                    }
                } else {
                    let key = keys[i].clone();
                    proof {
                        assert(key@ == kv[i as int]);
                    }
                    let kc = chars_of(key.as_str());
                    let p = search_key(&entries, &kc);
                    let ghost ks = entry_keys(entries@);
                    let mut found = false;
                    if p < entries.len() {
                        let pk = chars_of(entries[p].0.as_str());
                        found = chars_eq(pk.as_slice(), kc.as_slice());
                    }
                    proof {
                        if !found {
                            assert forall|y: Seq<char>| ks.contains(y) implies y != key@ by {
                                let k = choose|k: int| 0 <= k < ks.len() && ks[k] == y;
                                if k < p {
                                    crate::text::lemma_str_lt_irreflexive(key@);
                                } else if k > p {
                                    assert(!str_lt(ks[k], key@));
                                    crate::text::lemma_str_lt_total(ks[p as int], key@);
                                    crate::text::lemma_str_lt_transitive(key@, ks[p as int], ks[k]);
                                    crate::text::lemma_str_lt_irreflexive(ks[k]);
                                }
                            }
                        } else {
                            assert(ks[p as int] == key@);
                        }
                    }
                    if !found {
                        let ghost old_entries = entries@;
                        entries.insert(p, (key, i));
                        proof {
                            let nks = entry_keys(entries@);
                            assert(nks =~= ks.insert(p as int, key@));
                            lemma_insert_contains(ks, p as int, key@);
                            if p < ks.len() {
                                crate::text::lemma_str_lt_total(ks[p as int], key@);
                            }
                            assert forall|a: int, b: int| 0 <= a < b < nks.len() implies str_lt(
                                #[trigger] nks[a],
                                #[trigger] nks[b],
                            ) by {
                                if b < p {
                                    assert(str_lt(ks[a], ks[b]));
                                } else if b == p {
                                } else if a == p {
                                    if b - 1 > p {
                                        assert(str_lt(ks[p as int], ks[b - 1]));
                                        crate::text::lemma_str_lt_transitive(
                                            key@,
                                            ks[p as int],
                                            ks[b - 1],
                                        );
                                    }
                                } else if a < p {
                                    if b - 1 > p {
                                        assert(str_lt(ks[p as int], ks[b - 1]));
                                        crate::text::lemma_str_lt_transitive(
                                            key@,
                                            ks[p as int],
                                            ks[b - 1],
                                        );
                                    }
                                    crate::text::lemma_str_lt_transitive(ks[a], key@, ks[b - 1]);
                                } else {
                                    assert(str_lt(ks[a - 1], ks[b - 1]));
                                }
                            }
                            assert forall|k: int| 0 <= k < entries@.len() implies {
                                let e = #[trigger] entries@[k];
                                &&& e.1 < i + 1
                                &&& in_range(ts, start, end, e.1 as int)
                                &&& periodic ==> e.0@ == kv[e.1 as int]
                                &&& forall|j: int|
                                    0 <= j < e.1 && in_range(ts, start, end, j) ==> kv[j] != e.0@
                            } by {
                                if k < p {
                                    assert(entries@[k] == old_entries[k]);
                                } else if k > p {
                                    assert(entries@[k] == old_entries[k - 1]);
                                } else {
                                    assert forall|j: int|
                                        0 <= j < i && in_range(ts, start, end, j) implies kv[j] != key@ by {
                                        assert(ks.contains(kv[j]));
                                    }
                                }
                            }
                        }
                    }
                    proof {
                        let nks = entry_keys(entries@);
                        if found {
                            assert(p < ks.len());
                            assert(nks == ks);
                            assert(nks[p as int] == key@);
                            assert(nks.contains(key@));
                        } else {
                            lemma_insert_contains(ks, p as int, key@);
                            assert(nks == ks.insert(p as int, key@));
                            assert(nks[p as int] == key@);
                        }
                        assert forall|j: int|
                            0 <= j < i + 1 && in_range(ts, start, end, j) implies nks.contains(
                            #[trigger] kv[j],
                        ) by {
                            if j < i {
                                assert(ks.contains(kv[j]));
                            }
                        }
                    }
                }
            }
        }
        if !stopped {
            proof {
                assert(in_range_prefix(ts, start, end, i + 1) == if in_range(
                    ts,
                    start,
                    end,
                    i as int,
                ) {
                    in_range_prefix(ts, start, end, i as int).push(i as int)
                } else {
                    in_range_prefix(ts, start, end, i as int)
                });
            }
            i += 1;
        }
    }
    proof {
        assert forall|j: int| i <= j < n implies !in_range(ts, start, end, j) by {
            if stopped && j > i {
                assert(before_start(ts[i as int], start));
            }
        }
        lemma_in_range_prefix_stable(ts, start, end, i as int);
    }
    if !periodic {
        all
    } else {
        let mut out: Vec<usize> = Vec::new();
        let mut k: usize = 0;
        while k < entries.len()
            invariant
                out@.len() == k,
                k <= entries@.len(),
                forall|m: int| 0 <= m < k ==> out@[m] == (#[trigger] entries@[m]).1,
            decreases entries.len() - k,
        {
            out.push(entries[k].1);
            k += 1;
        }
        proof {
            let ks = entry_keys(entries@);
            assert forall|a: int, b: int| 0 <= a < b < out@.len() implies str_lt(
                kv[#[trigger] out@[a] as int],
                kv[#[trigger] out@[b] as int],
            ) by {
                assert(out@[a] == entries@[a].1);
                assert(out@[b] == entries@[b].1);
                assert(str_lt(ks[a], ks[b]));
            }
            assert forall|j: int| in_range(ts, start, end, j) implies exists|m: int|
                0 <= m < out@.len() && kv[#[trigger] out@[m] as int] == kv[j] by {
                assert(j < i);
                assert(ks.contains(kv[j]));
                let m = choose|m: int| 0 <= m < ks.len() && ks[m] == kv[j];
                assert(out@[m] == entries@[m].1);
            }
            assert forall|m: int| 0 <= m < out@.len() implies in_range(
                ts,
                start,
                end,
                #[trigger] out@[m] as int,
            ) by {
                assert(out@[m] == entries@[m].1);
            }
            assert forall|m: int, j: int|
                #![trigger out@[m], in_range(ts, start, end, j)]
                0 <= m < out@.len() && 0 <= j < out@[m] && in_range(ts, start, end, j) implies kv[j] != kv[out@[m] as int] by {
                assert(out@[m] == entries@[m].1);
            }
        }
        out
    }
}

/// The commits that the granularity `g` selects among commits made at
/// `times` (seconds after the epoch, newest first as the walk of first
/// parents yields them), limited to `start ..= end`: `select_by_keys` with
/// each commit's period key. Returns the positions in `times` of the
/// selected commits.
pub fn select_commits(
    times: &Vec<i64>,
    g: Granularity,
    start: Option<Moment>,
    end: Option<Moment>,
) -> (r: Vec<usize>)
    requires
        selectable(times@, g, start, end),
    ensures
        selects(r@, times@, g, start, end),
{
    let ghost ts = times@;
    let n = times.len();
    let periodic = g != Granularity::Infinite;
    let mut keys: Vec<String> = Vec::new();
    let mut stopped = false;
    let mut i: usize = 0;
    while i < n
        invariant
            ts == times@,
            n == ts.len(),
            i <= n,
            periodic == !(g is Infinite),
            selectable(ts, g, start, end),
            keys@.len() == i,
            stopped <==> exists|k: int| 0 <= k < i && before_start(#[trigger] ts[k], start),
            forall|j: int|
                0 <= j < i && in_range(ts, start, end, j) && periodic ==> (#[trigger] keys@[j])@
                    == period_key(g, ts[j]),
        decreases n - i,
    {
        let t = times[i];
        let before = match start {
            Some(s) => t < s.secs || (t == s.secs && s.nanos > 0),
            None => false,
        };
        let after = match end {
            Some(e) => t > e.secs,
            None => false,
        };
        proof {
            if !stopped {
                assert(reached(ts, start, i as int));
            } else {
                let k = choose|k: int| 0 <= k < i && before_start(ts[k], start);
                assert(!reached(ts, start, i as int));
            }
        }
        if !stopped && !before && !after && periodic {
            proof {
                assert(in_range(ts, start, end, i as int));
            }
            keys.push(period_key_of(g, t));
        } else {
            keys.push(String::new());
        }
        if before {
            stopped = true;
        }
        proof {
            assert forall|j: int|
                0 <= j < i + 1 && in_range(ts, start, end, j) && periodic implies (#[trigger] keys@[j])@
                == period_key(g, ts[j]) by {
                if j == i {
                    if stopped && !before {
                        let k = choose|k: int| 0 <= k < i && before_start(ts[k], start);
                        assert(!reached(ts, start, i as int));
                    }
                }
            }
            if before {
                assert(before_start(ts[i as int], start));
            }
        }
        i += 1;
    }
    let r = select_by_keys(times, &keys, periodic, start, end);
    proof {
        let kv = views_of(keys@);
        assert forall|j: int| in_range(ts, start, end, j) && periodic implies #[trigger] kv[j] == period_key(g, ts[j]) by {
            assert(kv[j] == keys@[j]@);
        }
        if periodic {
            assert forall|k: int, l: int|
                0 <= k < l < r@.len() implies str_lt(
                period_key(g, ts[#[trigger] r@[k] as int]),
                period_key(g, ts[#[trigger] r@[l] as int]),
            ) by {
                assert(str_lt(kv[r@[k] as int], kv[r@[l] as int]));
                assert(in_range(ts, start, end, r@[k] as int));
                assert(in_range(ts, start, end, r@[l] as int));
            }
            assert forall|k: int, j: int|
                #![trigger r@[k], in_range(ts, start, end, j)]
                0 <= k < r@.len() && 0 <= j < r@[k] && in_range(ts, start, end, j) implies period_key(
                g,
                ts[j],
            ) != period_key(g, ts[r@[k] as int]) by {
                assert(in_range(ts, start, end, r@[k] as int));
                assert(kv[j] != kv[r@[k] as int]);
            }
            assert forall|i: int| in_range(ts, start, end, i) implies exists|k: int|
                0 <= k < r@.len() && period_key(g, ts[#[trigger] r@[k] as int]) == period_key(g, ts[i]) by {
                let k = choose|k: int| 0 <= k < r@.len() && kv[#[trigger] r@[k] as int] == kv[i];
                assert(in_range(ts, start, end, r@[k] as int));
            }
        }
    }
    r
}

proof fn lemma_in_range_prefix_stable(
    times: Seq<i64>,
    start: Option<Moment>,
    end: Option<Moment>,
    i: int,
)
    requires
        0 <= i <= times.len(),
        forall|j: int| i <= j < times.len() ==> !in_range(times, start, end, j),
    ensures
        in_range_prefix(times, start, end, times.len() as int) == in_range_prefix(
            times,
            start,
            end,
            i,
        ),
    decreases times.len() - i,
{
    if i < times.len() {
        lemma_in_range_prefix_stable(times, start, end, i + 1);
        assert(!in_range(times, start, end, i));
    }
}

/// Whether the period key of `secs` can be computed.
fn key_computable_at(g: Granularity, secs: i64) -> (r: bool)
    ensures
        r == key_computable(g, secs),
{
    match g {
        Granularity::Weekly => {
            let back: i64 = days_since_sunday(secs) * SECONDS_PER_DAY;
            match secs.checked_sub(back) {
                Some(t) => timestamp_valid(t),
                None => false,
            }
        },
        Granularity::EveryXHours(x) => {
            #[verifier::truncate]
            let every: u32 = x as u32;
            every != 0
        },
        _ => true,
    }
}

/// `select_commits`, when every commit the walk reaches has a date and every
/// commit in range has a period key; `None` otherwise, where the selection
/// cannot be made.
pub fn select_commits_checked(
    times: &Vec<i64>,
    g: Granularity,
    start: Option<Moment>,
    end: Option<Moment>,
) -> (r: Option<Vec<usize>>)
    ensures
        r is Some <==> selectable(times@, g, start, end),
        r matches Some(v) ==> selects(v@, times@, g, start, end),
{
    let ghost ts = times@;
    let n = times.len();
    let mut i: usize = 0;
    let mut stopped = false;
    while i < n && !stopped
        invariant
            ts == times@,
            n == ts.len(),
            i <= n,
            forall|j: int| 0 <= j < i ==> !before_start(#[trigger] ts[j], start),
            stopped ==> i < n && before_start(ts[i as int], start),
            forall|j: int| 0 <= j < i ==> utc_timestamp_valid(#[trigger] ts[j]),
            forall|j: int|
                0 <= j < i && in_range(ts, start, end, j) && !(g is Infinite) ==> key_computable(
                    g,
                    #[trigger] ts[j],
                ),
            stopped ==> utc_timestamp_valid(ts[i as int]),
        decreases (n - i) as int * 2 + if stopped {
            0int
        } else {
            1int
        },
    {
        let t = times[i];
        proof {
            assert(reached(ts, start, i as int));
        }
        if !timestamp_valid(t) {
            return None;
        }
        let before = match start {
            Some(s) => t < s.secs || (t == s.secs && s.nanos > 0),
            None => false,
        };
        if before {
            stopped = true;
        } else {
            let after = match end {
                Some(e) => t > e.secs,
                None => false,
            };
            proof {
                assert(in_range(ts, start, end, i as int) == !after);
            }
            if !after && g != Granularity::Infinite && !key_computable_at(g, t) {
                return None;
            }
            i += 1;
        }
    }
    proof {
        assert forall|j: int| reached(ts, start, j) implies utc_timestamp_valid(#[trigger] ts[j]) by {
            if j > i {
                assert(before_start(ts[i as int], start));
            }
        }
        assert forall|j: int|
            in_range(ts, start, end, j) && !(g is Infinite) implies key_computable(
            g,
            #[trigger] ts[j],
        ) by {
            if j > i {
                assert(before_start(ts[i as int], start));
            }
        }
    }
    Some(select_commits(times, g, start, end))
}

} // verus!
