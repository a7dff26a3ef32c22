//! The wall clock as the room writes it: ISO-8601 in UTC, to the millisecond.

use vstd::prelude::*;
use vstd::string::*;

use crate::hook_request::digits_value;
use crate::text::{
    digit, last_digits, lemma_less_before, lemma_less_behind, lemma_padded_digits,
    lemma_padded_order, no_later, padded, padded_text, pow10,
};

verus! {

// ---------------------------------------------------------------------------
// The calendar
// ---------------------------------------------------------------------------

/// A day of the Gregorian calendar.
pub struct Date {
    pub year: u64,
    pub month: u64,
    pub day: u64,
}

/// Whether a year has a 29th of February.
pub open spec fn is_leap(year: int) -> bool {
    year % 4 == 0 && (year % 100 != 0 || year % 400 == 0)
}

/// How many days a year has.
pub open spec fn year_length(year: int) -> int {
    if is_leap(year) {
        366
    } else {
        365
    }
}

/// How many days a month has.
pub open spec fn month_length(year: int, month: int) -> int {
    if month == 2 {
        if is_leap(year) {
            29
        } else {
            28
        }
    } else if month == 4 || month == 6 || month == 9 || month == 11 {
        30
    } else {
        31
    }
}

/// How many days lie between 1970-01-01 and the first day of a year.
pub open spec fn days_to_year(year: int) -> int
    decreases year - 1970,
{
    if year <= 1970 {
        0
    } else {
        days_to_year(year - 1) + year_length(year - 1)
    }
}

/// How many days lie between the first day of a year and the first day of a month.
pub open spec fn days_to_month(year: int, month: int) -> int
    decreases month,
{
    if month <= 1 {
        0
    } else {
        days_to_month(year, month - 1) + month_length(year, month - 1)
    }
}

impl Date {
    /// Whether there is such a day, from 1970 on.
    pub open spec fn valid(self) -> bool {
        &&& self.year >= 1970
        &&& 1 <= self.month <= 12
        &&& 1 <= self.day <= month_length(self.year as int, self.month as int)
    }

    /// How many days lie between 1970-01-01 and this day.
    pub open spec fn number(self) -> int {
        days_to_year(self.year as int) + days_to_month(self.year as int, self.month as int)
            + self.day - 1
    }
}

/// The day that lies so many days behind 1970-01-01.
pub open spec fn date_of(number: int) -> Date {
    choose|date: Date| date.valid() && date.number() == number
}

proof fn lemma_days_to_months(year: int)
    ensures
        days_to_month(year, 1) == 0,
        days_to_month(year, 2) == 31,
        days_to_month(year, 3) == 31 + month_length(year, 2),
        days_to_month(year, 4) == 62 + month_length(year, 2),
        days_to_month(year, 5) == 92 + month_length(year, 2),
        days_to_month(year, 6) == 123 + month_length(year, 2),
        days_to_month(year, 7) == 153 + month_length(year, 2),
        days_to_month(year, 8) == 184 + month_length(year, 2),
        days_to_month(year, 9) == 215 + month_length(year, 2),
        days_to_month(year, 10) == 245 + month_length(year, 2),
        days_to_month(year, 11) == 276 + month_length(year, 2),
        days_to_month(year, 12) == 306 + month_length(year, 2),
{
    reveal_with_fuel(days_to_month, 13);
}

/// How many leap years there are from year 1 up to and with a year.
spec fn leaps(year: int) -> int {
    year / 4 - year / 100 + year / 400
}

proof fn lemma_leaps_step(year: int)
    requires
        year >= 1,
    ensures
        leaps(year) == leaps(year - 1) + if is_leap(year) {
            1int
        } else {
            0int
        },
{
}

proof fn lemma_days_to_year(year: int)
    requires
        year >= 1970,
    ensures
        days_to_year(year) == 365 * (year - 1970) + leaps(year - 1) - 477,
    decreases year - 1970,
{
    if year > 1970 {
        lemma_days_to_year(year - 1);
        lemma_leaps_step(year - 1);
    }
}

proof fn lemma_days_to_year_grows(a: int, b: int)
    requires
        1970 <= a < b,
    ensures
        days_to_year(a) + year_length(a) <= days_to_year(b),
    decreases b - a,
{
    if a + 1 < b {
        lemma_days_to_year_grows(a, b - 1);
    }
}

proof fn lemma_day_of_year(date: Date)
    requires
        date.valid(),
    ensures
        0 <= date.number() - days_to_year(date.year as int) < year_length(date.year as int),
{
    lemma_days_to_months(date.year as int);
}

/// No two days have one number: what `date_of` says is the only such day.
pub proof fn law_dates_are_told_by_their_numbers(a: Date, b: Date)
    requires
        a.valid(),
        b.valid(),
        a.number() == b.number(),
    ensures
        a == b,
{
    lemma_day_of_year(a);
    lemma_day_of_year(b);
    if a.year < b.year {
        lemma_days_to_year_grows(a.year as int, b.year as int);
    } else if b.year < a.year {
        lemma_days_to_year_grows(b.year as int, a.year as int);
    }
    lemma_days_to_months(a.year as int);
}

/// Where a day stands in the 400-year cycle that begins on a first of March: the century
/// of the cycle, the four years of the century, the year of the four, and the day of
/// that year.
proof fn lemma_cycle(doe: int) -> (parts: (int, int, int, int))
    requires
        0 <= doe <= 146_096,
    ensures
        ({
            let (a, c, e, r) = parts;
            &&& 0 <= a <= 3 && 0 <= c <= 24 && 0 <= e <= 3 && 0 <= r <= 365
            &&& doe == 36_524 * a + 1_461 * c + 365 * e + r
            &&& r == 365 ==> e == 3 && (c < 24 || a == 3)
            &&& (doe - doe / 1_460 + doe / 36_524 - doe / 146_096) / 365 == 100 * a + 4 * c + e
        }),
{
    let a = if doe / 36_524 > 3 {
        3
    } else {
        doe / 36_524
    };
    let in_century = doe - 36_524 * a;
    let c = in_century / 1_461;
    let in_four = in_century - 1_461 * c;
    let e = if in_four / 365 > 3 {
        3
    } else {
        in_four / 365
    };
    let r = in_four - 365 * e;
    assert(0 <= in_century <= 36_524);
    assert(0 <= c <= 24);
    assert(0 <= in_four <= 1_460);
    assert(0 <= r <= 365);
    let spare = 24 * a + c + 365 * e + r;
    assert(doe == 1_460 * (25 * a + c) + spare);
    if doe == 146_096 {
        assert(doe / 1_460 == 100 && doe / 36_524 == 4 && doe / 146_096 == 1);
    } else {
        assert(doe / 146_096 == 0);
        assert(doe / 36_524 == a);
        if spare < 1_460 {
            assert(doe / 1_460 == 25 * a + c);
        } else {
            assert(doe / 1_460 == 25 * a + c + 1);
        }
    }
    (a, c, e, r)
}

/// The day that lies so many days behind 1970-01-01.
pub fn civil_date(days: u64) -> (date: Date)
    requires
        days <= u64::MAX / 86_400,
    ensures
        date.valid(),
        date.number() == days,
        date == date_of(days as int),
{
    let z: u64 = days + 719_468;
    let era: u64 = z / 146_097;
    let doe: u64 = z % 146_097;
    let yoe: u64 = (doe - doe / 1_460 + doe / 36_524 - doe / 146_096) / 365;
    let ghost (a, c, e, r) = lemma_cycle(doe as int);
    proof {
        assert(yoe == 100 * a + 4 * c + e);
        assert(yoe / 4 == 25 * a + c);
        assert(yoe / 100 == a);
    }
    let doy: u64 = doe - (365 * yoe + yoe / 4 - yoe / 100);
    let mp: u64 = (5 * doy + 2) / 153;
    let day: u64 = doy - (153 * mp + 2) / 5 + 1;
    let month: u64 = if mp < 10 {
        mp + 3
    } else {
        mp - 9
    };
    let start: u64 = yoe + era * 400;
    let year: u64 = if month <= 2 {
        start + 1
    } else {
        start
    };
    let date = Date { year, month, day };
    proof {
        let y = start as int;
        assert(doy == r);
        assert(leaps(y) == 97 * era + yoe / 4 - yoe / 100) by {
            assert(y / 4 == 100 * era + yoe / 4);
            assert(y / 100 == 4 * era + yoe / 100);
            assert(y / 400 == era);
        }
        assert(z == 365 * y + leaps(y) + r);
        assert(y >= 1969);
        lemma_leaps_step(y);
        lemma_leaps_step(y + 1);
        lemma_days_to_year(y + 1);
        lemma_days_to_months(y);
        lemma_days_to_months(y + 1);
        assert(mp <= 11);
        if month <= 2 {
            assert(mp == 10 || mp == 11);
            if mp == 11 && day == 29 {
                assert(r == 365);
                assert(is_leap(y + 1)) by {
                    assert(y + 1 == 400 * era + 100 * a + 4 * c + 4);
                    if c == 24 {
                        assert(a == 3);
                    }
                }
            }
        } else {
            assert(y >= 1970);
            lemma_days_to_year(y);
            assert(mp == 0 || mp == 1 || mp == 2 || mp == 3 || mp == 4 || mp == 5 || mp == 6 || mp
                == 7 || mp == 8 || mp == 9);
        }
        assert(date.valid());
        assert(date.number() == days);
        let other = date_of(days as int);
        law_dates_are_told_by_their_numbers(date, other);
    }
    date
}

// ---------------------------------------------------------------------------
// The stamp
// ---------------------------------------------------------------------------

/// A moment written out: the day, then the time of day to the millisecond, in UTC.
pub open spec fn stamp(date: Date, second_of_day: nat, millis: nat) -> Seq<char> {
    padded(date.year as nat, 4) + "-"@ + padded(date.month as nat, 2) + "-"@ + padded(
        date.day as nat,
        2,
    ) + "T"@ + padded(second_of_day / 3_600, 2) + ":"@ + padded(second_of_day % 3_600 / 60, 2)
        + ":"@ + padded(second_of_day % 60, 2) + "."@ + padded(millis, 3) + "Z"@
}

/// The stamp of a moment given as seconds since the epoch and milliseconds of the
/// second.
pub open spec fn stamp_of(secs: nat, millis: nat) -> Seq<char> {
    stamp(date_of((secs / 86_400) as int), secs % 86_400, millis)
}

/// Write a moment out.
pub fn iso_stamp(secs: u64, millis: u32) -> (text: String)
    ensures
        text@ == stamp_of(secs as nat, millis as nat),
{
    let date = civil_date(secs / 86_400);
    let rem: u64 = secs % 86_400;
    let mut text: String = padded_text(date.year, 4);
    text.append("-");
    text.append(padded_text(date.month, 2).as_str());
    text.append("-");
    text.append(padded_text(date.day, 2).as_str());
    text.append("T");
    text.append(padded_text(rem / 3_600, 2).as_str());
    text.append(":");
    text.append(padded_text(rem % 3_600 / 60, 2).as_str());
    text.append(":");
    text.append(padded_text(rem % 60, 2).as_str());
    text.append(".");
    text.append(padded_text(millis as u64, 3).as_str());
    text.append("Z");
    text
}

// ---------------------------------------------------------------------------
// The order of stamps
// ---------------------------------------------------------------------------

/// The first second of the year 10000.
pub open spec fn end_of_four_digit_years() -> nat {
    253_402_300_800
}

/// The day behind a day.
proof fn next_day(date: Date) -> (next: Date)
    requires
        date.valid(),
        date.year < u64::MAX,
    ensures
        next.valid(),
        next.number() == date.number() + 1,
        next.year <= date.year + 1,
{
    let y = date.year as int;
    let m = date.month as int;
    lemma_days_to_months(y);
    if date.day < month_length(y, m) {
        Date { day: (date.day + 1) as u64, ..date }
    } else if date.month < 12 {
        Date { month: (date.month + 1) as u64, day: 1, ..date }
    } else {
        lemma_days_to_months(y + 1);
        Date { year: (date.year + 1) as u64, month: 1, day: 1 }
    }
}

proof fn lemma_there_is_a_date(number: nat) -> (date: Date)
    requires
        number <= u64::MAX / 86_400,
    ensures
        date.valid(),
        date.number() == number,
        date.year <= 1970 + number,
    decreases number,
{
    if number == 0 {
        let first = Date { year: 1970, month: 1, day: 1 };
        lemma_days_to_months(1970);
        first
    } else {
        let before = lemma_there_is_a_date((number - 1) as nat);
        next_day(before)
    }
}

proof fn lemma_date_of(number: nat)
    requires
        number <= u64::MAX / 86_400,
    ensures
        date_of(number as int).valid(),
        date_of(number as int).number() == number,
{
    let date = lemma_there_is_a_date(number);
    assert(date.valid() && date.number() == number as int);
}

/// Whether one day stands before another in the calendar.
pub open spec fn earlier(a: Date, b: Date) -> bool {
    a.year < b.year || (a.year == b.year && (a.month < b.month || (a.month == b.month && a.day
        < b.day)))
}

/// Days stand in the calendar as they are numbered.
pub proof fn law_dates_are_ordered_by_their_numbers(a: Date, b: Date)
    requires
        a.valid(),
        b.valid(),
        a.number() < b.number(),
    ensures
        earlier(a, b),
{
    lemma_day_of_year(a);
    lemma_day_of_year(b);
    if b.year < a.year {
        lemma_days_to_year_grows(b.year as int, a.year as int);
    }
    lemma_days_to_months(a.year as int);
}

/// What of a stamp stands behind the month.
spec fn day_and_time(date: Date, second_of_day: nat, millis: nat) -> Seq<char> {
    padded(date.day as nat, 2) + "T"@ + time_of_day(second_of_day, millis)
}

/// What of a stamp stands behind the day.
spec fn time_of_day(second_of_day: nat, millis: nat) -> Seq<char> {
    padded(second_of_day / 3_600, 2) + ":"@ + minutes_on(second_of_day, millis)
}

/// What of a stamp stands behind the hour.
spec fn minutes_on(second_of_day: nat, millis: nat) -> Seq<char> {
    padded(second_of_day % 3_600 / 60, 2) + ":"@ + seconds_on(second_of_day, millis)
}

/// What of a stamp stands behind the minute.
spec fn seconds_on(second_of_day: nat, millis: nat) -> Seq<char> {
    padded(second_of_day % 60, 2) + "."@ + (padded(millis, 3) + "Z"@)
}

/// What of a stamp stands behind the year.
spec fn month_on(date: Date, second_of_day: nat, millis: nat) -> Seq<char> {
    padded(date.month as nat, 2) + "-"@ + day_and_time(date, second_of_day, millis)
}

proof fn lemma_regroup(a: Seq<char>, b: Seq<char>, c: Seq<char>, d: Seq<char>)
    ensures
        a + b + c + d == a + (b + c + d),
{
    assert(a + b + c + d =~= a + (b + c + d));
}

proof fn lemma_stamp_parts(date: Date, second_of_day: nat, millis: nat)
    ensures
        stamp(date, second_of_day, millis) == padded(date.year as nat, 4) + "-"@ + month_on(
            date,
            second_of_day,
            millis,
        ),
{
    let to_month = padded(date.year as nat, 4) + "-"@;
    let to_day = to_month + padded(date.month as nat, 2) + "-"@;
    let to_hour = to_day + padded(date.day as nat, 2) + "T"@;
    let to_minute = to_hour + padded(second_of_day / 3_600, 2) + ":"@;
    let to_second = to_minute + padded(second_of_day % 3_600 / 60, 2) + ":"@;
    let to_millis = to_second + padded(second_of_day % 60, 2) + "."@;
    let last = padded(millis, 3) + "Z"@;
    assert(to_millis + padded(millis, 3) + "Z"@ =~= to_millis + last);
    lemma_regroup(to_second, padded(second_of_day % 60, 2), "."@, last);
    lemma_regroup(
        to_minute,
        padded(second_of_day % 3_600 / 60, 2),
        ":"@,
        seconds_on(second_of_day, millis),
    );
    lemma_regroup(
        to_hour,
        padded(second_of_day / 3_600, 2),
        ":"@,
        minutes_on(second_of_day, millis),
    );
    lemma_regroup(
        to_day,
        padded(date.day as nat, 2),
        "T"@,
        time_of_day(second_of_day, millis),
    );
    lemma_regroup(
        to_month,
        padded(date.month as nat, 2),
        "-"@,
        day_and_time(date, second_of_day, millis),
    );
}

/// A field of a stamp orders what stands behind it: by itself where it differs, and by the
/// rest where it does not.
proof fn lemma_field(a: nat, b: nat, width: nat, sep: Seq<char>, x: Seq<char>, y: Seq<char>)
    requires
        width >= 1,
        a < pow10(width),
        b < pow10(width),
        a < b || (a == b && no_later(x, y)),
    ensures
        no_later(padded(a, width) + sep + x, padded(b, width) + sep + y),
{
    assert(padded(a, width) + sep + x =~= padded(a, width) + (sep + x));
    assert(padded(b, width) + sep + y =~= padded(b, width) + (sep + y));
    if a < b {
        lemma_padded_digits(a, width);
        lemma_padded_digits(b, width);
        lemma_padded_order(a, b, width);
        lemma_less_before(padded(a, width), padded(b, width), sep + x, sep + y);
    } else if x != y {
        lemma_less_behind(sep, x, y);
        lemma_less_behind(padded(a, width), sep + x, sep + y);
    }
}

proof fn lemma_widths()
    ensures
        pow10(2) == 100,
        pow10(3) == 1_000,
        pow10(4) == 10_000,
{
    reveal_with_fuel(pow10, 5);
}

proof fn lemma_times_in_order(a: nat, m: nat, b: nat, n: nat)
    requires
        a < 86_400,
        b < 86_400,
        m < 1_000,
        n < 1_000,
        a < b || (a == b && m <= n),
    ensures
        no_later(time_of_day(a, m), time_of_day(b, n)),
{
    lemma_widths();
    let x = padded(m, 3) + "Z"@;
    let y = padded(n, 3) + "Z"@;
    if m < n {
        lemma_padded_digits(m, 3);
        lemma_padded_digits(n, 3);
        lemma_padded_order(m, n, 3);
        lemma_less_before(padded(m, 3), padded(n, 3), "Z"@, "Z"@);
    }
    if a / 3_600 == b / 3_600 {
        if a % 3_600 / 60 == b % 3_600 / 60 {
            lemma_field(a % 60, b % 60, 2, "."@, x, y);
        }
        lemma_field(
            a % 3_600 / 60,
            b % 3_600 / 60,
            2,
            ":"@,
            seconds_on(a, m),
            seconds_on(b, n),
        );
    }
    lemma_field(a / 3_600, b / 3_600, 2, ":"@, minutes_on(a, m), minutes_on(b, n));
}

proof fn lemma_four_digit_year(secs: nat)
    requires
        secs < end_of_four_digit_years(),
    ensures
        date_of((secs / 86_400) as int).valid(),
        date_of((secs / 86_400) as int).number() == secs / 86_400,
        date_of((secs / 86_400) as int).year < 10_000,
{
    lemma_date_of(secs / 86_400);
    let date = date_of((secs / 86_400) as int);
    lemma_day_of_year(date);
    lemma_days_to_year(10_000);
    if date.year > 10_000 {
        lemma_days_to_year_grows(10_000, date.year as int);
    }
}

/// Before the year 10000 a stamp has twenty-four characters.
pub proof fn law_a_stamp_has_one_length(secs: nat, millis: nat)
    requires
        secs < end_of_four_digit_years(),
        millis < 1_000,
    ensures
        stamp_of(secs, millis).len() == 24,
{
    lemma_widths();
    lemma_four_digit_year(secs);
    let date = date_of((secs / 86_400) as int);
    let rest = secs % 86_400;
    lemma_padded_digits(date.year as nat, 4);
    lemma_padded_digits(date.month as nat, 2);
    lemma_padded_digits(date.day as nat, 2);
    lemma_padded_digits(rest / 3_600, 2);
    lemma_padded_digits(rest % 3_600 / 60, 2);
    lemma_padded_digits(rest % 60, 2);
    lemma_padded_digits(millis, 3);
    reveal_strlit("-");
    reveal_strlit("T");
    reveal_strlit(":");
    reveal_strlit(".");
    reveal_strlit("Z");
}

/// Before the year 10000 a later reading of the clock gives a stamp that is no smaller as a
/// text.
pub proof fn law_stamps_are_in_order(secs: nat, millis: nat, later_secs: nat, later_millis: nat)
    requires
        secs < later_secs || (secs == later_secs && millis <= later_millis),
        later_secs < end_of_four_digit_years(),
        millis < 1_000,
        later_millis < 1_000,
    ensures
        no_later(stamp_of(secs, millis), stamp_of(later_secs, later_millis)),
{
    lemma_widths();
    lemma_four_digit_year(secs);
    lemma_four_digit_year(later_secs);
    let a = date_of((secs / 86_400) as int);
    let b = date_of((later_secs / 86_400) as int);
    let s = secs % 86_400;
    let t = later_secs % 86_400;
    if secs / 86_400 < later_secs / 86_400 {
        law_dates_are_ordered_by_their_numbers(a, b);
    } else {
        assert(secs / 86_400 == later_secs / 86_400);
        lemma_times_in_order(s, millis, t, later_millis);
    }
    lemma_stamp_parts(a, s, millis);
    lemma_stamp_parts(b, t, later_millis);
    if a.year == b.year {
        if a.month == b.month {
            lemma_field(
                a.day as nat,
                b.day as nat,
                2,
                "T"@,
                time_of_day(s, millis),
                time_of_day(t, later_millis),
            );
        }
        lemma_field(
            a.month as nat,
            b.month as nat,
            2,
            "-"@,
            day_and_time(a, s, millis),
            day_and_time(b, t, later_millis),
        );
    }
    lemma_field(
        a.year as nat,
        b.year as nat,
        4,
        "-"@,
        month_on(a, s, millis),
        month_on(b, t, later_millis),
    );
}

// ---------------------------------------------------------------------------
// The clock
// ---------------------------------------------------------------------------

#[verifier::external_type_specification]
#[verifier::external_body]
pub struct ExSystemTime(std::time::SystemTime);

/// The whole seconds of a stretch of time.
pub uninterp spec fn whole_seconds(stretch: std::time::Duration) -> u64;

/// The milliseconds of a stretch of time behind its whole seconds.
pub uninterp spec fn milliseconds(stretch: std::time::Duration) -> u32;

/// `SystemTime::now`. Nothing is claimed of what the clock says.
#[verifier::external_body]
fn clock() -> (now: std::time::SystemTime) {
    std::time::SystemTime::now()
}

/// `SystemTime::duration_since` the Unix epoch, where the clock does not stand before it.
/// Nothing is claimed of how much time that is.
#[verifier::external_body]
fn since_epoch(now: std::time::SystemTime) -> (stretch: Option<std::time::Duration>) {
    now.duration_since(std::time::UNIX_EPOCH).ok()
}

/// `Duration::as_secs`: the whole seconds.
pub assume_specification[ std::time::Duration::as_secs ](stretch: &std::time::Duration) -> (secs:
    u64)
    ensures
        secs == whole_seconds(*stretch),
;

/// `Duration::subsec_millis`: the milliseconds behind the whole seconds, fewer than a
/// thousand.
pub assume_specification[ std::time::Duration::subsec_millis ](
    stretch: &std::time::Duration,
) -> (millis: u32)
    ensures
        millis == milliseconds(*stretch),
        millis < 1_000,
;

/// The stamp of a moment so long after the epoch; of the epoch itself where the clock
/// stands before it.
pub open spec fn moment(stretch: Option<std::time::Duration>) -> Seq<char> {
    match stretch {
        Some(stretch) => stamp_of(whole_seconds(stretch) as nat, milliseconds(stretch) as nat),
        None => stamp_of(0, 0),
    }
}

/// Write out a moment so long after the epoch.
pub fn stamp_after(stretch: Option<std::time::Duration>) -> (text: String)
    ensures
        text@ == moment(stretch),
{
    match stretch {
        Some(stretch) => iso_stamp(stretch.as_secs(), stretch.subsec_millis()),
        None => iso_stamp(0, 0),
    }
}

/// The present moment as a stamp. Which moment that is, is the clock's to say.
pub fn now_iso() -> (text: String)
    ensures
        exists|stretch: Option<std::time::Duration>| text@ == #[trigger] moment(stretch),
{
    stamp_after(since_epoch(clock()))
}

/// A number that fits a width is read again from its digits.
proof fn lemma_padded_read(n: nat, width: nat)
    requires
        width >= 1,
        n < pow10(width),
    ensures
        digits_value(padded(n, width)) == n,
{
    lemma_padded_digits(n, width);
    lemma_last_digits_read(n, width);
}

proof fn lemma_last_digits_read(n: nat, width: nat)
    requires
        n < pow10(width),
    ensures
        digits_value(last_digits(n, width)) == n,
    decreases width,
{
    if width > 0 {
        let less = (width - 1) as nat;
        assert(n / 10 < pow10(less));
        lemma_last_digits_read(n / 10, less);
        let text = last_digits(n, width);
        assert(text.drop_last() =~= last_digits(n / 10, less));
        assert(text.last() == digit(n % 10));
    }
}

/// A stamp reads `YYYY-MM-DDTHH:MM:SS.mmmZ`, before the year 10000: its first three numbers are
/// a day of the calendar, and the moment it was written for is that day's number of days, the
/// hours, the minutes and the seconds behind 1970, and the milliseconds.
pub proof fn law_a_stamp_is_read_again(secs: u64, millis: u32, text: String)
    requires
        iso_stamp.ensures((secs, millis), text),
        secs < 253_402_300_800,
        millis < 1_000,
    ensures
        text@.len() == 24,
        text@[4] == '-' && text@[7] == '-' && text@[10] == 'T' && text@[13] == ':' && text@[16]
            == ':' && text@[19] == '.' && text@[23] == 'Z',
        exists|date: Date|
            {
                &&& #[trigger] date.valid()
                &&& date.year == digits_value(text@.subrange(0, 4))
                &&& date.month == digits_value(text@.subrange(5, 7))
                &&& date.day == digits_value(text@.subrange(8, 10))
                &&& secs == 86_400 * date.number() + 3_600 * digits_value(text@.subrange(11, 13))
                    + 60 * digits_value(text@.subrange(14, 16)) + digits_value(
                    text@.subrange(17, 19),
                )
            },
        digits_value(text@.subrange(11, 13)) < 24,
        digits_value(text@.subrange(14, 16)) < 60,
        digits_value(text@.subrange(17, 19)) < 60,
        digits_value(text@.subrange(20, 23)) == millis,
{
    lemma_widths();
    lemma_four_digit_year(secs as nat);
    let date = date_of((secs as nat / 86_400) as int);
    let rest = secs as nat % 86_400;
    let year = padded(date.year as nat, 4);
    let month = padded(date.month as nat, 2);
    let day = padded(date.day as nat, 2);
    let hour = padded(rest / 3_600, 2);
    let minute = padded(rest % 3_600 / 60, 2);
    let second = padded(rest % 60, 2);
    let thousandth = padded(millis as nat, 3);
    lemma_padded_digits(date.year as nat, 4);
    lemma_padded_digits(date.month as nat, 2);
    lemma_padded_digits(date.day as nat, 2);
    lemma_padded_digits(rest / 3_600, 2);
    lemma_padded_digits(rest % 3_600 / 60, 2);
    lemma_padded_digits(rest % 60, 2);
    lemma_padded_digits(millis as nat, 3);
    lemma_padded_read(date.year as nat, 4);
    lemma_padded_read(date.month as nat, 2);
    lemma_padded_read(date.day as nat, 2);
    lemma_padded_read(rest / 3_600, 2);
    lemma_padded_read(rest % 3_600 / 60, 2);
    lemma_padded_read(rest % 60, 2);
    lemma_padded_read(millis as nat, 3);
    reveal_strlit("-");
    reveal_strlit("T");
    reveal_strlit(":");
    reveal_strlit(".");
    reveal_strlit("Z");
    assert(text@.subrange(0, 4) =~= year);
    assert(text@.subrange(5, 7) =~= month);
    assert(text@.subrange(8, 10) =~= day);
    assert(text@.subrange(11, 13) =~= hour);
    assert(text@.subrange(14, 16) =~= minute);
    assert(text@.subrange(17, 19) =~= second);
    assert(text@.subrange(20, 23) =~= thousandth);
    assert(date.valid());
}

/// The calendar comes round every four hundred years, with ninety-seven leap years in them;
/// the day behind the last one of a month is the first one of the next.
pub proof fn law_the_calendar_comes_round(year: int, month: int)
    requires
        year >= 1970,
        1 <= month <= 12,
    ensures
        days_to_year(year + 400) == days_to_year(year) + 400 * 365 + 97,
        days_to_year(year + 1) - days_to_year(year) == 365 || days_to_year(year + 1) - days_to_year(
            year,
        ) == 366,
        days_to_year(year + 1) - days_to_year(year) == 366 <==> year % 4 == 0 && (year % 100 != 0
            || year % 400 == 0),
        month_length(year, month) == if month == 2 {
            days_to_year(year + 1) - days_to_year(year) - 337
        } else {
            30 + (month + month / 8) % 2
        },
{
    lemma_four_hundred_years(year);
    assert(days_to_year(year + 1) == days_to_year(year) + year_length(year));
    assert(month == 1 || month == 2 || month == 3 || month == 4 || month == 5 || month == 6 || month
        == 7 || month == 8 || month == 9 || month == 10 || month == 11 || month == 12);
}

proof fn lemma_four_hundred_years(year: int)
    requires
        year >= 1970,
    ensures
        days_to_year(year + 400) == days_to_year(year) + 400 * 365 + 97,
{
    lemma_days_to_year(year);
    lemma_days_to_year(year + 400);
    let last = year - 1;
    assert((last + 400) / 4 == last / 4 + 100);
    assert((last + 400) / 100 == last / 100 + 4);
    assert((last + 400) / 400 == last / 400 + 1);
    assert(leaps(year + 400 - 1) == leaps(year - 1) + 97);
}

/// What the clock says is written out as the seconds and the milliseconds behind the epoch,
/// and as the epoch where it stands before it.
pub proof fn law_what_the_clock_says(
    stretch: std::time::Duration,
    text: String,
    none: String,
    same: String,
    epoch: String,
)
    requires
        stamp_after.ensures((Some(stretch),), text),
        iso_stamp.ensures((whole_seconds(stretch), milliseconds(stretch)), same),
        stamp_after.ensures((None,), none),
        iso_stamp.ensures((0, 0), epoch),
    ensures
        text@ == same@,
        none@ == epoch@,
{
}

} // verus!
