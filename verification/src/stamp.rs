//! Moments in the form of a calendar, in UTC.

use crate::text;
use vstd::prelude::*;
use vstd::string::*;

verus! {

/// True for a leap year of the Gregorian calendar.
pub open spec fn leap(year: nat) -> bool {
    year % 4 == 0 && (year % 100 != 0 || year % 400 == 0)
}

/// The days of a year.
pub open spec fn year_len(year: nat) -> nat {
    if leap(year) {
        366
    } else {
        365
    }
}

/// The days of a month, which counts from 1.
pub open spec fn month_len(year: nat, month: nat) -> nat {
    if month == 2 {
        if leap(year) {
            29
        } else {
            28
        }
    } else if month == 4 || month == 6 || month == 9 || month == 11 {
        30
    } else {
        31
    }
}

/// The days from the start of 1970 to the start of `year`.
pub open spec fn days_before_year(year: nat) -> nat
    decreases year,
{
    if year <= 1970 {
        0
    } else {
        days_before_year((year - 1) as nat) + year_len((year - 1) as nat)
    }
}

/// The days from the start of the year to the start of `month`.
pub open spec fn days_before_month(year: nat, month: nat) -> nat
    decreases month,
{
    if month <= 1 {
        0
    } else {
        days_before_month(year, (month - 1) as nat) + month_len(year, (month - 1) as nat)
    }
}

/// A day of the calendar.
#[derive(Debug, Clone, Copy, PartialEq, Eq, Structural)]
pub struct Date {
    pub year: u64,
    pub month: u64,
    pub day: u64,
}

impl Date {
    /// True when the calendar has this day, and it is not before 1970.
    pub open spec fn valid(self) -> bool {
        &&& self.year >= 1970
        &&& 1 <= self.month <= 12
        &&& 1 <= self.day <= month_len(self.year as nat, self.month as nat)
    }

    /// The days from the start of 1970 to this day.
    pub open spec fn number(self) -> nat {
        (days_before_year(self.year as nat) + days_before_month(
            self.year as nat,
            self.month as nat,
        ) + self.day - 1) as nat
    }
}

proof fn lemma_days_before_month(year: nat)
    ensures
        days_before_month(year, 13) == year_len(year),
{
    reveal_with_fuel(days_before_month, 14);
}

proof fn lemma_month_step(year: nat, a: nat, b: nat)
    requires
        1 <= a < b,
    ensures
        days_before_month(year, a) + month_len(year, a) <= days_before_month(year, b),
    decreases b,
{
    if a + 1 < b {
        lemma_month_step(year, a, (b - 1) as nat);
    }
}

proof fn lemma_year_step(a: nat, b: nat)
    requires
        1970 <= a < b,
    ensures
        days_before_year(a) + year_len(a) <= days_before_year(b),
    decreases b,
{
    if a + 1 < b {
        lemma_year_step(a, (b - 1) as nat);
    }
}

proof fn lemma_in_year(d: Date)
    requires
        d.valid(),
    ensures
        days_before_year(d.year as nat) <= d.number() < days_before_year(d.year as nat) + year_len(
            d.year as nat,
        ),
{
    lemma_days_before_month(d.year as nat);
    lemma_month_step(d.year as nat, d.month as nat, 13);
}

/// Each day of the calendar has a number of its own.
pub proof fn law_one_date_for_one_day(a: Date, b: Date)
    requires
        a.valid(),
        b.valid(),
        a.number() == b.number(),
    ensures
        a == b,
{
    lemma_in_year(a);
    lemma_in_year(b);
    if a.year < b.year {
        lemma_year_step(a.year as nat, b.year as nat);
    }
    if b.year < a.year {
        lemma_year_step(b.year as nat, a.year as nat);
    }
    if a.month < b.month {
        lemma_month_step(a.year as nat, a.month as nat, b.month as nat);
    }
    if b.month < a.month {
        lemma_month_step(a.year as nat, b.month as nat, a.month as nat);
    }
}

/// Four hundred years have always the same number of days.
proof fn lemma_era(year: nat, n: nat)
    requires
        year >= 1970,
    ensures
        days_before_year(year + 400 * n) == days_before_year(year) + 146097 * n,
        leap(year + 400 * n) == leap(year),
    decreases n,
{
    if n > 0 {
        lemma_era(year, (n - 1) as nat);
        let y = (year + 400 * (n - 1)) as nat;
        assert(year + 400 * n == y + 400);
        lemma_full_era(y);
    }
}

proof fn lemma_full_era(y: nat)
    requires
        y >= 1970,
    ensures
        days_before_year(y + 400) == days_before_year(y) + 146097,
        leap(y + 400) == leap(y),
{
    lemma_one_era(y, 400);
    lemma_leap_era(y);
}

proof fn lemma_leap_era(y: nat)
    ensures
        leap(y + 400) == leap(y),
{
    vstd::arithmetic::div_mod::lemma_mod_multiples_vanish(100, y as int, 4);
    vstd::arithmetic::div_mod::lemma_mod_multiples_vanish(4, y as int, 100);
    vstd::arithmetic::div_mod::lemma_mod_multiples_vanish(1, y as int, 400);
}

/// The days of the first `k` years after `year`, counted by the leap years.
spec fn leaps_below(year: nat) -> int {
    (year + 3) / 4 - (year + 99) / 100 + (year + 399) / 400
}

proof fn lemma_one_era(year: nat, k: nat)
    requires
        year >= 1970,
    ensures
        days_before_year(year + k) == days_before_year(year) + 365 * k + leaps_below(year + k)
            - leaps_below(year),
        k == 400 ==> leaps_below(year + k) - leaps_below(year) == 97,
    decreases k,
{
    if k > 0 {
        lemma_one_era(year, (k - 1) as nat);
        lemma_leap_step((year + k - 1) as nat);
    }
    if k == 400 {
        assert((year + 403) / 4 == (year + 3) / 4 + 100);
        assert((year + 499) / 100 == (year + 99) / 100 + 4);
        assert((year + 799) / 400 == (year + 399) / 400 + 1);
    }
}

proof fn lemma_leap_step(y: nat)
    ensures
        leaps_below(y + 1) - leaps_below(y) == year_len(y) - 365,
{
    lemma_count_step(y);
    assert(y % 400 == 0 ==> y % 100 == 0);
    assert(y % 100 == 0 ==> y % 4 == 0);
}

proof fn lemma_count_step(y: nat)
    ensures
        (y + 4) / 4 - (y + 3) / 4 == (if y % 4 == 0 {
            1int
        } else {
            0
        }),
        (y + 100) / 100 - (y + 99) / 100 == (if y % 100 == 0 {
            1int
        } else {
            0
        }),
        (y + 400) / 400 - (y + 399) / 400 == (if y % 400 == 0 {
            1int
        } else {
            0
        }),
{
}

fn is_leap(year: u64) -> (r: bool)
    ensures
        r == leap(year as nat),
{
    year % 4 == 0 && (year % 100 != 0 || year % 400 == 0)
}

fn len_of_month(year: u64, month: u64) -> (r: u64)
    ensures
        r == month_len(year as nat, month as nat),
{
    if month == 2 {
        if is_leap(year) {
            29
        } else {
            28
        }
    } else if month == 4 || month == 6 || month == 9 || month == 11 {
        30
    } else {
        31
    }
}

/// The date of a day that is given by its number since the start of 1970.
pub fn date_of(days: u64) -> (r: Date)
    requires
        days <= u64::MAX / 86400,
    ensures
        r.valid(),
        r.number() == days,
{
    let eras: u64 = days / 146097;
    let mut rest: u64 = days % 146097;
    let mut year: u64 = 1970;
    proof {
        lemma_one_era(1970, 400);
        assert(days_before_year(2370) == 146097);
    }
    loop
        invariant
            1970 <= year <= 2370,
            rest + days_before_year(year as nat) == days % 146097,
            days_before_year(2370) == 146097,
        ensures
            1970 <= year < 2370,
            rest + days_before_year(year as nat) == days % 146097,
            rest < year_len(year as nat),
        decreases 2370 - year,
    {
        let len: u64 = if is_leap(year) {
            366
        } else {
            365
        };
        if year == 2370 {
            assert(false);
        }
        if rest < len {
            break ;
        }
        proof {
            assert(days_before_year((year + 1) as nat) == days_before_year(year as nat) + year_len(
                year as nat,
            ));
        }
        rest -= len;
        year += 1;
    }
    let ghost base = year as nat;
    let mut month: u64 = 1;
    proof {
        lemma_days_before_month(base);
    }
    let ghost in_year = rest as nat;
    loop
        invariant
            base == year,
            1 <= month <= 13,
            rest + days_before_month(base, month as nat) == in_year,
            in_year < days_before_month(base, 13),
        ensures
            1 <= month <= 12,
            rest + days_before_month(base, month as nat) == in_year,
            rest < month_len(base, month as nat),
        decreases 13 - month,
    {
        if month == 13 {
            assert(false);
        }
        let len: u64 = len_of_month(year, month);
        if rest < len {
            break ;
        }
        assert(days_before_month(base, (month + 1) as nat) == days_before_month(
            base,
            month as nat,
        ) + month_len(base, month as nat));
        rest -= len;
        month += 1;
    }
    let whole: u64 = year + 400 * eras;
    proof {
        lemma_era(base, eras as nat);
        lemma_same_months(base, whole as nat, month as nat);
    }
    Date { year: whole, month, day: rest + 1 }
}

proof fn lemma_same_months(a: nat, b: nat, month: nat)
    requires
        leap(a) == leap(b),
    ensures
        days_before_month(a, month) == days_before_month(b, month),
        month_len(a, month) == month_len(b, month),
    decreases month,
{
    if month > 1 {
        lemma_same_months(a, b, (month - 1) as nat);
    }
}

/// The date of the day that holds the moment.
pub open spec fn date_at(secs: nat) -> Date {
    choose|d: Date| d.valid() && d.number() == secs / 86400
}

/// The date of the day that holds the moment `secs`.
fn date(secs: u64) -> (r: Date)
    ensures
        r == date_at(secs as nat),
        r.valid(),
        r.number() == secs as nat / 86400,
{
    let d = date_of(secs / 86400);
    proof {
        law_one_date_for_one_day(d, date_at(secs as nat));
    }
    d
}

/// A number with two digits at least.
pub open spec fn two(n: nat) -> Seq<char> {
    text::padded(text::digits(n), '0', 2)
}

/// The hour and the minute of the day that a moment has.
pub open spec fn clock_text(secs: nat) -> Seq<char> {
    two(secs % 86400 / 3600) + ":"@ + two(secs % 3600 / 60)
}

/// The date of a moment.
pub open spec fn date_text(secs: nat) -> Seq<char> {
    let d = date_at(secs);
    text::padded(text::digits(d.year as nat), '0', 4) + "-"@ + two(d.month as nat) + "-"@ + two(
        d.day as nat,
    )
}

/// The whole of a moment, to the minute.
pub open spec fn stamp(secs: nat) -> Seq<char> {
    date_text(secs) + " "@ + clock_text(secs) + " UTC"@
}

/// A moment as a reader of `now` needs it: the clock alone on the same day,
/// and the date as well on another day.
pub open spec fn near_stamp(secs: nat, now: nat) -> Seq<char> {
    if secs / 86400 == now / 86400 {
        clock_text(secs) + " UTC"@
    } else {
        stamp(secs)
    }
}

/// The moment in the form of RFC 3339.
pub open spec fn rfc3339_of(secs: nat) -> Seq<char> {
    date_text(secs) + "T"@ + clock_text(secs) + ":"@ + two(secs % 60) + "Z"@
}

fn two_digits(n: u64) -> (r: String)
    ensures
        r@ == two(n as nat),
{
    text::pad_left(text::decimal(n).as_str(), '0', 2)
}

fn clock(secs: u64) -> (r: String)
    ensures
        r@ == clock_text(secs as nat),
{
    let mut out = two_digits(secs % 86400 / 3600);
    out.append(":");
    out.append(two_digits(secs % 3600 / 60).as_str());
    out
}

fn day(secs: u64) -> (r: String)
    ensures
        r@ == date_text(secs as nat),
{
    let d = date(secs);
    let mut out = text::pad_left(text::decimal(d.year).as_str(), '0', 4);
    out.append("-");
    out.append(two_digits(d.month).as_str());
    out.append("-");
    out.append(two_digits(d.day).as_str());
    out
}

/// Writes a moment with its date.
pub fn stamp_text(secs: u64) -> (r: String)
    ensures
        r@ == stamp(secs as nat),
{
    let mut out = day(secs);
    out.append(" ");
    out.append(clock(secs).as_str());
    out.append(" UTC");
    out
}

/// Writes a moment for a reader of `now`.
pub fn near_stamp_text(secs: u64, now: u64) -> (r: String)
    ensures
        r@ == near_stamp(secs as nat, now as nat),
{
    if secs / 86400 == now / 86400 {
        let mut out = clock(secs);
        out.append(" UTC");
        out
    } else {
        stamp_text(secs)
    }
}

/// Writes a moment in the form of RFC 3339.
pub fn rfc3339(secs: u64) -> (r: String)
    ensures
        r@ == rfc3339_of(secs as nat),
{
    let mut out = day(secs);
    out.append("T");
    out.append(clock(secs).as_str());
    out.append(":");
    out.append(two_digits(secs % 60).as_str());
    out.append("Z");
    out
}

/// Every fourth year is a leap year, but of the last years of the centuries only
/// every fourth one.
pub proof fn law_which_years_are_leap_years(year: nat)
    ensures
        year % 400 == 0 ==> leap(year),
        year % 100 == 0 && year % 400 != 0 ==> !leap(year),
        year % 4 == 0 && year % 100 != 0 ==> leap(year),
        year % 4 != 0 ==> !leap(year),
{
}

/// The day after a day is the next day of its month, or the first day of the
/// next month, or the first day of the next year. The day 0 is the first day of
/// 1970.
pub proof fn law_the_day_after_a_day(a: Date, b: Date)
    requires
        a.valid(),
        b.valid(),
        a.year < u64::MAX,
    ensures
        a.number() == 0 <==> a.year == 1970 && a.month == 1 && a.day == 1,
        b.number() == a.number() + 1 ==> ({
            let last = if a.month == 2 {
                if a.year % 4 == 0 && (a.year % 100 != 0 || a.year % 400 == 0) {
                    29
                } else {
                    28int
                }
            } else if a.month == 4 || a.month == 6 || a.month == 9 || a.month == 11 {
                30
            } else {
                31
            };
            &&& a.day <= last
            &&& a.day < last ==> b.year == a.year && b.month == a.month && b.day == a.day + 1
            &&& a.day == last && a.month < 12 ==> b.year == a.year && b.month == a.month + 1 && b.day
                == 1
            &&& a.day == last && a.month == 12 ==> b.year == a.year + 1 && b.month == 1 && b.day == 1
        }),
{
    let first = Date { year: 1970, month: 1, day: 1 };
    assert(first.valid());
    assert(first.number() == 0) by {
        assert(days_before_year(1970) == 0);
        assert(days_before_month(1970, 1) == 0);
    }
    if a.number() == 0 {
        law_one_date_for_one_day(a, first);
    }
    let y = a.year as nat;
    let m = a.month as nat;
    let next = if a.day < month_len(y, m) {
        Date { year: a.year, month: a.month, day: (a.day + 1) as u64 }
    } else if a.month < 12 {
        Date { year: a.year, month: (a.month + 1) as u64, day: 1 }
    } else {
        Date { year: (a.year + 1) as u64, month: 1, day: 1 }
    };
    assert(next.valid());
    if a.day == month_len(y, m) {
        if a.month < 12 {
            assert(days_before_month(y, m + 1) == days_before_month(y, m) + month_len(y, m));
        } else {
            lemma_months_of_a_year(y);
            assert(days_before_year(y + 1) == days_before_year(y) + year_len(y));
            assert(days_before_month(y + 1, 1) == 0);
        }
    }
    assert(next.number() == a.number() + 1);
    if b.number() == a.number() + 1 {
        law_one_date_for_one_day(b, next);
    }
}

proof fn lemma_months_of_a_year(y: nat)
    ensures
        days_before_month(y, 12) + 31 == year_len(y),
{
    reveal_with_fuel(days_before_month, 13);
}

/// Two days in a row have two dates in a row.
pub proof fn law_the_dates_of_two_days(days: u64, a: Date, b: Date)
    requires
        days < u64::MAX / 86400,
        call_ensures(date_of, (days,), a),
        call_ensures(date_of, ((days + 1) as u64,), b),
    ensures
        a.valid() && b.valid(),
        b.number() == a.number() + 1,
        days == 0 ==> a == (Date { year: 1970, month: 1, day: 1 }),
{
    if days == 0 {
        let first = Date { year: 1970, month: 1, day: 1 };
        assert(days_before_year(1970) == 0);
        assert(days_before_month(1970, 1) == 0);
        law_one_date_for_one_day(a, first);
    }
}

/// A moment shows the date of its day, and the hour, the minute and the second
/// that have passed in it.
pub proof fn law_the_parts_of_a_moment(d: Date, hour: nat, minute: nat, second: nat)
    requires
        d.valid(),
        hour < 24,
        minute < 60,
        second < 60,
    ensures
        ({
            let secs = d.number() * 86400 + hour * 3600 + minute * 60 + second;
            let day = text::padded(text::digits(d.year as nat), '0', 4) + "-"@ + two(d.month as nat)
                + "-"@ + two(d.day as nat);
            &&& rfc3339_of(secs) == day + "T"@ + (two(hour) + ":"@ + two(minute)) + ":"@ + two(
                second,
            ) + "Z"@
            &&& stamp(secs) == day + " "@ + (two(hour) + ":"@ + two(minute)) + " UTC"@
        }),
{
    let secs = d.number() * 86400 + hour * 3600 + minute * 60 + second;
    assert(secs / 86400 == d.number());
    let e = date_at(secs);
    assert(d.valid() && d.number() == secs / 86400);
    assert(e.valid() && e.number() == secs / 86400);
    law_one_date_for_one_day(d, e);
    assert(secs % 86400 == hour * 3600 + minute * 60 + second);
    assert((hour * 3600 + minute * 60 + second) / 3600 == hour);
    assert(secs % 3600 == minute * 60 + second);
    assert((minute * 60 + second) / 60 == minute);
    assert(secs % 60 == second);
}

/// A moment of another day shows its date, and a moment of the same day does
/// not.
pub proof fn law_another_day_shows_its_date(secs: u64, now: u64, near: String, full: String)
    requires
        call_ensures(near_stamp_text, (secs, now), near),
        call_ensures(stamp_text, (secs,), full),
    ensures
        secs as nat / 86400 != now as nat / 86400 ==> near@ == full@,
        secs as nat / 86400 == now as nat / 86400 ==> near@ == full@.skip(
            full@.len() - near@.len(),
        ) && near@.len() < full@.len(),
{
    reveal_strlit(" ");
    let n = secs as nat;
    let tail = clock_text(n) + " UTC"@;
    assert(stamp(n) == date_text(n) + " "@ + tail);
    assert(stamp(n).skip(stamp(n).len() - tail.len()) == tail);
}

} // verus!
