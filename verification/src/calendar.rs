//! The proleptic Gregorian calendar, counted in days from 1600-01-01.

use vstd::arithmetic::div_mod::{lemma_hoist_over_denominator, lemma_mod_multiples_vanish};
use vstd::prelude::*;

verus! {

/// Whether `year` is a leap year of the Gregorian calendar.
pub open spec fn leap_year(year: int) -> bool {
    year % 4 == 0 && (year % 100 != 0 || year % 400 == 0)
}

/// The days from 1600-01-01 to the first day of `year`.
pub open spec fn days_before_year(year: int) -> int {
    365 * (year - 1600) + (year - 1597) / 4 - (year - 1501) / 100 + (year - 1201) / 400
}

/// Whether day `index`, counted from 1600-01-01, lies in `year`.
pub open spec fn in_year(index: int, year: int) -> bool {
    days_before_year(year) <= index < days_before_year(year + 1)
}

/// The year that day `index` lies in.
pub open spec fn civil_year(index: int) -> int {
    choose|year: int| in_year(index, year)
}

/// The days of a month, where `leap` says whether February has 29 of them.
pub open spec fn month_length(month: int, leap: bool) -> int {
    if month == 2 {
        if leap {
            29
        } else {
            28
        }
    } else if month == 4 || month == 6 || month == 9 || month == 11 {
        30
    } else {
        31
    }
}

/// The month and day reached by counting `n` days, the first of them day 1,
/// from the start of `month`. A count that leaves December ends in month 13.
pub open spec fn month_and_day(n: int, month: int, leap: bool) -> (int, int)
    decreases 13 - month,
{
    if month > 12 || n <= month_length(month, leap) {
        (month, n)
    } else {
        month_and_day(n - month_length(month, leap), month + 1, leap)
    }
}

/// The days of a year before the first day of `month`.
pub open spec fn days_before_month(month: int, leap: bool) -> int
    decreases month,
{
    if month <= 1 {
        0
    } else {
        days_before_month(month - 1, leap) + month_length(month - 1, leap)
    }
}

/// The days from 1600-01-01 to a date.
pub open spec fn days_of_date(year: int, month: int, day: int) -> int {
    days_before_year(year) + days_before_month(month, leap_year(year)) + day - 1
}

/// The days from 1600-01-01 to 1970-01-01.
pub const UNIX_EPOCH_INDEX: i64 = 135_140;

/// Each year is 365 days long, a leap year 366.
pub proof fn lemma_year_length(year: int)
    ensures
        days_before_year(year + 1) - days_before_year(year) == (if leap_year(year) {
            366int
        } else {
            365int
        }),
{
    lemma_quotient_step(year - 1597, 4);
    lemma_quotient_step(year - 1501, 100);
    lemma_quotient_step(year - 1201, 400);
    assert((year - 1596) % 4 == 0 <==> year % 4 == 0);
    assert((year - 1500) % 100 == 0 <==> year % 100 == 0);
    assert((year - 1200) % 400 == 0 <==> year % 400 == 0);
    assert(year % 400 == 0 ==> year % 100 == 0);
    assert(year % 100 == 0 ==> year % 4 == 0);
}

proof fn lemma_quotient_step(x: int, d: int)
    requires
        d == 4 || d == 100 || d == 400,
    ensures
        (x + 1) / d - x / d == (if (x + 1) % d == 0 {
            1int
        } else {
            0int
        }),
{
}

/// Later years start later.
pub proof fn lemma_years_ordered(a: int, b: int)
    requires
        a < b,
    ensures
        days_before_year(a) + 365 <= days_before_year(b),
    decreases b - a,
{
    lemma_year_length(b - 1);
    if a < b - 1 {
        lemma_years_ordered(a, b - 1);
    }
}

/// A day lies in one year only.
pub proof fn lemma_civil_year_unique(index: int, year: int)
    requires
        in_year(index, year),
    ensures
        civil_year(index) == year,
{
    let other = civil_year(index);
    assert(in_year(index, other));
    if other < year {
        if other + 1 < year {
            lemma_years_ordered(other + 1, year);
        }
    }
    if year < other {
        if year + 1 < other {
            lemma_years_ordered(year + 1, other);
        }
    }
}

/// Every day from 1600-01-01 on lies in a year.
pub proof fn lemma_some_year(index: int)
    requires
        0 <= index,
    ensures
        in_year(index, civil_year(index)),
    decreases index,
{
    if index < 366 {
        assert(in_year(index, 1600));
    } else {
        lemma_some_year(index - 1);
        let year = civil_year(index - 1);
        lemma_year_length(year + 1);
        assert(in_year(index, year) || in_year(index, year + 1));
    }
}

/// Counting through the months and counting days are inverse to each other.
pub proof fn lemma_month_and_day(n: int, month: int, leap: bool)
    requires
        1 <= month <= 12,
        1 <= n,
        days_before_month(month, leap) + n <= days_before_month(13, leap),
    ensures
        ({
            let (m, d) = month_and_day(n, month, leap);
            &&& month <= m <= 12
            &&& 1 <= d <= month_length(m, leap)
            &&& days_before_month(m, leap) + d == days_before_month(month, leap) + n
        }),
    decreases 13 - month,
{
    if n > month_length(month, leap) {
        assert(days_before_month(month + 1, leap) == days_before_month(month, leap)
            + month_length(month, leap));
        lemma_month_and_day(n - month_length(month, leap), month + 1, leap);
    }
}

/// The months of a year start 31 days apart until March, and from then on 153 days apart
/// for every five of them, 31 or 30 for each; a leap year has one day more from March on.
pub proof fn law_days_before_month(month: int, leap: bool)
    requires
        1 <= month <= 13,
    ensures
        days_before_month(month, leap) == (if month <= 2 {
            31 * (month - 1)
        } else {
            (153 * (month - 3) + 2) / 5 + 59 + (if leap {
                1int
            } else {
                0int
            })
        }),
        month <= 12 ==> days_before_month(month + 1, leap) == days_before_month(month, leap)
            + month_length(month, leap),
{
    reveal_with_fuel(days_before_month, 14);
}

/// The months of a year make up the year.
pub proof fn lemma_year_of_months(leap: bool)
    ensures
        days_before_month(13, leap) == (if leap {
            366int
        } else {
            365int
        }),
{
    reveal_with_fuel(days_before_month, 14);
}

pub fn is_leap_year(year: u64) -> (leap: bool)
    ensures
        leap == leap_year(year as int),
{
    year % 4 == 0 && (year % 100 != 0 || year % 400 == 0)
}

const YEAR_DAYS: u64 = 365;

const YEAR_DAYS_4: u64 = 1461;

const YEAR_DAYS_100: u64 = 36_525;

const YEAR_DAYS_400: u64 = 146_097;

/// A year given by its place in the 400, 100 and 4 year cycles.
proof fn lemma_year_of_parts(a: int, b: int, c: int, d: int)
    requires
        0 <= a,
        0 <= b <= 3,
        0 <= c <= 24,
        0 <= d <= 3,
    ensures
        ({
            let year = 1600 + a * 400 + b * 100 + c * 4 + d;
            let started_4 = if d > 0 { 1int } else { 0int };
            let started_100 = if c > 0 || d > 0 { 1int } else { 0int };
            let started_400 = if b > 0 || c > 0 || d > 0 { 1int } else { 0int };
            &&& days_before_year(year) == 146_097 * a + 36_524 * b + 1461 * c + 365 * d + started_4
                - started_100 + started_400
            &&& leap_year(year) <==> d == 0 && (c > 0 || b == 0)
        }),
{
    let year = 1600 + a * 400 + b * 100 + c * 4 + d;
    let rest = 4 * c + d;
    let k4 = 100 * a + 25 * b + c;
    let k100 = 4 * a + b;
    assert((year - 1597) / 4 == k4 + (d + 3) / 4) by {
        lemma_hoist_over_denominator(d + 3, k4, 4);
    }
    assert((year - 1501) / 100 == k100 + (rest + 99) / 100) by {
        lemma_hoist_over_denominator(rest + 99, k100, 100);
    }
    assert((year - 1201) / 400 == a + (100 * b + rest + 399) / 400) by {
        lemma_hoist_over_denominator(100 * b + rest + 399, a, 400);
    }
    assert(year % 4 == d) by {
        lemma_mod_multiples_vanish(400 + k4, d, 4);
    }
    assert(year % 100 == rest) by {
        lemma_mod_multiples_vanish(16 + k100, rest, 100);
    }
    assert(year % 400 == 100 * b + rest) by {
        lemma_mod_multiples_vanish(4 + a, 100 * b + rest, 400);
    }
}

/// The year of day `index` and the day's place in it, counted from zero.
pub fn year_and_day(index: u64) -> (found: (u64, u64))
    ensures
        found.0 == civil_year(index as int),
        in_year(index as int, found.0 as int),
        1600 <= found.0,
        found.1 == index - days_before_year(found.0 as int),
{
    let years_400: u64 = index / YEAR_DAYS_400;
    let mut days: u64 = index % YEAR_DAYS_400;

    let years_100: u64;
    if days < YEAR_DAYS_100 {
        years_100 = 0;
    } else {
        years_100 = 1 + (days - YEAR_DAYS_100) / (YEAR_DAYS_100 - 1);
        days = (days - YEAR_DAYS_100) % (YEAR_DAYS_100 - 1);
    }
    assert(years_100 <= 3);
    let ghost days_100 = days;

    let years_4: u64;
    let mut non_leap_year_block = false;
    if years_100 == 0 {
        years_4 = days / YEAR_DAYS_4;
        days = days % YEAR_DAYS_4;
    } else if days < YEAR_DAYS_4 - 1 {
        years_4 = 0;
        non_leap_year_block = true;
    } else {
        years_4 = 1 + (days - (YEAR_DAYS_4 - 1)) / YEAR_DAYS_4;
        days = (days - (YEAR_DAYS_4 - 1)) % YEAR_DAYS_4;
    }
    assert(years_4 <= 24);
    let ghost days_4 = days;

    let years_1: u64;
    if non_leap_year_block {
        years_1 = days / YEAR_DAYS;
        days = days % YEAR_DAYS;
    } else if days < YEAR_DAYS + 1 {
        years_1 = 0;
    } else {
        years_1 = 1 + (days - (YEAR_DAYS + 1)) / YEAR_DAYS;
        days = (days - (YEAR_DAYS + 1)) % YEAR_DAYS;
    }
    assert(years_1 <= 3);

    let year: u64 = 1600 + years_400 * 400 + years_100 * 100 + years_4 * 4 + years_1;
    proof {
        let y = year as int;
        lemma_year_of_parts(
            years_400 as int,
            years_100 as int,
            years_4 as int,
            years_1 as int,
        );
        lemma_year_length(y);
        lemma_civil_year_unique(index as int, y);
    }
    (year, days)
}

/// The month and day reached by counting `n` days from the first of January.
pub fn month_of_day(n: u64, leap: bool) -> (found: (u64, u64))
    ensures
        (found.0 as int, found.1 as int) == month_and_day(n as int, 1, leap),
        found.0 <= 13,
{
    let mut days: u64 = n;
    let mut month: u64 = 1;
    while month <= 12
        invariant
            1 <= month <= 13,
            month_and_day(n as int, 1, leap) == month_and_day(days as int, month as int, leap),
        ensures
            (month as int, days as int) == month_and_day(n as int, 1, leap),
            month <= 13,
        decreases 13 - month,
    {
        let length: u64 = if month == 2 {
            if leap {
                29
            } else {
                28
            }
        } else if month == 4 || month == 6 || month == 9 || month == 11 {
            30
        } else {
            31
        };
        if days > length {
            days -= length;
            month += 1;
        } else {
            break;
        }
    }
    (month, days)
}

/// The calendar is the Gregorian one: every fourth year is a leap year, but of the centuries
/// only every fourth; a leap year has 366 days, any other 365; and it repeats after 400 years,
/// which are 146097 days.
pub proof fn law_gregorian_years(year: int, n: int)
    ensures
        year % 4 != 0 ==> !leap_year(year),
        year % 4 == 0 && year % 100 != 0 ==> leap_year(year),
        year % 100 == 0 ==> (leap_year(year) <==> year % 400 == 0),
        days_before_year(year + 1) == days_before_year(year) + (if leap_year(year) {
            366int
        } else {
            365int
        }),
        days_before_year(year + 400) == days_before_year(year) + 146_097,
        days_before_year(1600) == 0,
        in_year(n, year) ==> civil_year(n) == year,
{
    lemma_year_length(year);
    assert((year + 400 - 1597) / 4 == (year - 1597) / 4 + 100);
    assert((year + 400 - 1501) / 100 == (year - 1501) / 100 + 4);
    assert((year + 400 - 1201) / 400 == (year - 1201) / 400 + 1);
    if in_year(n, year) {
        lemma_civil_year_unique(n, year);
    }
}

} // verus!
