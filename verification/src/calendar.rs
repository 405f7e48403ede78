//! Proleptic Gregorian calendar dates as plain values.
//!
//! A date is a year, month and day triple; `day_number` maps it to the count
//! of days since the calendar's origin, with day 1 being January 1 of year 1,
//! a Monday. All week arithmetic in this crate is done on day numbers.

use vstd::prelude::*;
use vstd::arithmetic::div_mod::{
    lemma_fundamental_div_mod, lemma_fundamental_div_mod_converse_div, lemma_mod_mod,
};

verus! {

/// First year of the supported date range.
pub const MIN_YEAR: u32 = 1;

/// Last year of the supported date range.
pub const MAX_YEAR: u32 = 9999;

/// Gregorian leap year rule: every fourth year, except centuries that are not
/// divisible by 400.
pub open spec fn is_leap_year(y: int) -> bool {
    (y % 4 == 0 && y % 100 != 0) || y % 400 == 0
}

pub open spec fn days_in_year(y: int) -> int {
    if is_leap_year(y) {
        366
    } else {
        365
    }
}

/// Length of month `m` (1 = January .. 12 = December) in year `y`.
pub open spec fn days_in_month(y: int, m: int) -> int {
    if m == 2 {
        if is_leap_year(y) {
            29
        } else {
            28
        }
    } else if m == 4 || m == 6 || m == 9 || m == 11 {
        30
    } else {
        31
    }
}

/// Days of year `y` that lie strictly before month `m`.
pub open spec fn days_before_month(y: int, m: int) -> int
    decreases m,
{
    if m <= 1 {
        0
    } else {
        days_before_month(y, m - 1) + days_in_month(y, m - 1)
    }
}

/// Days that lie strictly before January 1 of year `y`, counting from the
/// calendar's origin: the closed form of summing `days_in_year` over all
/// earlier years.
pub open spec fn days_before_year(y: int) -> int {
    365 * (y - 1) + (y - 1) / 4 - (y - 1) / 100 + (y - 1) / 400
}

/// Day number of the given date; January 1 of year 1 is day 1.
pub open spec fn day_number(y: int, m: int, d: int) -> int {
    days_before_year(y) + days_before_month(y, m) + d
}

pub open spec fn valid_ymd(y: int, m: int, d: int) -> bool {
    &&& MIN_YEAR <= y <= MAX_YEAR
    &&& 1 <= m <= 12
    &&& 1 <= d <= days_in_month(y, m)
}

/// A calendar date within the supported range.
#[derive(Clone, Copy, PartialEq, Eq, Structural, Debug)]
pub struct Date {
    pub year: u32,
    pub month: u8,
    pub day: u8,
}

impl Date {
    pub open spec fn wf(self) -> bool {
        valid_ymd(self.year as int, self.month as int, self.day as int)
    }

    pub open spec fn num(self) -> int {
        day_number(self.year as int, self.month as int, self.day as int)
    }

    /// Checked constructor: `Some` exactly on dates of the supported range.
    pub fn from_ymd(year: u32, month: u8, day: u8) -> (r: Option<Date>)
        ensures
            r is Some <==> valid_ymd(year as int, month as int, day as int),
            r matches Some(d) ==> d == (Date { year, month, day }),
    {
        if MIN_YEAR <= year && year <= MAX_YEAR && 1 <= month && month <= 12 {
            let dim = days_in_month_exec(year as u64, month as u64);
            if 1 <= day && day as u64 <= dim {
                Some(Date { year, month, day })
            } else {
                None
            }
        } else {
            None
        }
    }
}

/// How division by a positive constant changes when the dividend drops by one.
proof fn lemma_div_step(n: int, k: int)
    requires
        k > 0,
    ensures
        n / k == (n - 1) / k + if n % k == 0 {
            1int
        } else {
            0int
        },
{
    let q = n / k;
    let r = n % k;
    lemma_fundamental_div_mod(n, k);
    if r == 0 {
        assert((q - 1) * k + (k - 1) == k * q - 1) by (nonlinear_arith);
        lemma_fundamental_div_mod_converse_div(n - 1, k, q - 1, k - 1);
    } else {
        assert(q * k == k * q) by (nonlinear_arith);
        lemma_fundamental_div_mod_converse_div(n - 1, k, q, r - 1);
    }
}

/// The closed form `days_before_year` grows by exactly one year length per year.
pub proof fn lemma_days_before_year_step(y: int)
    ensures
        days_before_year(y + 1) == days_before_year(y) + days_in_year(y),
{
    lemma_div_step(y, 4);
    lemma_div_step(y, 100);
    lemma_div_step(y, 400);
    assert(y % 400 == 0 ==> y % 100 == 0) by {
        lemma_mod_mod(y, 100, 4);
    }
    assert(y % 100 == 0 ==> y % 4 == 0) by {
        lemma_mod_mod(y, 4, 25);
    }
}

/// The cumulative month offsets, spelled out so that callers can reason about
/// any month without unfolding the recursion themselves.
pub proof fn lemma_days_before_month_table(y: int)
    ensures
        days_before_month(y, 1) == 0,
        days_before_month(y, 2) == 31,
        days_before_month(y, 3) == 59 + leap_adjust(y),
        days_before_month(y, 4) == 90 + leap_adjust(y),
        days_before_month(y, 5) == 120 + leap_adjust(y),
        days_before_month(y, 6) == 151 + leap_adjust(y),
        days_before_month(y, 7) == 181 + leap_adjust(y),
        days_before_month(y, 8) == 212 + leap_adjust(y),
        days_before_month(y, 9) == 243 + leap_adjust(y),
        days_before_month(y, 10) == 273 + leap_adjust(y),
        days_before_month(y, 11) == 304 + leap_adjust(y),
        days_before_month(y, 12) == 334 + leap_adjust(y),
        days_before_month(y, 13) == days_in_year(y),
{
    reveal_with_fuel(days_before_month, 14);
}

pub open spec fn leap_adjust(y: int) -> int {
    if is_leap_year(y) {
        1
    } else {
        0
    }
}

/// A valid day of month lands within its year: its day-of-year index is
/// between 1 and the year's length.
pub proof fn lemma_day_of_year_bounds(y: int, m: int, d: int)
    requires
        1 <= m <= 12,
        1 <= d <= days_in_month(y, m),
    ensures
        1 <= days_before_month(y, m) + d <= days_in_year(y),
{
    lemma_days_before_month_table(y);
}

/// Yearly day counts are strictly increasing, by at least 365 per year.
pub proof fn lemma_year_span(y1: int, y2: int)
    requires
        y1 <= y2,
    ensures
        days_before_year(y1) + 365 * (y2 - y1) <= days_before_year(y2),
    decreases y2 - y1,
{
    if y1 < y2 {
        lemma_year_span(y1, y2 - 1);
        lemma_days_before_year_step(y2 - 1);
    }
}

/// Day `t` falls within year `y`.
pub open spec fn day_in_year(t: int, y: int) -> bool {
    day_number(y, 1, 1) <= t < day_number(y + 1, 1, 1)
}

/// The year that day `t` falls in.
pub open spec fn year_of_day(t: int) -> int {
    choose|y: int| day_in_year(t, y)
}

/// Membership in a year determines the year uniquely.
pub proof fn lemma_year_of_day_unique(t: int, y: int)
    requires
        day_in_year(t, y),
    ensures
        year_of_day(t) == y,
{
    assert(exists|yy: int| day_in_year(t, yy));
    let yc = year_of_day(t);
    assert(day_in_year(t, yc));
    lemma_days_before_month_table(y);
    lemma_days_before_month_table(yc);
    if yc < y {
        lemma_year_span(yc + 1, y);
    }
    if y < yc {
        lemma_year_span(y + 1, yc);
    }
}

fn is_leap_year_exec(y: u64) -> (r: bool)
    ensures
        r == is_leap_year(y as int),
{
    (y % 4 == 0 && y % 100 != 0) || y % 400 == 0
}

pub(crate) fn days_in_month_exec(y: u64, m: u64) -> (r: u64)
    requires
        1 <= m <= 12,
    ensures
        r == days_in_month(y as int, m as int),
{
    if m == 2 {
        if is_leap_year_exec(y) {
            29
        } else {
            28
        }
    } else if m == 4 || m == 6 || m == 9 || m == 11 {
        30
    } else {
        31
    }
}

fn days_before_month_exec(y: u64, m: u64) -> (r: u64)
    requires
        1 <= m <= 13,
    ensures
        r == days_before_month(y as int, m as int),
{
    proof {
        lemma_days_before_month_table(y as int);
    }
    let base: u64 = match m {
        1 => 0,
        2 => 31,
        3 => 59,
        4 => 90,
        5 => 120,
        6 => 151,
        7 => 181,
        8 => 212,
        9 => 243,
        10 => 273,
        11 => 304,
        12 => 334,
        _ => 365,
    };
    if m >= 3 && is_leap_year_exec(y) {
        base + 1
    } else {
        base
    }
}

fn days_before_year_exec(y: u64) -> (r: u64)
    requires
        1 <= y <= 10001,
    ensures
        r == days_before_year(y as int),
{
    let yy = y - 1;
    365 * yy + yy / 4 - yy / 100 + yy / 400
}

/// Day number of a date, as executable arithmetic. Accepts one year past
/// `MAX_YEAR` so that week computations can look at the following January 1.
pub(crate) fn day_number_exec(y: u64, m: u64, d: u64) -> (r: u64)
    requires
        1 <= y <= 10000,
        1 <= m <= 13,
        1 <= d <= 31,
    ensures
        r == day_number(y as int, m as int, d as int),
        r >= 1,
{
    let a = days_before_year_exec(y);
    let b = days_before_month_exec(y, m);
    proof {
        lemma_days_before_month_table(y as int);
        lemma_year_span(1, y as int);
    }
    a + b + d
}

} // verus!
