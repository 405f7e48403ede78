//! ISO-8601 week numbers and the weekly rotation.
//!
//! A week runs from Monday to Sunday; week 1 of a year is the week that
//! contains the year's first Thursday. Equivalently, a date's week number
//! says which Thursday of the year the date's week contains, and that is
//! how the spec functions below phrase it: take the Thursday of the date's
//! week, find the year that Thursday falls in, and count in steps of seven
//! days from that year's January 1.
//!
//! The rotation maps the week number of a target date (one week back, the
//! date itself, or one week ahead) to a position in the name list, modulo
//! the list length. Lists of fewer than two names carry no rotation; each
//! offset then answers with its own fixed placeholder name.

use vstd::prelude::*;
use vstd::arithmetic::div_mod::{lemma_fundamental_div_mod, lemma_small_mod};
use crate::calendar::{
    day_in_year, day_number, day_number_exec, days_in_year, lemma_day_of_year_bounds,
    lemma_days_before_year_step, lemma_year_of_day_unique, lemma_year_span, year_of_day, Date,
    MAX_YEAR, MIN_YEAR,
};

verus! {

/// Weekday of day number `t`: 0 = Monday .. 6 = Sunday. Day 1 of the
/// calendar, January 1 of year 1, is a Monday.
pub open spec fn weekday_of(t: int) -> int {
    (t - 1) % 7
}

/// Day number of the Thursday in the week of day `t`.
pub open spec fn thursday_of(t: int) -> int {
    t - weekday_of(t) + 3
}

/// The year that the Thursday of `t`'s week falls in: the year whose week
/// count the date contributes to.
pub open spec fn iso_year_of(t: int) -> int {
    year_of_day(thursday_of(t))
}

/// ISO-8601 week number of day `t`: which Thursday of its year the week's
/// Thursday is, counting from 1.
pub open spec fn iso_week_of(t: int) -> int {
    (thursday_of(t) - day_number(iso_year_of(t), 1, 1)) / 7 + 1
}

/// ISO week number of December 31, which the tracker displays as the week
/// count of the year. Note that a late December day can already belong to
/// week 1 of the following year.
pub open spec fn weeks_in_year_spec(y: int) -> int {
    iso_week_of(day_number(y, 12, 31))
}

/// The Thursday of a week lies at most three days from any day of the week,
/// and never before day 4.
proof fn lemma_thursday_bounds(t: int)
    requires
        t >= 1,
    ensures
        t - 3 <= thursday_of(t) <= t + 3,
        thursday_of(t) >= 4,
{
    lemma_fundamental_div_mod(t - 1, 7);
    if t - 1 < 7 {
        lemma_small_mod((t - 1) as nat, 7);
    }
}

/// Executable ISO week number of day `t`, guided by a year `y` that `t` is
/// known to lie within a week of.
fn iso_week_of_exec(t: u64, y: u64) -> (w: u64)
    requires
        MIN_YEAR <= y <= MAX_YEAR,
        t >= 1,
        day_number(y as int, 1, 1) - 7 <= t < day_number(y as int + 1, 1, 1) + 7,
    ensures
        w == iso_week_of(t as int),
        1 <= w <= 53,
{
    let ghost ti = t as int;
    let wd = (t - 1) % 7;
    proof {
        lemma_thursday_bounds(ti);
        if t - 1 < 7 {
            lemma_small_mod((t - 1) as nat, 7);
        }
        assert(wd <= t - 1);
    }
    let thu = t - wd + 3;
    assert(thu == thursday_of(ti));
    let jan1_y = day_number_exec(y, 1, 1);
    proof {
        lemma_days_before_year_step(y as int - 1);
        lemma_days_before_year_step(y as int);
        lemma_days_before_year_step(y as int + 1);
    }
    let iy: u64;
    if y > MIN_YEAR as u64 && thu < jan1_y {
        iy = y - 1;
        proof {
            assert(day_in_year(thu as int, y as int - 1));
            lemma_year_of_day_unique(thu as int, y as int - 1);
        }
    } else {
        let jan1_next = day_number_exec(y + 1, 1, 1);
        if thu >= jan1_next {
            iy = y + 1;
            proof {
                assert(day_in_year(thu as int, y as int + 1));
                lemma_year_of_day_unique(thu as int, y as int + 1);
            }
        } else {
            iy = y;
            proof {
                if y == MIN_YEAR {
                    assert(day_number(y as int, 1, 1) == 1);
                }
                assert(day_in_year(thu as int, y as int));
                lemma_year_of_day_unique(thu as int, y as int);
            }
        }
    }
    let jan1_iy = day_number_exec(iy, 1, 1);
    proof {
        assert(day_in_year(thu as int, iy as int));
        lemma_days_before_year_step(iy as int);
        assert((thu as int) - (jan1_iy as int) < days_in_year(iy as int));
    }
    (thu - jan1_iy) / 7 + 1
}

/// A date lies within its own year, in day numbers.
proof fn lemma_date_in_its_year(date: Date)
    requires
        date.wf(),
    ensures
        day_number(date.year as int, 1, 1) <= date.num() < day_number(date.year as int + 1, 1, 1),
{
    let y = date.year as int;
    lemma_day_of_year_bounds(y, date.month as int, date.day as int);
    lemma_days_before_year_step(y);
}

/// ISO week number of a date.
pub fn week_number(date: &Date) -> (w: u64)
    requires
        date.wf(),
    ensures
        w == iso_week_of(date.num()),
        1 <= w <= 53,
{
    proof {
        lemma_date_in_its_year(*date);
    }
    let t = day_number_exec(date.year as u64, date.month as u64, date.day as u64);
    iso_week_of_exec(t, date.year as u64)
}

/// ISO week number of December 31 of the date's year: the number the tracker
/// shows as the total of the year.
pub fn weeks_in_year(date: &Date) -> (w: u64)
    requires
        date.wf(),
    ensures
        w == weeks_in_year_spec(date.year as int),
        1 <= w <= 53,
{
    let y = date.year as u64;
    proof {
        let dec31 = Date { year: date.year, month: 12, day: 31 };
        assert(dec31.wf());
        lemma_date_in_its_year(dec31);
    }
    let t = day_number_exec(y, 12, 31);
    iso_week_of_exec(t, y)
}

/// The three week offsets the tracker displays.
#[derive(Clone, Copy, PartialEq, Eq, Structural, Debug)]
pub enum RotationOffset {
    Previous,
    Current,
    Next,
}

impl RotationOffset {
    /// Whole weeks between "now" and the offset's target.
    pub open spec fn delta_weeks(self) -> int {
        match self {
            RotationOffset::Previous => -1,
            RotationOffset::Current => 0,
            RotationOffset::Next => 1,
        }
    }
}

/// The assignee of a week: the week's number, for display, and the name
/// drawn from the list.
pub struct AssigneeResult {
    pub week_index: u64,
    pub name: String,
}

/// Day number targeted by an offset from a date.
pub open spec fn shifted_day(date: Date, off: RotationOffset) -> int {
    date.num() + 7 * off.delta_weeks()
}

/// Week number shown for an offset from a date.
pub open spec fn assignee_week(date: Date, off: RotationOffset) -> int {
    iso_week_of(shifted_day(date, off))
}

/// Fixed display name for each offset when the list is too short to rotate.
pub open spec fn placeholder_text(off: RotationOffset) -> Seq<char> {
    match off {
        RotationOffset::Previous => "Phillip J. Fry"@,
        RotationOffset::Current => "Turanga Leela"@,
        RotationOffset::Next => "Dr. John A. Zoidberg"@,
    }
}

/// Name shown for an offset from a date: position `week mod length` of the
/// list when it holds at least two names, the offset's placeholder otherwise.
pub open spec fn assignee_name(date: Date, off: RotationOffset, names: Seq<Seq<char>>) -> Seq<
    char,
> {
    if names.len() >= 2 {
        names[assignee_week(date, off) % (names.len() as int)]
    } else {
        placeholder_text(off)
    }
}

/// Dates for which all three offsets stay inside the supported year range.
pub open spec fn rotation_date_ok(date: Date) -> bool {
    date.wf() && MIN_YEAR < date.year < MAX_YEAR
}

/// Previous, current or upcoming assignee for a date and a name list.
pub fn assignee(date: &Date, off: RotationOffset, names: &Vec<String>) -> (r: AssigneeResult)
    requires
        rotation_date_ok(*date),
    ensures
        r.week_index == assignee_week(*date, off),
        r.name@ == assignee_name(*date, off, names.deep_view()),
{
    proof {
        lemma_date_in_its_year(*date);
        lemma_days_before_year_step(date.year as int - 1);
        lemma_year_span(1, date.year as int - 1);
    }
    let t = day_number_exec(date.year as u64, date.month as u64, date.day as u64);
    let target = match off {
        RotationOffset::Previous => t - 7,
        RotationOffset::Current => t,
        RotationOffset::Next => t + 7,
    };
    let w = iso_week_of_exec(target, date.year as u64);
    let n = names.len();
    if n >= 2 {
        let idx = (w % (n as u64)) as usize;
        proof {
            assert(names.deep_view()[idx as int] == names[idx as int]@);
        }
        AssigneeResult { week_index: w, name: names[idx].clone() }
    } else {
        let name = match off {
            RotationOffset::Previous => "Phillip J. Fry".to_owned(),
            RotationOffset::Current => "Turanga Leela".to_owned(),
            RotationOffset::Next => "Dr. John A. Zoidberg".to_owned(),
        };
        AssigneeResult { week_index: w, name }
    }
}

/// With at least two names, the current assignee is the name at position
/// `week number mod list length`: the rotation is a pure function of the
/// date's ISO week number and the list.
pub proof fn lemma_rotation_is_week_modulo(date: Date, names: Seq<Seq<char>>)
    requires
        names.len() >= 2,
    ensures
        assignee_name(date, RotationOffset::Current, names) == names[iso_week_of(date.num()) % (
        names.len() as int)],
{
    assert(shifted_day(date, RotationOffset::Current) == date.num());
}

/// Next week's schedule agrees with this week's: the week shown as "next"
/// from a date is the week shown as "current" from the date seven days later.
pub proof fn lemma_offset_consistency(date: Date, later: Date)
    requires
        later.num() == date.num() + 7,
    ensures
        assignee_week(date, RotationOffset::Next) == assignee_week(later, RotationOffset::Current),
{
    assert(shifted_day(date, RotationOffset::Next) == shifted_day(
        later,
        RotationOffset::Current,
    ));
}

/// With fewer than two names every offset answers with its own fixed
/// placeholder, whatever the date: no list position is ever read.
pub proof fn lemma_small_list_placeholder(date: Date, off: RotationOffset, names: Seq<Seq<char>>)
    requires
        names.len() < 2,
    ensures
        assignee_name(date, off, names) == placeholder_text(off),
{
}

/// The decimal digit characters.
pub open spec fn digit_char(d: int) -> char {
    if d == 0 {
        '0'
    } else if d == 1 {
        '1'
    } else if d == 2 {
        '2'
    } else if d == 3 {
        '3'
    } else if d == 4 {
        '4'
    } else if d == 5 {
        '5'
    } else if d == 6 {
        '6'
    } else if d == 7 {
        '7'
    } else if d == 8 {
        '8'
    } else {
        '9'
    }
}

/// The decimal digits of a number, most significant first.
pub open spec fn dec_str(n: int) -> Seq<char>
    decreases n,
{
    if n < 10 {
        seq![digit_char(n)]
    } else {
        dec_str(n / 10).push(digit_char(n % 10))
    }
}

fn digit_str(d: u64) -> (r: &'static str)
    requires
        d < 10,
    ensures
        r@ == seq![digit_char(d as int)],
{
    proof {
        reveal_strlit("0");
        reveal_strlit("1");
        reveal_strlit("2");
        reveal_strlit("3");
        reveal_strlit("4");
        reveal_strlit("5");
        reveal_strlit("6");
        reveal_strlit("7");
        reveal_strlit("8");
        reveal_strlit("9");
    }
    let r = match d {
        0 => "0",
        1 => "1",
        2 => "2",
        3 => "3",
        4 => "4",
        5 => "5",
        6 => "6",
        7 => "7",
        8 => "8",
        _ => "9",
    };
    proof {
        assert(r@ =~= seq![digit_char(d as int)]);
    }
    r
}

/// A number in decimal notation.
fn dec_string(n: u64) -> (r: String)
    ensures
        r@ == dec_str(n as int),
    decreases n,
{
    if n < 10 {
        digit_str(n).to_owned()
    } else {
        let mut s = dec_string(n / 10);
        s.append(digit_str(n % 10));
        proof {
            assert(s@ =~= dec_str(n as int / 10).push(digit_char(n as int % 10)));
        }
        s
    }
}

/// The week badge the tracker displays: the date's ISO week number over the
/// year's week count, as in `10/52`.
pub fn week_label(date: &Date) -> (r: String)
    requires
        date.wf(),
    ensures
        r@ == dec_str(iso_week_of(date.num())) + seq!['/'] + dec_str(
            weeks_in_year_spec(date.year as int),
        ),
{
    let w = week_number(date);
    let total = weeks_in_year(date);
    let mut s = dec_string(w);
    proof {
        reveal_strlit("/");
        assert("/"@ =~= seq!['/']);
    }
    s.append("/");
    let t = dec_string(total);
    s.append(t.as_str());
    proof {
        assert(s@ =~= dec_str(iso_week_of(date.num())) + seq!['/'] + dec_str(
            weeks_in_year_spec(date.year as int),
        ));
    }
    s
}

/// The three placeholders are pairwise distinct, so the offsets can be told
/// apart even before any names are entered.
pub proof fn lemma_placeholders_distinct()
    ensures
        placeholder_text(RotationOffset::Previous) != placeholder_text(RotationOffset::Current),
        placeholder_text(RotationOffset::Current) != placeholder_text(RotationOffset::Next),
        placeholder_text(RotationOffset::Previous) != placeholder_text(RotationOffset::Next),
{
    reveal_strlit("Phillip J. Fry");
    reveal_strlit("Turanga Leela");
    reveal_strlit("Dr. John A. Zoidberg");
    assert(placeholder_text(RotationOffset::Previous).len() == 14);
    assert(placeholder_text(RotationOffset::Current).len() == 13);
    assert(placeholder_text(RotationOffset::Next).len() == 20);
}

} // verus!
