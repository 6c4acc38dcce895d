//! Proleptic-Gregorian calendar dates and datetimes.
//!
//! A date is modelled by its *day number*: the count of days since the
//! 1st of January of year 0 (day number 0). Day numbers make weekday
//! reasoning simple: day 0 was a Saturday, so a day number `k` falls on
//! a Saturday exactly when `k % 7 == 0` and on a Sunday exactly when
//! `k % 7 == 1`.

use vstd::arithmetic::div_mod::{
    lemma_div_nonincreasing, lemma_div_pos_is_pos, lemma_fundamental_div_mod,
    lemma_fundamental_div_mod_converse, lemma_mod_add_multiples_vanish,
    lemma_mod_division_less_than_divisor, lemma_mod_multiples_basic,
};
use vstd::prelude::*;

verus! {

/// Day number of 9999-12-31, the latest date a `CalendarDate` can hold.
pub const MAX_RD: u32 = 3652424;

pub open spec fn is_leap_year(y: int) -> bool {
    y % 4 == 0 && (y % 100 != 0 || y % 400 == 0)
}

pub open spec fn days_in_month_of(y: int, m: int) -> int {
    if m == 2 {
        if is_leap_year(y) {
            29
        } else {
            28
        }
    } else if m == 4 || m == 6 || m == 9 || m == 11 {
        30
    } else {
        31
    }
}

/// Days from the 1st of January of year `y` to the 1st of month `m` of year `y`.
pub open spec fn days_before_month(y: int, m: int) -> int
    decreases m,
{
    if m <= 1 {
        0
    } else {
        days_before_month(y, m - 1) + days_in_month_of(y, m - 1)
    }
}

/// Days from the 1st of January of year 0 to the 1st of January of year `y`,
/// counting one leap day for every leap year in `[0, y)`.
pub open spec fn days_before_year(y: int) -> int {
    365 * y + (y + 3) / 4 - (y + 99) / 100 + (y + 399) / 400
}

/// Day number of the date `y`-`m`-`d`: days since 0000-01-01.
pub open spec fn rd_of(y: int, m: int, d: int) -> int {
    days_before_year(y) + days_before_month(y, m) + d - 1
}

pub open spec fn valid_ymd(y: int, m: int, d: int) -> bool {
    &&& 0 <= y <= 9999
    &&& 1 <= m <= 12
    &&& 1 <= d <= days_in_month_of(y, m)
}

/// Day numbers falling on a Saturday.
pub open spec fn is_saturday_rd(k: int) -> bool {
    k % 7 == 0
}

/// Day numbers falling on a Sunday.
pub open spec fn is_sunday_rd(k: int) -> bool {
    k % 7 == 1
}

/// A proleptic-Gregorian calendar date between 0000-01-01 and 9999-12-31.
#[derive(Clone, Copy, Debug, PartialEq, Eq, Structural)]
pub struct CalendarDate {
    pub year: i32,
    pub month: u32,
    pub day: u32,
}

impl CalendarDate {
    pub open spec fn wf(self) -> bool {
        valid_ymd(self.year as int, self.month as int, self.day as int)
    }

    /// The day number of this date.
    pub open spec fn rd(self) -> int {
        rd_of(self.year as int, self.month as int, self.day as int)
    }
}

/// A time of day with second precision.
#[derive(Clone, Copy, Debug, PartialEq, Eq, Structural)]
pub struct TimeOfDay {
    pub hour: u32,
    pub minute: u32,
    pub second: u32,
}

impl TimeOfDay {
    pub open spec fn wf(self) -> bool {
        self.hour < 24 && self.minute < 60 && self.second < 60
    }
}

/// A calendar date together with a time of day.
#[derive(Clone, Copy, Debug, PartialEq, Eq, Structural)]
pub struct CalendarDateTime {
    pub date: CalendarDate,
    pub time: TimeOfDay,
}

impl CalendarDateTime {
    pub open spec fn wf(self) -> bool {
        self.date.wf() && self.time.wf()
    }

    /// Hours elapsed since 0000-01-01 00:00, ignoring minutes and seconds.
    pub open spec fn total_hours(self) -> int {
        self.date.rd() * 24 + self.time.hour
    }
}

/// Stepping a non-negative numerator up by one raises its quotient exactly
/// when the new numerator is a multiple of the divisor.
proof fn lemma_div_succ(x: int, d: int)
    requires
        0 <= x,
        0 < d,
    ensures
        (x + 1) / d == x / d + if (x + 1) % d == 0 {
            1int
        } else {
            0int
        },
{
    lemma_fundamental_div_mod(x, d);
    lemma_mod_division_less_than_divisor(x, d);
    let q = x / d;
    let r = x % d;
    if r + 1 < d {
        assert(x + 1 == q * d + (r + 1)) by (nonlinear_arith)
            requires
                x == d * q + r,
        ;
        lemma_fundamental_div_mod_converse(x + 1, d, q, r + 1);
    } else {
        assert(x + 1 == (q + 1) * d + 0) by (nonlinear_arith)
            requires
                x == d * q + r,
                r + 1 == d,
        ;
        lemma_fundamental_div_mod_converse(x + 1, d, q + 1, 0);
    }
}

/// A multiple of `a * b` is a multiple of `a`.
proof fn lemma_mod_factor_zero(y: int, a: int, b: int)
    requires
        0 < a,
        0 < b,
        y % (a * b) == 0,
    ensures
        y % a == 0,
{
    vstd::arithmetic::mul::lemma_mul_strictly_positive(a, b);
    lemma_fundamental_div_mod(y, a * b);
    let q = y / (a * b);
    assert((a * b) * q == (b * q) * a) by (nonlinear_arith);
    lemma_mod_multiples_basic(b * q, a);
}

/// One year adds 365 days to `days_before_year`, or 366 across a leap year.
pub proof fn lemma_dby_succ(y: int)
    requires
        0 <= y,
    ensures
        days_before_year(y + 1) == days_before_year(y) + if is_leap_year(y) {
            366int
        } else {
            365int
        },
{
    lemma_div_succ(y + 3, 4);
    lemma_div_succ(y + 99, 100);
    lemma_div_succ(y + 399, 400);
    lemma_mod_add_multiples_vanish(y, 4);
    lemma_mod_add_multiples_vanish(y, 100);
    lemma_mod_add_multiples_vanish(y, 400);
    if y % 100 == 0 {
        lemma_mod_factor_zero(y, 4, 25);
    }
    if y % 400 == 0 {
        lemma_mod_factor_zero(y, 100, 4);
        lemma_mod_factor_zero(y, 4, 100);
    }
}

/// Cumulative month lengths, for every month of year `y`.
pub proof fn lemma_dbm_values(y: int)
    ensures
        days_before_month(y, 1) == 0,
        days_before_month(y, 2) == 31,
        days_before_month(y, 3) == 59 + if is_leap_year(y) {
            1int
        } else {
            0int
        },
        days_before_month(y, 4) == 90 + if is_leap_year(y) {
            1int
        } else {
            0int
        },
        days_before_month(y, 5) == 120 + if is_leap_year(y) {
            1int
        } else {
            0int
        },
        days_before_month(y, 6) == 151 + if is_leap_year(y) {
            1int
        } else {
            0int
        },
        days_before_month(y, 7) == 181 + if is_leap_year(y) {
            1int
        } else {
            0int
        },
        days_before_month(y, 8) == 212 + if is_leap_year(y) {
            1int
        } else {
            0int
        },
        days_before_month(y, 9) == 243 + if is_leap_year(y) {
            1int
        } else {
            0int
        },
        days_before_month(y, 10) == 273 + if is_leap_year(y) {
            1int
        } else {
            0int
        },
        days_before_month(y, 11) == 304 + if is_leap_year(y) {
            1int
        } else {
            0int
        },
        days_before_month(y, 12) == 334 + if is_leap_year(y) {
            1int
        } else {
            0int
        },
        days_before_month(y, 13) == 365 + if is_leap_year(y) {
            1int
        } else {
            0int
        },
{
    reveal_with_fuel(days_before_month, 14);
}

/// `days_before_year` grows by at least 365 per year.
pub proof fn lemma_dby_monotone(y1: int, y2: int)
    requires
        0 <= y1 <= y2,
    ensures
        days_before_year(y1) + 365 * (y2 - y1) <= days_before_year(y2),
    decreases y2 - y1,
{
    if y1 < y2 {
        lemma_dby_monotone(y1, y2 - 1);
        lemma_dby_succ(y2 - 1);
    }
}

/// A valid date's day number lies between the year's first and last day.
pub proof fn lemma_rd_in_year(y: int, m: int, d: int)
    requires
        valid_ymd(y, m, d),
    ensures
        days_before_year(y) <= rd_of(y, m, d),
        rd_of(y, m, d) < days_before_year(y + 1),
{
    lemma_dbm_values(y);
    assert(days_before_month(y, m) + days_in_month_of(y, m) <= days_before_month(y, 13));
    assert(days_before_month(y, m) >= 0);
    lemma_dby_succ(y);
}

/// `MAX_RD` is the day number of 9999-12-31, and no valid date lies beyond it.
pub proof fn lemma_rd_bounds(y: int, m: int, d: int)
    requires
        valid_ymd(y, m, d),
    ensures
        0 <= rd_of(y, m, d) <= MAX_RD,
        rd_of(9999, 12, 31) == MAX_RD,
{
    lemma_rd_in_year(y, m, d);
    lemma_dby_monotone(0, y);
    lemma_dby_monotone(y + 1, 10000);
    assert(days_before_year(0) == 0);
    assert(days_before_year(10000) == 3652425);
    lemma_dbm_values(9999);
    assert(rd_of(9999, 12, 31) == days_before_year(9999) + 334 + 30);
    lemma_dby_succ(9999);
}

/// Day numbers are faithful: two valid dates with the same day number are
/// the same date, so a contract that fixes a result's day number fixes the
/// result.
pub proof fn lemma_rd_injective(a: CalendarDate, b: CalendarDate)
    requires
        a.wf(),
        b.wf(),
        a.rd() == b.rd(),
    ensures
        a == b,
{
    lemma_rd_in_year(a.year as int, a.month as int, a.day as int);
    lemma_rd_in_year(b.year as int, b.month as int, b.day as int);
    if a.year < b.year {
        lemma_dby_monotone(a.year as int + 1, b.year as int);
    } else if b.year < a.year {
        lemma_dby_monotone(b.year as int + 1, a.year as int);
    } else {
        lemma_dbm_values(a.year as int);
    }
}

/// Whether `year` is a leap year.
pub fn is_leap(year: i32) -> (r: bool)
    requires
        0 <= year,
    ensures
        r == is_leap_year(year as int),
{
    year % 4 == 0 && (year % 100 != 0 || year % 400 == 0)
}

/// Number of days in month `month` of year `year`.
pub fn days_in_month(year: i32, month: u32) -> (r: u32)
    requires
        0 <= year,
        1 <= month <= 12,
    ensures
        r == days_in_month_of(year as int, month as int),
{
    if month == 2 {
        if is_leap(year) {
            29
        } else {
            28
        }
    } else if month == 4 || month == 6 || month == 9 || month == 11 {
        30
    } else {
        31
    }
}

fn days_before_month_exec(year: i32, month: u32) -> (r: u32)
    requires
        0 <= year,
        1 <= month <= 12,
    ensures
        r == days_before_month(year as int, month as int),
{
    let base: u32 = match month {
        1 => 0,
        2 => 31,
        3 => 59,
        4 => 90,
        5 => 120,
        6 => 151,
        7 => 181,
        8 => 212,
        9 => 243,
        10 => 273,
        11 => 304,
        _ => 334,
    };
    proof {
        lemma_dbm_values(year as int);
    }
    if month > 2 && is_leap(year) {
        base + 1
    } else {
        base
    }
}

/// The day number of `date`: days since 0000-01-01.
pub fn date_to_rd(date: CalendarDate) -> (r: u32)
    requires
        date.wf(),
    ensures
        r == date.rd(),
{
    proof {
        lemma_rd_bounds(date.year as int, date.month as int, date.day as int);
        lemma_div_bounds(date.year as int + 3, 4);
        lemma_div_bounds(date.year as int + 99, 100);
        lemma_div_bounds(date.year as int + 399, 400);
    }
    let y = date.year as u32;
    let dby = 365 * y + (y + 3) / 4 - (y + 99) / 100 + (y + 399) / 400;
    dby + days_before_month_exec(date.year, date.month) + date.day - 1
}

proof fn lemma_div_bounds(x: int, d: int)
    requires
        0 <= x,
        0 < d,
    ensures
        0 <= x / d <= x,
{
    lemma_div_pos_is_pos(x, d);
    lemma_div_nonincreasing(x, d);
}

/// The date one day after `date`.
pub fn next_day(date: CalendarDate) -> (r: CalendarDate)
    requires
        date.wf(),
        date.rd() < MAX_RD,
    ensures
        r.wf(),
        r.rd() == date.rd() + 1,
{
    let dim = days_in_month(date.year, date.month);
    if date.day < dim {
        CalendarDate { year: date.year, month: date.month, day: date.day + 1 }
    } else if date.month < 12 {
        proof {
            lemma_dbm_values(date.year as int);
        }
        CalendarDate { year: date.year, month: date.month + 1, day: 1 }
    } else {
        proof {
            lemma_dbm_values(date.year as int);
            lemma_dbm_values(date.year as int + 1);
            lemma_dby_succ(date.year as int);
            lemma_rd_bounds(date.year as int, date.month as int, date.day as int);
        }
        CalendarDate { year: date.year + 1, month: 1, day: 1 }
    }
}

/// The date one day before `date`.
pub fn prev_day(date: CalendarDate) -> (r: CalendarDate)
    requires
        date.wf(),
        date.rd() > 0,
    ensures
        r.wf(),
        r.rd() == date.rd() - 1,
{
    if date.day > 1 {
        CalendarDate { year: date.year, month: date.month, day: date.day - 1 }
    } else if date.month > 1 {
        proof {
            lemma_dbm_values(date.year as int);
        }
        let dim = days_in_month(date.year, date.month - 1);
        CalendarDate { year: date.year, month: date.month - 1, day: dim }
    } else {
        proof {
            lemma_dbm_values(date.year as int);
            if date.year == 0 {
                assert(date.rd() == 0);
            }
            lemma_dbm_values(date.year as int - 1);
            lemma_dby_succ(date.year as int - 1);
        }
        let dim = days_in_month(date.year - 1, 12);
        CalendarDate { year: date.year - 1, month: 12, day: dim }
    }
}

/// The date `nb_days` calendar days after `date` (before, when negative).
pub fn add_days(date: CalendarDate, nb_days: i32) -> (r: CalendarDate)
    requires
        date.wf(),
        0 <= date.rd() + nb_days,
        date.rd() + nb_days <= MAX_RD,
    ensures
        r.wf(),
        r.rd() == date.rd() + nb_days,
{
    let mut d = date;
    if nb_days >= 0 {
        let mut i: i32 = 0;
        while i < nb_days
            invariant
                0 <= i <= nb_days,
                d.wf(),
                d.rd() == date.rd() + i,
                date.rd() + nb_days <= MAX_RD,
            decreases nb_days - i,
        {
            d = next_day(d);
            i = i + 1;
        }
    } else {
        let mut i: i32 = 0;
        while i > nb_days
            invariant
                nb_days <= i <= 0,
                d.wf(),
                d.rd() == date.rd() + i,
                0 <= date.rd() + nb_days,
            decreases i - nb_days,
        {
            d = prev_day(d);
            i = i - 1;
        }
    }
    d
}

/// The date `nb_days` calendar days before `date` (after, when negative).
pub fn minus_days(date: CalendarDate, nb_days: i32) -> (r: CalendarDate)
    requires
        date.wf(),
        0 <= date.rd() - nb_days,
        date.rd() - nb_days <= MAX_RD,
    ensures
        r.wf(),
        r.rd() == date.rd() - nb_days,
{
    proof {
        lemma_rd_bounds(date.year as int, date.month as int, date.day as int);
    }
    add_days(date, -nb_days)
}

/// The datetime `nb_hours` wall-clock hours after `datetime` (before, when
/// negative). Minutes and seconds are unchanged.
pub fn add_hours(datetime: CalendarDateTime, nb_hours: i32) -> (r: CalendarDateTime)
    requires
        datetime.wf(),
        0 <= datetime.total_hours() + nb_hours,
        datetime.total_hours() + nb_hours <= 24 * (MAX_RD as int) + 23,
    ensures
        r.wf(),
        r.total_hours() == datetime.total_hours() + nb_hours,
        r.time.minute == datetime.time.minute,
        r.time.second == datetime.time.second,
{
    proof {
        lemma_rd_bounds(
            datetime.date.year as int,
            datetime.date.month as int,
            datetime.date.day as int,
        );
    }
    let rd0 = date_to_rd(datetime.date);
    let total_signed: i64 = rd0 as i64 * 24 + datetime.time.hour as i64 + nb_hours as i64;
    let total: u64 = total_signed as u64;
    let new_rd: u64 = total / 24;
    let new_hour: u32 = (total % 24) as u32;
    proof {
        lemma_fundamental_div_mod(total as int, 24);
        lemma_mod_division_less_than_divisor(total as int, 24);
    }
    let delta: i64 = new_rd as i64 - rd0 as i64;
    let d2 = add_days(datetime.date, delta as i32);
    CalendarDateTime {
        date: d2,
        time: TimeOfDay {
            hour: new_hour,
            minute: datetime.time.minute,
            second: datetime.time.second,
        },
    }
}

/// The datetime `nb_hours` wall-clock hours before `datetime` (after, when
/// negative). Minutes and seconds are unchanged.
pub fn minus_hours(datetime: CalendarDateTime, nb_hours: i32) -> (r: CalendarDateTime)
    requires
        datetime.wf(),
        0 <= datetime.total_hours() - nb_hours,
        datetime.total_hours() - nb_hours <= 24 * (MAX_RD as int) + 23,
    ensures
        r.wf(),
        r.total_hours() == datetime.total_hours() - nb_hours,
        r.time.minute == datetime.time.minute,
        r.time.second == datetime.time.second,
{
    proof {
        lemma_rd_bounds(
            datetime.date.year as int,
            datetime.date.month as int,
            datetime.date.day as int,
        );
    }
    add_hours(datetime, -nb_hours)
}

} // verus!
