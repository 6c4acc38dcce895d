//! French public holidays and working-day arithmetic.
//!
//! A `Calendar` is built for one year and materializes the fixed and movable
//! holidays of that year and of its two neighbours, so that traversals that
//! cross a year boundary still see the neighbouring year's holidays.

use crate::date::{
    add_days, add_hours, date_to_rd, days_in_month, is_saturday_rd, is_sunday_rd,
    lemma_dby_monotone, lemma_rd_bounds, lemma_rd_in_year, minus_days, minus_hours, next_day,
    prev_day, rd_of, valid_ymd, CalendarDate, CalendarDateTime, MAX_RD,
};
use crate::Error;
use vstd::arithmetic::div_mod::{
    lemma_fundamental_div_mod, lemma_mod_division_less_than_divisor,
};
use vstd::prelude::*;
use vstd::string::StringExecFns;

verus! {

/// Quotient and remainder of `dividende` by `diviseur`.
pub fn divide(dividende: u32, diviseur: u32) -> (r: Result<(u32, u32), Error>)
    requires
        diviseur != 0,
    ensures
        r matches Ok(t) && t.0 == dividende / diviseur && t.1 == dividende % diviseur && t.1
            < diviseur,
{
    proof {
        lemma_mod_division_less_than_divisor(dividende as int, diviseur as int);
    }
    let result = dividende / diviseur;
    let rest = dividende % diviseur;

    Ok((result, rest))
}

/// Month and day of Easter Sunday of `year`, by the anonymous Gregorian
/// (Meeus/Jones/Butcher) algorithm. All divisions truncate on non-negative
/// operands.
pub open spec fn easter_month_day(year: int) -> (int, int) {
    let a = year / 100;
    let b = year % 100;
    let c = (3 * (a + 25)) / 4;
    let d = (3 * (a + 25)) % 4;
    let e = (8 * (a + 11)) / 25;
    let f = (5 * a + b) % 19;
    let g = (19 * f + c - e) % 30;
    let h = (f + 11 * g) / 319;
    let j = (60 * (5 - d) + b) / 4;
    let k = (60 * (5 - d) + b) % 4;
    let m = (2 * j - k - g + h) % 7;
    let n = (g - h + m + 114) / 31;
    let p = (g - h + m + 114) % 31;
    (n, p + 1)
}

/// Day number of Easter Sunday of `year`.
pub open spec fn easter_rd(year: int) -> int {
    rd_of(year, easter_month_day(year).0, easter_month_day(year).1)
}

/// The text carried by `get_date`'s error: the offending triple rendered in
/// decimal as `year-month-day`.
pub open spec fn ymd_error_chars(y: int, m: int, d: int) -> Seq<char> {
    crate::formatter::signed_dec_chars(y) + seq!['-'] + crate::formatter::dec_chars(m) + seq!['-']
        + crate::formatter::dec_chars(d)
}

/// The date `year`-`month`-`day`, or a `CalendarError` carrying the offending
/// triple when it is not a valid date between 0000-01-01 and 9999-12-31.
pub fn get_date(year: i32, month: u32, day: u32) -> (r: Result<CalendarDate, Error>)
    ensures
        match r {
            Ok(d) => valid_ymd(year as int, month as int, day as int) && d == (CalendarDate {
                year,
                month,
                day,
            }),
            Err(e) => e matches Error::CalendarError(s) && s@ == ymd_error_chars(
                year as int,
                month as int,
                day as int,
            ) && !valid_ymd(year as int, month as int, day as int),
        },
{
    if 0 <= year && year <= 9999 && 1 <= month && month <= 12 {
        if 1 <= day && day <= days_in_month(year, month) {
            return Ok(CalendarDate { year, month, day });
        }
    }
    let mut msg = String::new();
    crate::formatter::push_signed_decimal(&mut msg, year);
    msg.append("-");
    crate::formatter::push_decimal(&mut msg, month);
    msg.append("-");
    crate::formatter::push_decimal(&mut msg, day);
    proof {
        reveal_strlit("-");
        assert(msg@ =~= ymd_error_chars(year as int, month as int, day as int));
    }
    Err(Error::CalendarError(msg))
}

/// Easter Sunday of `year`, or a `CalendarError` when `year` lies outside
/// 0 ..= 9999.
pub fn get_easter(year: i32) -> (r: Result<CalendarDate, Error>)
    ensures
        match r {
            Ok(d) => 0 <= year <= 9999 && d.wf() && d.year == year && d.month as int
                == easter_month_day(year as int).0 && d.day as int == easter_month_day(
                year as int,
            ).1,
            Err(e) => !(0 <= year <= 9999) && e matches Error::CalendarError(_),
        },
{
    if year < 0 || year > 9999 {
        return Err(Error::CalendarError("year out of range".to_owned()));
    }
    let my_year: u32 = year as u32;

    let (a, b) = match divide(my_year, 100) {
        Ok(t) => t,
        Err(e) => {
            return Err(e);
        },
    };
    proof {
        lemma_fundamental_div_mod(my_year as int, 100);
        assert(a <= 99);
    }
    let (c, d) = match divide(3 * (a + 25), 4) {
        Ok(t) => t,
        Err(e) => {
            return Err(e);
        },
    };
    let e = (8 * (a + 11)) / 25;
    let f = (5 * a + b) % 19;
    proof {
        lemma_fundamental_div_mod(3 * (a + 25) as int, 4);
        lemma_fundamental_div_mod(8 * (a + 11) as int, 25);
        lemma_mod_division_less_than_divisor(8 * (a + 11) as int, 25);
        lemma_mod_division_less_than_divisor((5 * a + b) as int, 19);
        assert(e <= c);
        assert(c <= 93);
    }
    let g = (19 * f + c - e) % 30;
    proof {
        lemma_mod_division_less_than_divisor((19 * f + c - e) as int, 30);
    }
    let h = (f + 11 * g) / 319;
    proof {
        lemma_fundamental_div_mod((f + 11 * g) as int, 319);
        lemma_mod_division_less_than_divisor((f + 11 * g) as int, 319);
        assert(h <= 1);
        assert(h <= g);
    }
    let (j, k) = match divide(60 * (5 - d) + b, 4) {
        Ok(t) => t,
        Err(e) => {
            return Err(e);
        },
    };
    proof {
        lemma_fundamental_div_mod((60 * (5 - d) + b) as int, 4);
        assert(30 <= j <= 99);
    }
    let m = (2 * j - k - g + h) % 7;
    proof {
        lemma_mod_division_less_than_divisor((2 * j - k - g + h) as int, 7);
    }
    let (n, p) = match divide(g - h + m + 114, 31) {
        Ok(t) => t,
        Err(e) => {
            return Err(e);
        },
    };
    proof {
        lemma_fundamental_div_mod((g - h + m + 114) as int, 31);
        assert(3 <= n <= 4);
        assert(n == 4 ==> p <= 25);
        assert(valid_ymd(year as int, n as int, (p + 1) as int));
    }
    get_date(year, n, p + 1)
}

/// The fixed French public holidays of year `y`: Jan 1, May 1, May 8, Jul 14,
/// Aug 15, Nov 1, Nov 11 and Dec 25.
pub open spec fn is_fixed_holiday_of(y: int, k: int) -> bool {
    ||| k == rd_of(y, 1, 1)
    ||| k == rd_of(y, 5, 1)
    ||| k == rd_of(y, 5, 8)
    ||| k == rd_of(y, 7, 14)
    ||| k == rd_of(y, 8, 15)
    ||| k == rd_of(y, 11, 1)
    ||| k == rd_of(y, 11, 11)
    ||| k == rd_of(y, 12, 25)
}

/// The movable feasts relative to an Easter Sunday with day number `e`:
/// Easter Monday, Ascension Thursday and Whit Monday.
pub open spec fn is_movable_feast_from(e: int, k: int) -> bool {
    ||| k == e + 1
    ||| k == e + 39
    ||| k == e + 50
}

/// The holidays materialized by a calendar built for `year`: the fixed
/// holidays of `year - 1`, `year` and `year + 1`, plus the movable feasts
/// computed once from `year`'s Easter.
pub open spec fn is_holiday_rd(year: int, k: int) -> bool {
    ||| is_fixed_holiday_of(year - 1, k)
    ||| is_fixed_holiday_of(year, k)
    ||| is_fixed_holiday_of(year + 1, k)
    ||| is_movable_feast_from(easter_rd(year), k)
}

/// Whether some date in `s` has day number `k`.
pub open spec fn seq_has_rd(s: Seq<CalendarDate>, k: int) -> bool {
    exists|i: int| 0 <= i < s.len() && s[i].rd() == k
}

/// Appends to `v` the fixed holidays of year `y` and the three movable
/// feasts offset from `easter`.
fn push_year_holidays(v: &mut Vec<CalendarDate>, y: i32, easter: CalendarDate)
    requires
        0 <= y <= 9999,
        easter.wf(),
        easter.rd() + 50 <= MAX_RD,
    ensures
        final(v)@.len() == old(v)@.len() + 11,
        forall|i: int| 0 <= i < old(v)@.len() ==> final(v)@[i] == old(v)@[i],
        forall|i: int|
            old(v)@.len() <= i < final(v)@.len() ==> (#[trigger] final(v)@[i]).wf() && (is_fixed_holiday_of(
                y as int,
                final(v)@[i].rd(),
            ) || is_movable_feast_from(easter.rd(), final(v)@[i].rd())),
        forall|k: int|
            is_fixed_holiday_of(y as int, k) || is_movable_feast_from(easter.rd(), k)
                ==> exists|i: int|
                old(v)@.len() <= i < final(v)@.len() && (#[trigger] final(v)@[i]).rd() == k,
{
    proof {
        lemma_rd_bounds(easter.year as int, easter.month as int, easter.day as int);
    }
    let ghost base = old(v)@.len() as int;
    v.push(CalendarDate { year: y, month: 1, day: 1 });
    v.push(add_days(easter, 1));
    v.push(add_days(easter, 39));
    v.push(add_days(easter, 50));
    v.push(CalendarDate { year: y, month: 5, day: 1 });
    v.push(CalendarDate { year: y, month: 5, day: 8 });
    v.push(CalendarDate { year: y, month: 7, day: 14 });
    v.push(CalendarDate { year: y, month: 8, day: 15 });
    v.push(CalendarDate { year: y, month: 11, day: 1 });
    v.push(CalendarDate { year: y, month: 11, day: 11 });
    v.push(CalendarDate { year: y, month: 12, day: 25 });
    proof {
        assert forall|k: int|
            is_fixed_holiday_of(y as int, k) || is_movable_feast_from(
                easter.rd(),
                k,
            ) implies exists|i: int| base <= i < v@.len() && (#[trigger] v@[i]).rd() == k by {
            if k == rd_of(y as int, 1, 1) {
                assert(v@[base].rd() == k);
            } else if k == easter.rd() + 1 {
                assert(v@[base + 1].rd() == k);
            } else if k == easter.rd() + 39 {
                assert(v@[base + 2].rd() == k);
            } else if k == easter.rd() + 50 {
                assert(v@[base + 3].rd() == k);
            } else if k == rd_of(y as int, 5, 1) {
                assert(v@[base + 4].rd() == k);
            } else if k == rd_of(y as int, 5, 8) {
                assert(v@[base + 5].rd() == k);
            } else if k == rd_of(y as int, 7, 14) {
                assert(v@[base + 6].rd() == k);
            } else if k == rd_of(y as int, 8, 15) {
                assert(v@[base + 7].rd() == k);
            } else if k == rd_of(y as int, 11, 1) {
                assert(v@[base + 8].rd() == k);
            } else if k == rd_of(y as int, 11, 11) {
                assert(v@[base + 9].rd() == k);
            } else {
                assert(v@[base + 10].rd() == k);
            }
        }
    }
}

/// The holiday dates a calendar built for `year` materializes, or a
/// `CalendarError` when `year` lies outside 1 ..= 9998.
pub fn build_holidays(year: i32) -> (r: Result<Vec<CalendarDate>, Error>)
    ensures
        match r {
            Ok(v) => 1 <= year <= 9998 && v@.len() == 33 && (forall|i: int|
                0 <= i < v@.len() ==> (#[trigger] v@[i]).wf()) && (forall|k: int|
                #[trigger] seq_has_rd(v@, k) <==> is_holiday_rd(year as int, k)),
            Err(e) => !(1 <= year <= 9998) && e matches Error::CalendarError(_),
        },
{
    if year < 1 || year > 9998 {
        return Err(Error::CalendarError("year out of range".to_owned()));
    }
    let easter = match get_easter(year) {
        Ok(d) => d,
        Err(e) => {
            return Err(e);
        },
    };
    proof {
        lemma_rd_in_year(easter.year as int, easter.month as int, easter.day as int);
        lemma_dby_monotone(year as int + 1, 10000);
        assert(crate::date::days_before_year(10000) == 3652425);
        assert(easter.rd() + 50 <= MAX_RD);
        assert(easter.rd() == easter_rd(year as int));
    }
    let mut holidays: Vec<CalendarDate> = Vec::new();
    push_year_holidays(&mut holidays, year - 1, easter);
    let ghost s1 = holidays@;
    push_year_holidays(&mut holidays, year, easter);
    let ghost s2 = holidays@;
    push_year_holidays(&mut holidays, year + 1, easter);
    proof {
        assert forall|k: int| seq_has_rd(holidays@, k) implies is_holiday_rd(year as int, k) by {
            let i = choose|i: int| 0 <= i < holidays@.len() && holidays@[i].rd() == k;
            if i < s1.len() {
                assert(holidays@[i] == s1[i]);
            } else if i < s2.len() {
                assert(holidays@[i] == s2[i]);
            }
        }
        assert forall|k: int| is_holiday_rd(year as int, k) implies seq_has_rd(
            holidays@,
            k,
        ) by {
            if is_fixed_holiday_of(year as int - 1, k) {
                let i = choose|i: int| 0 <= i < s1.len() && (#[trigger] s1[i]).rd() == k;
                assert(holidays@[i] == s1[i]);
            } else if is_fixed_holiday_of(year as int, k) || is_movable_feast_from(
                easter.rd(),
                k,
            ) {
                let i = choose|i: int| s1.len() <= i < s2.len() && (#[trigger] s2[i]).rd() == k;
                assert(holidays@[i] == s2[i]);
            }
        }
    }
    Ok(holidays)
}

/// A working-day calendar: the holidays materialized for one year and its
/// two neighbours, plus the weekend policy. Immutable after construction.
pub struct Calendar {
    pub is_saturday_off: bool,
    pub is_sunday_off: bool,
    pub holidays: Vec<CalendarDate>,
}

impl Calendar {
    pub open spec fn wf(self) -> bool {
        forall|i: int| 0 <= i < self.holidays@.len() ==> (#[trigger] self.holidays@[i]).wf()
    }

    /// Whether the day with day number `k` is a materialized holiday.
    pub open spec fn has_holiday_rd(self, k: int) -> bool {
        seq_has_rd(self.holidays@, k)
    }

    /// Whether this calendar holds exactly the holidays of a build for `year`.
    pub open spec fn built_for(self, year: int) -> bool {
        &&& self.wf()
        &&& forall|k: int| #[trigger] self.has_holiday_rd(k) <==> is_holiday_rd(year, k)
    }

    /// Whether the day with day number `k` is a day off: a holiday, or a
    /// weekend day the calendar's policy takes off.
    pub open spec fn spec_day_off(self, k: int) -> bool {
        ||| self.has_holiday_rd(k)
        ||| (is_saturday_rd(k) && self.is_saturday_off)
        ||| (is_sunday_rd(k) && self.is_sunday_off)
    }

    /// A calendar for `year` with both weekend days off, or a
    /// `CalendarError` when `year` lies outside 1 ..= 9998.
    pub fn new(year: i32) -> (r: Result<Self, Error>)
        ensures
            match r {
                Ok(c) => 1 <= year <= 9998 && c.is_saturday_off && c.is_sunday_off
                    && c.built_for(year as int),
                Err(e) => !(1 <= year <= 9998) && e matches Error::CalendarError(_),
            },
    {
        let holidays = match build_holidays(year) {
            Ok(v) => v,
            Err(e) => {
                return Err(e);
            },
        };
        Ok(Calendar { is_saturday_off: true, is_sunday_off: true, holidays })
    }

    /// A calendar for `year` with an explicit weekend policy, or a
    /// `CalendarError` when `year` lies outside 1 ..= 9998.
    pub fn new_with_days_off(year: i32, is_saturday_off: bool, is_sunday_off: bool) -> (r: Result<
        Self,
        Error,
    >)
        ensures
            match r {
                Ok(c) => 1 <= year <= 9998 && c.is_saturday_off == is_saturday_off
                    && c.is_sunday_off == is_sunday_off && c.built_for(year as int),
                Err(e) => !(1 <= year <= 9998) && e matches Error::CalendarError(_),
            },
    {
        let holidays = match build_holidays(year) {
            Ok(v) => v,
            Err(e) => {
                return Err(e);
            },
        };
        Ok(Calendar { is_saturday_off, is_sunday_off, holidays })
    }

    /// Whether `date` is a day off under this calendar.
    pub fn is_day_off(&self, date: CalendarDate) -> (r: bool)
        requires
            self.wf(),
            date.wf(),
        ensures
            r == self.spec_day_off(date.rd()),
    {
        let k = date_to_rd(date);
        let mut found = false;
        let mut i: usize = 0;
        while i < self.holidays.len()
            invariant
                self.wf(),
                0 <= i <= self.holidays@.len(),
                k == date.rd(),
                found == exists|j: int| 0 <= j < i && (#[trigger] self.holidays@[j]).rd() == k,
            decreases self.holidays@.len() - i,
        {
            if date_to_rd(self.holidays[i]) == k {
                found = true;
            }
            i = i + 1;
        }
        let weekday = k % 7;
        found || (weekday == 0 && self.is_saturday_off) || (weekday == 1 && self.is_sunday_off)
    }

    /// The first working day at or after stepping `days_added` calendar days
    /// from `date`: when the step lands on a day off, later days are tried
    /// one by one. Fails with a `CalendarError` only when the search would
    /// leave the representable date range.
    pub fn get_next_working_day(&self, date: CalendarDate, days_added: i32) -> (r: Result<
        CalendarDate,
        Error,
    >)
        requires
            self.wf(),
            date.wf(),
        ensures
            ({
                let start = date.rd() + days_added;
                match r {
                    Ok(d) => d.wf() && 0 <= start && start <= d.rd() <= MAX_RD
                        && !self.spec_day_off(d.rd()) && forall|k: int|
                        start <= k < d.rd() ==> self.spec_day_off(k),
                    Err(e) => e matches Error::CalendarError(_) && (start < 0 || start > MAX_RD
                        || forall|k: int| start <= k <= MAX_RD ==> self.spec_day_off(k)),
                }
            }),
    {
        let ghost start = date.rd() + days_added as int;
        let rd0 = date_to_rd(date);
        let target: i64 = rd0 as i64 + days_added as i64;
        if target < 0 || target > MAX_RD as i64 {
            return Err(Error::CalendarError("no working day in range".to_owned()));
        }
        let mut d = add_days(date, days_added);
        let mut k = date_to_rd(d);
        let mut off = self.is_day_off(d);
        while off
            invariant
                self.wf(),
                d.wf(),
                k == d.rd(),
                start == date.rd() + days_added,
                start <= d.rd() <= MAX_RD,
                off == self.spec_day_off(d.rd()),
                forall|j: int| start <= j < d.rd() ==> self.spec_day_off(j),
            decreases MAX_RD - d.rd(),
        {
            if k == MAX_RD {
                return Err(Error::CalendarError("no working day in range".to_owned()));
            }
            d = next_day(d);
            k = k + 1;
            off = self.is_day_off(d);
        }
        Ok(d)
    }

    /// The first working day at or before stepping `days_removed` calendar
    /// days backward from `date`: when the step lands on a day off, earlier
    /// days are tried one by one. Fails with a `CalendarError` only when the
    /// search would leave the representable date range.
    pub fn get_previous_working_day(&self, date: CalendarDate, days_removed: i32) -> (r: Result<
        CalendarDate,
        Error,
    >)
        requires
            self.wf(),
            date.wf(),
        ensures
            ({
                let start = date.rd() - days_removed;
                match r {
                    Ok(d) => d.wf() && 0 <= d.rd() <= start && start <= MAX_RD
                        && !self.spec_day_off(d.rd()) && forall|k: int|
                        d.rd() < k <= start ==> self.spec_day_off(k),
                    Err(e) => e matches Error::CalendarError(_) && (start < 0 || start > MAX_RD
                        || forall|k: int| 0 <= k <= start ==> self.spec_day_off(k)),
                }
            }),
    {
        let ghost start = date.rd() - days_removed as int;
        let rd0 = date_to_rd(date);
        let target: i64 = rd0 as i64 - days_removed as i64;
        if target < 0 || target > MAX_RD as i64 {
            return Err(Error::CalendarError("no working day in range".to_owned()));
        }
        let mut d = minus_days(date, days_removed);
        let mut k = date_to_rd(d);
        let mut off = self.is_day_off(d);
        while off
            invariant
                self.wf(),
                d.wf(),
                k == d.rd(),
                start == date.rd() - days_removed,
                0 <= d.rd() <= start,
                start <= MAX_RD,
                off == self.spec_day_off(d.rd()),
                forall|j: int| d.rd() < j <= start ==> self.spec_day_off(j),
            decreases d.rd(),
        {
            if k == 0 {
                return Err(Error::CalendarError("no working day in range".to_owned()));
            }
            d = prev_day(d);
            k = k - 1;
            off = self.is_day_off(d);
        }
        Ok(d)
    }

    /// The first datetime whose date is a working day, at or after stepping
    /// `hours_added` wall-clock hours from `datetime`: when the step lands on
    /// a day off, later days are tried in 24-hour increments, keeping the
    /// time of day. Fails with a `CalendarError` only when the search would
    /// leave the representable range.
    pub fn get_next_working_day_with_hours(
        &self,
        datetime: CalendarDateTime,
        hours_added: i32,
    ) -> (r: Result<CalendarDateTime, Error>)
        requires
            self.wf(),
            datetime.wf(),
        ensures
            ({
                let start = datetime.total_hours() + hours_added;
                match r {
                    Ok(res) => res.wf() && 0 <= start && res.time.minute == datetime.time.minute
                        && res.time.second == datetime.time.second && res.time.hour == start % 24
                        && start / 24 <= res.date.rd() <= MAX_RD && !self.spec_day_off(
                        res.date.rd(),
                    ) && forall|k: int| start / 24 <= k < res.date.rd() ==> self.spec_day_off(k),
                    Err(e) => e matches Error::CalendarError(_) && (start < 0 || start > 24 * (
                    MAX_RD as int) + 23 || forall|k: int|
                        start / 24 <= k <= MAX_RD ==> self.spec_day_off(k)),
                }
            }),
    {
        let ghost start = datetime.total_hours() + hours_added as int;
        proof {
            lemma_rd_bounds(
                datetime.date.year as int,
                datetime.date.month as int,
                datetime.date.day as int,
            );
        }
        let rd0 = date_to_rd(datetime.date);
        let target: i64 = rd0 as i64 * 24 + datetime.time.hour as i64 + hours_added as i64;
        if target < 0 || target > 24 * (MAX_RD as i64) + 23 {
            return Err(Error::CalendarError("no working day in range".to_owned()));
        }
        let mut res = add_hours(datetime, hours_added);
        proof {
            vstd::arithmetic::div_mod::lemma_fundamental_div_mod_converse(
                start,
                24,
                res.date.rd(),
                res.time.hour as int,
            );
        }
        let mut k = date_to_rd(res.date);
        let mut off = self.is_day_off(res.date);
        while off
            invariant
                self.wf(),
                res.wf(),
                k == res.date.rd(),
                start == datetime.total_hours() + hours_added,
                0 <= start,
                res.time.minute == datetime.time.minute,
                res.time.second == datetime.time.second,
                res.time.hour == start % 24,
                start / 24 <= res.date.rd() <= MAX_RD,
                off == self.spec_day_off(res.date.rd()),
                forall|j: int| start / 24 <= j < res.date.rd() ==> self.spec_day_off(j),
            decreases MAX_RD - res.date.rd(),
        {
            if k == MAX_RD {
                return Err(Error::CalendarError("no working day in range".to_owned()));
            }
            res = CalendarDateTime { date: next_day(res.date), time: res.time };
            k = k + 1;
            off = self.is_day_off(res.date);
        }
        Ok(res)
    }

    /// The first datetime whose date is a working day, at or before stepping
    /// `hours_removed` wall-clock hours backward from `datetime`: when the
    /// step lands on a day off, earlier days are tried in 24-hour decrements,
    /// keeping the time of day. Fails with a `CalendarError` only when the
    /// search would leave the representable range.
    pub fn get_previous_working_day_with_hours(
        &self,
        datetime: CalendarDateTime,
        hours_removed: i32,
    ) -> (r: Result<CalendarDateTime, Error>)
        requires
            self.wf(),
            datetime.wf(),
        ensures
            ({
                let start = datetime.total_hours() - hours_removed;
                match r {
                    Ok(res) => res.wf() && 0 <= start && res.time.minute == datetime.time.minute
                        && res.time.second == datetime.time.second && res.time.hour == start % 24
                        && 0 <= res.date.rd() <= start / 24 && !self.spec_day_off(res.date.rd())
                        && forall|k: int|
                        res.date.rd() < k <= start / 24 ==> self.spec_day_off(k),
                    Err(e) => e matches Error::CalendarError(_) && (start < 0 || start > 24 * (
                    MAX_RD as int) + 23 || forall|k: int|
                        0 <= k <= start / 24 ==> self.spec_day_off(k)),
                }
            }),
    {
        let ghost start = datetime.total_hours() - hours_removed as int;
        proof {
            lemma_rd_bounds(
                datetime.date.year as int,
                datetime.date.month as int,
                datetime.date.day as int,
            );
        }
        let rd0 = date_to_rd(datetime.date);
        let target: i64 = rd0 as i64 * 24 + datetime.time.hour as i64 - hours_removed as i64;
        if target < 0 || target > 24 * (MAX_RD as i64) + 23 {
            return Err(Error::CalendarError("no working day in range".to_owned()));
        }
        let mut res = minus_hours(datetime, hours_removed);
        proof {
            vstd::arithmetic::div_mod::lemma_fundamental_div_mod_converse(
                start,
                24,
                res.date.rd(),
                res.time.hour as int,
            );
        }
        let mut k = date_to_rd(res.date);
        let mut off = self.is_day_off(res.date);
        while off
            invariant
                self.wf(),
                res.wf(),
                k == res.date.rd(),
                start == datetime.total_hours() - hours_removed,
                0 <= start,
                res.time.minute == datetime.time.minute,
                res.time.second == datetime.time.second,
                res.time.hour == start % 24,
                0 <= res.date.rd() <= start / 24,
                off == self.spec_day_off(res.date.rd()),
                forall|j: int| res.date.rd() < j <= start / 24 ==> self.spec_day_off(j),
            decreases res.date.rd(),
        {
            if k == 0 {
                return Err(Error::CalendarError("no working day in range".to_owned()));
            }
            res = CalendarDateTime { date: prev_day(res.date), time: res.time };
            k = k - 1;
            off = self.is_day_off(res.date);
        }
        Ok(res)
    }
}

/// On a calendar built for `year`, every fixed holiday of `year` itself is a
/// day off: Jan 1, May 1, May 8, Jul 14, Aug 15, Nov 1, Nov 11 and Dec 25.
pub proof fn lemma_fixed_holidays_are_days_off(c: Calendar, year: int)
    requires
        c.built_for(year),
    ensures
        c.spec_day_off(rd_of(year, 1, 1)),
        c.spec_day_off(rd_of(year, 5, 1)),
        c.spec_day_off(rd_of(year, 5, 8)),
        c.spec_day_off(rd_of(year, 7, 14)),
        c.spec_day_off(rd_of(year, 8, 15)),
        c.spec_day_off(rd_of(year, 11, 1)),
        c.spec_day_off(rd_of(year, 11, 11)),
        c.spec_day_off(rd_of(year, 12, 25)),
{
    assert(c.has_holiday_rd(rd_of(year, 1, 1)));
    assert(c.has_holiday_rd(rd_of(year, 5, 1)));
    assert(c.has_holiday_rd(rd_of(year, 5, 8)));
    assert(c.has_holiday_rd(rd_of(year, 7, 14)));
    assert(c.has_holiday_rd(rd_of(year, 8, 15)));
    assert(c.has_holiday_rd(rd_of(year, 11, 1)));
    assert(c.has_holiday_rd(rd_of(year, 11, 11)));
    assert(c.has_holiday_rd(rd_of(year, 12, 25)));
}

/// On a calendar built for `year`, the movable feasts relative to `year`'s
/// Easter Sunday are days off: Easter Monday (Easter + 1 day), Ascension
/// (Easter + 39 days) and Whit Monday (Easter + 50 days).
pub proof fn lemma_movable_feasts_are_days_off(c: Calendar, year: int)
    requires
        c.built_for(year),
    ensures
        c.spec_day_off(easter_rd(year) + 1),
        c.spec_day_off(easter_rd(year) + 39),
        c.spec_day_off(easter_rd(year) + 50),
{
    assert(c.has_holiday_rd(easter_rd(year) + 1));
    assert(c.has_holiday_rd(easter_rd(year) + 39));
    assert(c.has_holiday_rd(easter_rd(year) + 50));
}

/// On a calendar whose weekend policy takes both Saturday and Sunday off —
/// the `Calendar::new` default — every Saturday and every Sunday is a day
/// off.
pub proof fn lemma_weekends_are_days_off(c: Calendar, k: int)
    requires
        c.is_saturday_off,
        c.is_sunday_off,
        is_saturday_rd(k) || is_sunday_rd(k),
    ensures
        c.spec_day_off(k),
{
}

/// On a calendar built for `year` whose policy keeps Saturdays working, a
/// Saturday is a day off only when it is independently a holiday.
pub proof fn lemma_working_saturday(c: Calendar, year: int, k: int)
    requires
        c.built_for(year),
        !c.is_saturday_off,
        is_saturday_rd(k),
        !is_holiday_rd(year, k),
    ensures
        !c.spec_day_off(k),
{
    assert(!c.has_holiday_rd(k));
}

} // verus!

