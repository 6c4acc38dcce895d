//! Parsing of ISO-8601 date and datetime text into calendar values.

use crate::date::{valid_ymd, CalendarDate, CalendarDateTime, TimeOfDay};
use crate::formatter::{digit_char, iso_date_chars};
use crate::Error;
use vstd::arithmetic::div_mod::{
    lemma_div_denominator, lemma_fundamental_div_mod, lemma_mod_division_less_than_divisor,
};
use vstd::prelude::*;
use vstd::string::StrSliceExecFns;

verus! {

/// Whether `c` is a decimal digit.
pub open spec fn is_digit(c: char) -> bool {
    ||| c == '0'
    ||| c == '1'
    ||| c == '2'
    ||| c == '3'
    ||| c == '4'
    ||| c == '5'
    ||| c == '6'
    ||| c == '7'
    ||| c == '8'
    ||| c == '9'
}

/// The value of the decimal digit `c`.
pub open spec fn digit_val(c: char) -> int {
    if c == '0' {
        0
    } else if c == '1' {
        1
    } else if c == '2' {
        2
    } else if c == '3' {
        3
    } else if c == '4' {
        4
    } else if c == '5' {
        5
    } else if c == '6' {
        6
    } else if c == '7' {
        7
    } else if c == '8' {
        8
    } else {
        9
    }
}

/// Whether `s` has the shape YYYY-MM-DD: ten characters, digits with dashes
/// at positions 4 and 7.
pub open spec fn valid_iso_date_chars(s: Seq<char>) -> bool {
    &&& s.len() == 10
    &&& is_digit(s[0])
    &&& is_digit(s[1])
    &&& is_digit(s[2])
    &&& is_digit(s[3])
    &&& s[4] == '-'
    &&& is_digit(s[5])
    &&& is_digit(s[6])
    &&& s[7] == '-'
    &&& is_digit(s[8])
    &&& is_digit(s[9])
}

pub open spec fn iso_year_of(s: Seq<char>) -> int {
    digit_val(s[0]) * 1000 + digit_val(s[1]) * 100 + digit_val(s[2]) * 10 + digit_val(s[3])
}

pub open spec fn iso_month_of(s: Seq<char>) -> int {
    digit_val(s[5]) * 10 + digit_val(s[6])
}

pub open spec fn iso_day_of(s: Seq<char>) -> int {
    digit_val(s[8]) * 10 + digit_val(s[9])
}

/// Whether `s` is ISO date text denoting a valid calendar date.
pub open spec fn parseable_iso_date(s: Seq<char>) -> bool {
    &&& valid_iso_date_chars(s)
    &&& valid_ymd(iso_year_of(s), iso_month_of(s), iso_day_of(s))
}

/// Whether `s` has the shape YYYY-MM-DDTHH:MM:SS.
pub open spec fn valid_iso_datetime_chars(s: Seq<char>) -> bool {
    &&& s.len() == 19
    &&& is_digit(s[0])
    &&& is_digit(s[1])
    &&& is_digit(s[2])
    &&& is_digit(s[3])
    &&& s[4] == '-'
    &&& is_digit(s[5])
    &&& is_digit(s[6])
    &&& s[7] == '-'
    &&& is_digit(s[8])
    &&& is_digit(s[9])
    &&& s[10] == 'T'
    &&& is_digit(s[11])
    &&& is_digit(s[12])
    &&& s[13] == ':'
    &&& is_digit(s[14])
    &&& is_digit(s[15])
    &&& s[16] == ':'
    &&& is_digit(s[17])
    &&& is_digit(s[18])
}

pub open spec fn iso_hour_of(s: Seq<char>) -> int {
    digit_val(s[11]) * 10 + digit_val(s[12])
}

pub open spec fn iso_minute_of(s: Seq<char>) -> int {
    digit_val(s[14]) * 10 + digit_val(s[15])
}

pub open spec fn iso_second_of(s: Seq<char>) -> int {
    digit_val(s[17]) * 10 + digit_val(s[18])
}

/// Whether `s` is ISO datetime text denoting a valid date and time of day.
pub open spec fn parseable_iso_datetime(s: Seq<char>) -> bool {
    &&& valid_iso_datetime_chars(s)
    &&& valid_ymd(iso_year_of(s), iso_month_of(s), iso_day_of(s))
    &&& iso_hour_of(s) < 24
    &&& iso_minute_of(s) < 60
    &&& iso_second_of(s) < 60
}

fn char_digit(c: char) -> (r: Option<u32>)
    ensures
        match r {
            Some(v) => is_digit(c) && v == digit_val(c),
            None => !is_digit(c),
        },
{
    match c {
        '0' => Some(0),
        '1' => Some(1),
        '2' => Some(2),
        '3' => Some(3),
        '4' => Some(4),
        '5' => Some(5),
        '6' => Some(6),
        '7' => Some(7),
        '8' => Some(8),
        '9' => Some(9),
        _ => None,
    }
}

fn params_error() -> (e: Error)
    ensures
        e matches Error::ParamsError(_),
{
    Error::ParamsError("malformed date or time text".to_owned())
}

/// The date denoted by ISO text of the shape yyyy-mm-dd, or a `ParamsError`
/// when `value` is not of that shape or denotes no valid date.
pub fn parse_from_iso_date(value: &str) -> (r: Result<CalendarDate, Error>)
    ensures
        match r {
            Ok(d) => parseable_iso_date(value@) && d.wf() && d.year as int == iso_year_of(value@)
                && d.month as int == iso_month_of(value@) && d.day as int == iso_day_of(value@),
            Err(e) => !parseable_iso_date(value@) && e matches Error::ParamsError(_),
        },
{
    if value.unicode_len() != 10 {
        return Err(params_error());
    }
    let d0 = match char_digit(value.get_char(0)) {
        Some(v) => v,
        None => {
            return Err(params_error());
        },
    };
    let d1 = match char_digit(value.get_char(1)) {
        Some(v) => v,
        None => {
            return Err(params_error());
        },
    };
    let d2 = match char_digit(value.get_char(2)) {
        Some(v) => v,
        None => {
            return Err(params_error());
        },
    };
    let d3 = match char_digit(value.get_char(3)) {
        Some(v) => v,
        None => {
            return Err(params_error());
        },
    };
    if value.get_char(4) != '-' {
        return Err(params_error());
    }
    let d5 = match char_digit(value.get_char(5)) {
        Some(v) => v,
        None => {
            return Err(params_error());
        },
    };
    let d6 = match char_digit(value.get_char(6)) {
        Some(v) => v,
        None => {
            return Err(params_error());
        },
    };
    if value.get_char(7) != '-' {
        return Err(params_error());
    }
    let d8 = match char_digit(value.get_char(8)) {
        Some(v) => v,
        None => {
            return Err(params_error());
        },
    };
    let d9 = match char_digit(value.get_char(9)) {
        Some(v) => v,
        None => {
            return Err(params_error());
        },
    };
    let year = d0 * 1000 + d1 * 100 + d2 * 10 + d3;
    let month = d5 * 10 + d6;
    let day = d8 * 10 + d9;
    if month < 1 || month > 12 {
        return Err(params_error());
    }
    if day < 1 || day > crate::date::days_in_month(year as i32, month) {
        return Err(params_error());
    }
    Ok(CalendarDate { year: year as i32, month, day })
}

/// The datetime denoted by ISO text of the shape yyyy-mm-ddThh:mm:ss, or a
/// `ParamsError` when `value` is not of that shape or denotes no valid date
/// and time of day.
pub fn parse_from_iso_date_time(value: &str) -> (r: Result<CalendarDateTime, Error>)
    ensures
        match r {
            Ok(dt) => parseable_iso_datetime(value@) && dt.wf() && dt.date.year as int
                == iso_year_of(value@) && dt.date.month as int == iso_month_of(value@)
                && dt.date.day as int == iso_day_of(value@) && dt.time.hour as int == iso_hour_of(
                value@,
            ) && dt.time.minute as int == iso_minute_of(value@) && dt.time.second as int
                == iso_second_of(value@),
            Err(e) => !parseable_iso_datetime(value@) && e matches Error::ParamsError(_),
        },
{
    if value.unicode_len() != 19 {
        return Err(params_error());
    }
    let d0 = match char_digit(value.get_char(0)) {
        Some(v) => v,
        None => {
            return Err(params_error());
        },
    };
    let d1 = match char_digit(value.get_char(1)) {
        Some(v) => v,
        None => {
            return Err(params_error());
        },
    };
    let d2 = match char_digit(value.get_char(2)) {
        Some(v) => v,
        None => {
            return Err(params_error());
        },
    };
    let d3 = match char_digit(value.get_char(3)) {
        Some(v) => v,
        None => {
            return Err(params_error());
        },
    };
    if value.get_char(4) != '-' {
        return Err(params_error());
    }
    let d5 = match char_digit(value.get_char(5)) {
        Some(v) => v,
        None => {
            return Err(params_error());
        },
    };
    let d6 = match char_digit(value.get_char(6)) {
        Some(v) => v,
        None => {
            return Err(params_error());
        },
    };
    if value.get_char(7) != '-' {
        return Err(params_error());
    }
    let d8 = match char_digit(value.get_char(8)) {
        Some(v) => v,
        None => {
            return Err(params_error());
        },
    };
    let d9 = match char_digit(value.get_char(9)) {
        Some(v) => v,
        None => {
            return Err(params_error());
        },
    };
    if value.get_char(10) != 'T' {
        return Err(params_error());
    }
    let h0 = match char_digit(value.get_char(11)) {
        Some(v) => v,
        None => {
            return Err(params_error());
        },
    };
    let h1 = match char_digit(value.get_char(12)) {
        Some(v) => v,
        None => {
            return Err(params_error());
        },
    };
    if value.get_char(13) != ':' {
        return Err(params_error());
    }
    let m0 = match char_digit(value.get_char(14)) {
        Some(v) => v,
        None => {
            return Err(params_error());
        },
    };
    let m1 = match char_digit(value.get_char(15)) {
        Some(v) => v,
        None => {
            return Err(params_error());
        },
    };
    if value.get_char(16) != ':' {
        return Err(params_error());
    }
    let s0 = match char_digit(value.get_char(17)) {
        Some(v) => v,
        None => {
            return Err(params_error());
        },
    };
    let s1 = match char_digit(value.get_char(18)) {
        Some(v) => v,
        None => {
            return Err(params_error());
        },
    };
    let year = d0 * 1000 + d1 * 100 + d2 * 10 + d3;
    let month = d5 * 10 + d6;
    let day = d8 * 10 + d9;
    let hour = h0 * 10 + h1;
    let minute = m0 * 10 + m1;
    let second = s0 * 10 + s1;
    if month < 1 || month > 12 {
        return Err(params_error());
    }
    if day < 1 || day > crate::date::days_in_month(year as i32, month) {
        return Err(params_error());
    }
    if hour > 23 || minute > 59 || second > 59 {
        return Err(params_error());
    }
    Ok(
        CalendarDateTime {
            date: CalendarDate { year: year as i32, month, day },
            time: TimeOfDay { hour, minute, second },
        },
    )
}

proof fn lemma_digit_char_val(v: int)
    requires
        0 <= v <= 9,
    ensures
        is_digit(digit_char(v)),
        digit_val(digit_char(v)) == v,
{
}

proof fn lemma_decimal_recompose(y: int)
    requires
        0 <= y <= 9999,
    ensures
        (y / 1000) * 1000 + ((y / 100) % 10) * 100 + ((y / 10) % 10) * 10 + y % 10 == y,
{
    lemma_fundamental_div_mod(y, 10);
    lemma_fundamental_div_mod(y / 10, 10);
    lemma_div_denominator(y, 10, 10);
    lemma_fundamental_div_mod(y / 100, 10);
    lemma_div_denominator(y, 100, 10);
    lemma_mod_division_less_than_divisor(y, 1000);
    lemma_fundamental_div_mod(y, 1000);
}

/// Round trip: parsing the ISO text of any valid date yields that date back.
/// The text is well-shaped, and the year, month and day read from it are the
/// original fields.
pub proof fn lemma_iso_date_round_trip(d: CalendarDate)
    requires
        d.wf(),
    ensures
        parseable_iso_date(iso_date_chars(d)),
        iso_year_of(iso_date_chars(d)) == d.year as int,
        iso_month_of(iso_date_chars(d)) == d.month as int,
        iso_day_of(iso_date_chars(d)) == d.day as int,
{
    let s = iso_date_chars(d);
    let y = d.year as int;
    let m = d.month as int;
    let dd = d.day as int;
    assert(s[0] == digit_char(y / 1000));
    assert(s[1] == digit_char((y / 100) % 10));
    assert(s[2] == digit_char((y / 10) % 10));
    assert(s[3] == digit_char(y % 10));
    assert(s[4] == '-');
    assert(s[5] == digit_char(m / 10));
    assert(s[6] == digit_char(m % 10));
    assert(s[7] == '-');
    assert(s[8] == digit_char(dd / 10));
    assert(s[9] == digit_char(dd % 10));
    lemma_fundamental_div_mod(y, 1000);
    lemma_mod_division_less_than_divisor(y, 1000);
    lemma_fundamental_div_mod(y, 100);
    lemma_mod_division_less_than_divisor(y, 100);
    lemma_fundamental_div_mod(y, 10);
    lemma_mod_division_less_than_divisor(y, 10);
    lemma_mod_division_less_than_divisor(y / 100, 10);
    lemma_mod_division_less_than_divisor(y / 10, 10);
    lemma_digit_char_val(y / 1000);
    lemma_digit_char_val((y / 100) % 10);
    lemma_digit_char_val((y / 10) % 10);
    lemma_digit_char_val(y % 10);
    lemma_decimal_recompose(y);
    lemma_fundamental_div_mod(m, 10);
    lemma_mod_division_less_than_divisor(m, 10);
    lemma_digit_char_val(m / 10);
    lemma_digit_char_val(m % 10);
    lemma_fundamental_div_mod(dd, 10);
    lemma_mod_division_less_than_divisor(dd, 10);
    lemma_digit_char_val(dd / 10);
    lemma_digit_char_val(dd % 10);
}

} // verus!
