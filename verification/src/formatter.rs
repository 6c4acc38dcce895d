//! Textual rendering of dates and times: the locale format (dd/mm/yyyy,
//! hh:mm), the fixed-width Teliway interchange format (YYYYMMDD / HHMM) and
//! ISO-8601 text.

use crate::date::{CalendarDate, CalendarDateTime, TimeOfDay};
use vstd::arithmetic::div_mod::{
    lemma_fundamental_div_mod, lemma_mod_division_less_than_divisor,
};
use vstd::prelude::*;
use vstd::string::{StrSliceExecFns, StringExecFns};

verus! {

/// The decimal digit character for `d`.
pub open spec fn digit_char(d: int) -> char {
    if d == 0 {
        '0'
    } else if d == 1 {
        '1'
    } else if d == 2 {
        '2'
    } else if d == 3 {
        '3'
    } else if d == 4 {
        '4'
    } else if d == 5 {
        '5'
    } else if d == 6 {
        '6'
    } else if d == 7 {
        '7'
    } else if d == 8 {
        '8'
    } else {
        '9'
    }
}

/// `v` as two decimal digits, zero-padded.
pub open spec fn two_digits(v: int) -> Seq<char> {
    seq![digit_char(v / 10), digit_char(v % 10)]
}

/// `v` as four decimal digits, zero-padded.
pub open spec fn four_digits(v: int) -> Seq<char> {
    seq![
        digit_char(v / 1000),
        digit_char((v / 100) % 10),
        digit_char((v / 10) % 10),
        digit_char(v % 10),
    ]
}

/// `y` in decimal without leading zeroes (one to four digits).
pub open spec fn year_chars(y: int) -> Seq<char> {
    if y < 10 {
        seq![digit_char(y)]
    } else if y < 100 {
        two_digits(y)
    } else if y < 1000 {
        seq![digit_char(y / 100), digit_char((y / 10) % 10), digit_char(y % 10)]
    } else {
        four_digits(y)
    }
}

/// `date` in the locale format dd/mm/yyyy (the year without padding).
pub open spec fn locale_date_chars(d: CalendarDate) -> Seq<char> {
    two_digits(d.day as int) + seq!['/'] + two_digits(d.month as int) + seq!['/'] + year_chars(
        d.year as int,
    )
}

/// `t` in the format hh:mm.
pub open spec fn hour_minute_chars(t: TimeOfDay) -> Seq<char> {
    two_digits(t.hour as int) + seq![':'] + two_digits(t.minute as int)
}

/// `d` in the Teliway date format YYYYMMDD.
pub open spec fn teliway_date_chars(d: CalendarDate) -> Seq<char> {
    four_digits(d.year as int) + two_digits(d.month as int) + two_digits(d.day as int)
}

/// `t` in the Teliway hour format HHMM.
pub open spec fn teliway_hour_chars(t: TimeOfDay) -> Seq<char> {
    two_digits(t.hour as int) + two_digits(t.minute as int)
}

/// `t` as six digits HHMMSS.
pub open spec fn hhmmss_chars(t: TimeOfDay) -> Seq<char> {
    two_digits(t.hour as int) + two_digits(t.minute as int) + two_digits(t.second as int)
}

/// `d` in the ISO format YYYY-MM-DD.
pub open spec fn iso_date_chars(d: CalendarDate) -> Seq<char> {
    four_digits(d.year as int) + seq!['-'] + two_digits(d.month as int) + seq!['-'] + two_digits(
        d.day as int,
    )
}

/// `t` in the ISO format HH:MM:SS.
pub open spec fn iso_time_chars(t: TimeOfDay) -> Seq<char> {
    two_digits(t.hour as int) + seq![':'] + two_digits(t.minute as int) + seq![':'] + two_digits(
        t.second as int,
    )
}

/// `v` in decimal without leading zeroes, for `v >= 0`.
pub open spec fn dec_chars(v: int) -> Seq<char>
    decreases v,
{
    if v < 10 {
        seq![digit_char(v)]
    } else {
        dec_chars(v / 10) + seq![digit_char(v % 10)]
    }
}

/// `v` in decimal without leading zeroes, with a leading minus sign when
/// `v` is negative.
pub open spec fn signed_dec_chars(v: int) -> Seq<char> {
    if v < 0 {
        seq!['-'] + dec_chars(-v)
    } else {
        dec_chars(v)
    }
}

fn digit_str(v: u32) -> (r: &'static str)
    requires
        v < 10,
    ensures
        r@ == seq![digit_char(v as int)],
{
    proof {
        reveal_strlit("0");
        reveal_strlit("1");
        reveal_strlit("2");
        reveal_strlit("3");
        reveal_strlit("4");
        reveal_strlit("5");
        reveal_strlit("6");
        reveal_strlit("7");
        reveal_strlit("8");
        reveal_strlit("9");
    }
    let r = match v {
        0 => "0",
        1 => "1",
        2 => "2",
        3 => "3",
        4 => "4",
        5 => "5",
        6 => "6",
        7 => "7",
        8 => "8",
        _ => "9",
    };
    proof {
        assert(r@ =~= seq![digit_char(v as int)]);
    }
    r
}

proof fn lemma_digit_bounds(v: int)
    requires
        0 <= v <= 9999,
    ensures
        0 <= v / 1000 <= 9,
        0 <= v / 100 <= 99,
        0 <= v / 10 <= 999,
        0 <= (v / 100) % 10 <= 9,
        0 <= (v / 10) % 10 <= 9,
        0 <= v % 10 <= 9,
{
    lemma_fundamental_div_mod(v, 1000);
    lemma_mod_division_less_than_divisor(v, 1000);
    lemma_fundamental_div_mod(v, 100);
    lemma_mod_division_less_than_divisor(v, 100);
    lemma_fundamental_div_mod(v, 10);
    lemma_mod_division_less_than_divisor(v, 10);
    lemma_mod_division_less_than_divisor(v / 100, 10);
    lemma_mod_division_less_than_divisor(v / 10, 10);
    lemma_mod_division_less_than_divisor(v, 10);
}

fn push_two_digits(s: &mut String, v: u32)
    requires
        v < 100,
    ensures
        final(s)@ == old(s)@ + two_digits(v as int),
{
    proof {
        lemma_digit_bounds(v as int);
    }
    s.append(digit_str(v / 10));
    s.append(digit_str(v % 10));
    proof {
        assert(s@ =~= old(s)@ + two_digits(v as int));
    }
}

fn push_four_digits(s: &mut String, v: u32)
    requires
        v < 10000,
    ensures
        final(s)@ == old(s)@ + four_digits(v as int),
{
    proof {
        lemma_digit_bounds(v as int);
    }
    s.append(digit_str(v / 1000));
    s.append(digit_str((v / 100) % 10));
    s.append(digit_str((v / 10) % 10));
    s.append(digit_str(v % 10));
    proof {
        assert(s@ =~= old(s)@ + four_digits(v as int));
    }
}

/// Appends `v` in decimal, without leading zeroes, to `s`.
pub fn push_decimal(s: &mut String, v: u32)
    ensures
        final(s)@ == old(s)@ + dec_chars(v as int),
    decreases v,
{
    proof {
        lemma_fundamental_div_mod(v as int, 10);
        lemma_mod_division_less_than_divisor(v as int, 10);
    }
    if v < 10 {
        s.append(digit_str(v));
        proof {
            assert(s@ =~= old(s)@ + dec_chars(v as int));
        }
    } else {
        push_decimal(s, v / 10);
        s.append(digit_str(v % 10));
        proof {
            assert(s@ =~= old(s)@ + dec_chars(v as int));
        }
    }
}

/// Appends `v` in decimal, with a leading minus sign when negative, to `s`.
pub fn push_signed_decimal(s: &mut String, v: i32)
    ensures
        final(s)@ == old(s)@ + signed_dec_chars(v as int),
{
    if v < 0 {
        s.append("-");
        let magnitude: u32 = (-(v as i64)) as u32;
        push_decimal(s, magnitude);
        proof {
            reveal_strlit("-");
            assert(s@ =~= old(s)@ + signed_dec_chars(v as int));
        }
    } else {
        push_decimal(s, v as u32);
    }
}

fn push_year_digits(s: &mut String, y: u32)
    requires
        y < 10000,
    ensures
        final(s)@ == old(s)@ + year_chars(y as int),
{
    proof {
        lemma_digit_bounds(y as int);
    }
    if y < 10 {
        s.append(digit_str(y));
        proof {
            assert(s@ =~= old(s)@ + year_chars(y as int));
        }
    } else if y < 100 {
        push_two_digits(s, y);
    } else if y < 1000 {
        s.append(digit_str(y / 100));
        s.append(digit_str((y / 10) % 10));
        s.append(digit_str(y % 10));
        proof {
            assert(s@ =~= old(s)@ + year_chars(y as int));
        }
    } else {
        push_four_digits(s, y);
    }
}

/// `date` rendered as dd/mm/yyyy, the year without padding.
pub fn format_to_date_fr(date: CalendarDate) -> (r: String)
    requires
        date.wf(),
    ensures
        r@ == locale_date_chars(date),
{
    let mut s = String::new();
    push_two_digits(&mut s, date.day);
    s.append("/");
    push_two_digits(&mut s, date.month);
    s.append("/");
    push_year_digits(&mut s, date.year as u32);
    proof {
        reveal_strlit("/");
        assert(s@ =~= locale_date_chars(date));
    }
    s
}

/// The time of day of `date` rendered as hh:mm.
pub fn format_to_time_fr(date: CalendarDateTime) -> (r: String)
    requires
        date.wf(),
    ensures
        r@ == hour_minute_chars(date.time),
{
    let mut s = String::new();
    push_two_digits(&mut s, date.time.hour);
    s.append(":");
    push_two_digits(&mut s, date.time.minute);
    proof {
        reveal_strlit(":");
        assert(s@ =~= hour_minute_chars(date.time));
    }
    s
}

/// Splits a Teliway datetime — `date` as eight digits YYYYMMDD and `hour` as
/// six digits HHMMSS — into ISO text (YYYY-MM-DD, HH:MM:SS) by pure
/// slicing, without validating the characters.
pub fn format_teliway_datetime_to_iso(date: &str, hour: &str) -> (r: (String, String))
    requires
        date@.len() == 8,
        hour@.len() == 6,
    ensures
        r.0@ == date@.subrange(0, 4) + seq!['-'] + date@.subrange(4, 6) + seq!['-']
            + date@.subrange(6, 8),
        r.1@ == hour@.subrange(0, 2) + seq![':'] + hour@.subrange(2, 4) + seq![':']
            + hour@.subrange(4, 6),
{
    let y = date.substring_char(0, 4);
    let m = date.substring_char(4, 6);
    let d = date.substring_char(6, 8);
    let mut ds = String::new();
    ds.append(y);
    ds.append("-");
    ds.append(m);
    ds.append("-");
    ds.append(d);

    let h = hour.substring_char(0, 2);
    let mm = hour.substring_char(2, 4);
    let sec = hour.substring_char(4, 6);
    let mut ts = String::new();
    ts.append(h);
    ts.append(":");
    ts.append(mm);
    ts.append(":");
    ts.append(sec);
    proof {
        reveal_strlit("-");
        reveal_strlit(":");
        assert(ds@ =~= date@.subrange(0, 4) + seq!['-'] + date@.subrange(4, 6) + seq!['-']
            + date@.subrange(6, 8));
        assert(ts@ =~= hour@.subrange(0, 2) + seq![':'] + hour@.subrange(2, 4) + seq![':']
            + hour@.subrange(4, 6));
    }
    (ds, ts)
}

/// `date` rendered in the Teliway date format YYYYMMDD.
pub fn iso_date_to_teliway_date(date: CalendarDate) -> (r: String)
    requires
        date.wf(),
    ensures
        r@ == teliway_date_chars(date),
{
    let mut s = String::new();
    push_four_digits(&mut s, date.year as u32);
    push_two_digits(&mut s, date.month);
    push_two_digits(&mut s, date.day);
    proof {
        assert(s@ =~= teliway_date_chars(date));
    }
    s
}

/// `date` rendered in the Teliway hour format HHMM.
pub fn iso_time_to_teliway_hour(date: TimeOfDay) -> (r: String)
    requires
        date.wf(),
    ensures
        r@ == teliway_hour_chars(date),
{
    let mut s = String::new();
    push_two_digits(&mut s, date.hour);
    push_two_digits(&mut s, date.minute);
    proof {
        assert(s@ =~= teliway_hour_chars(date));
    }
    s
}

/// `date` rendered as hh:mm.
pub fn iso_time_to_hour(date: TimeOfDay) -> (r: String)
    requires
        date.wf(),
    ensures
        r@ == hour_minute_chars(date),
{
    let mut s = String::new();
    push_two_digits(&mut s, date.hour);
    s.append(":");
    push_two_digits(&mut s, date.minute);
    proof {
        reveal_strlit(":");
        assert(s@ =~= hour_minute_chars(date));
    }
    s
}

/// Slicing the eight-digit Teliway date text of a date at positions 4 and 6
/// and joining the parts with dashes — what `format_teliway_datetime_to_iso`
/// does to its date argument — reconstructs exactly the ISO text of that
/// date.
pub proof fn lemma_teliway_date_round_trip(d: CalendarDate)
    requires
        d.wf(),
    ensures
        teliway_date_chars(d).len() == 8,
        teliway_date_chars(d).subrange(0, 4) + seq!['-'] + teliway_date_chars(d).subrange(4, 6)
            + seq!['-'] + teliway_date_chars(d).subrange(6, 8) == iso_date_chars(d),
{
    let t = teliway_date_chars(d);
    assert(t.subrange(0, 4) =~= four_digits(d.year as int));
    assert(t.subrange(4, 6) =~= two_digits(d.month as int));
    assert(t.subrange(6, 8) =~= two_digits(d.day as int));
    assert(t.subrange(0, 4) + seq!['-'] + t.subrange(4, 6) + seq!['-'] + t.subrange(6, 8)
        =~= iso_date_chars(d));
}

/// Slicing a six-digit HHMMSS text at positions 2 and 4 and joining the
/// parts with colons — what `format_teliway_datetime_to_iso` does to its
/// hour argument — reconstructs exactly the ISO text of that time. The
/// Teliway hour text (HHMM) is the first four of those six digits.
pub proof fn lemma_teliway_hour_round_trip(t: TimeOfDay)
    requires
        t.wf(),
    ensures
        hhmmss_chars(t).len() == 6,
        hhmmss_chars(t).subrange(0, 2) + seq![':'] + hhmmss_chars(t).subrange(2, 4) + seq![':']
            + hhmmss_chars(t).subrange(4, 6) == iso_time_chars(t),
        teliway_hour_chars(t) == hhmmss_chars(t).subrange(0, 4),
{
    let s = hhmmss_chars(t);
    assert(s.subrange(0, 2) =~= two_digits(t.hour as int));
    assert(s.subrange(2, 4) =~= two_digits(t.minute as int));
    assert(s.subrange(4, 6) =~= two_digits(t.second as int));
    assert(s.subrange(0, 2) + seq![':'] + s.subrange(2, 4) + seq![':'] + s.subrange(4, 6)
        =~= iso_time_chars(t));
    assert(teliway_hour_chars(t) =~= s.subrange(0, 4));
}

} // verus!
