use vstd::prelude::*;

pub mod calendar;
pub mod date;
pub mod formatter;
pub mod parser;

verus! {

/// Failures reported by this crate.
///
/// `CalendarError` covers year values that the calendar cannot represent and
/// invalid year-month-day combinations; `ParamsError` covers malformed textual
/// date or time input handed to the parser.
#[derive(Debug)]
pub enum Error {
    CalendarError(String),
    ParamsError(String),
}

} // verus!
