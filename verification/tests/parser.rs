use working_days::calendar::get_date;
use working_days::date::{CalendarDate, CalendarDateTime, TimeOfDay};
use working_days::formatter::{format_teliway_datetime_to_iso, iso_date_to_teliway_date};
use working_days::parser::{parse_from_iso_date, parse_from_iso_date_time};
use working_days::Error;

fn date(year: i32, month: u32, day: u32) -> CalendarDate {
    get_date(year, month, day).unwrap()
}

#[test]
fn parse_iso_date() {
    assert_eq!(parse_from_iso_date("2023-12-01").unwrap(), date(2023, 12, 1));
    assert_eq!(parse_from_iso_date("0045-03-05").unwrap(), date(45, 3, 5));
}

#[test]
fn parse_iso_date_rejects_malformed_text() {
    assert!(matches!(parse_from_iso_date(""), Err(Error::ParamsError(_))));
    assert!(matches!(parse_from_iso_date("2023/12/01"), Err(Error::ParamsError(_))));
    assert!(matches!(parse_from_iso_date("23-12-01"), Err(Error::ParamsError(_))));
    assert!(matches!(parse_from_iso_date("2023-12-0a"), Err(Error::ParamsError(_))));
    assert!(matches!(parse_from_iso_date("2023-12-011"), Err(Error::ParamsError(_))));
}

#[test]
fn parse_iso_date_rejects_invalid_dates() {
    assert!(matches!(parse_from_iso_date("2023-13-01"), Err(Error::ParamsError(_))));
    assert!(matches!(parse_from_iso_date("2023-00-10"), Err(Error::ParamsError(_))));
    assert!(matches!(parse_from_iso_date("2019-02-29"), Err(Error::ParamsError(_))));
    assert!(parse_from_iso_date("2020-02-29").is_ok());
}

#[test]
fn parse_iso_date_time() {
    let expected = CalendarDateTime {
        date: date(2023, 12, 1),
        time: TimeOfDay { hour: 10, minute: 30, second: 0 },
    };
    assert_eq!(parse_from_iso_date_time("2023-12-01T10:30:00").unwrap(), expected);
}

#[test]
fn parse_iso_date_time_rejects_malformed_text() {
    assert!(matches!(parse_from_iso_date_time("2023-12-01 10:30:00"), Err(Error::ParamsError(_))));
    assert!(matches!(parse_from_iso_date_time("2023-12-01T10-30-00"), Err(Error::ParamsError(_))));
    assert!(matches!(parse_from_iso_date_time("2023-12-01T10:30"), Err(Error::ParamsError(_))));
}

#[test]
fn parse_iso_date_time_rejects_invalid_times() {
    assert!(matches!(parse_from_iso_date_time("2023-12-01T24:00:00"), Err(Error::ParamsError(_))));
    assert!(matches!(parse_from_iso_date_time("2023-12-01T10:60:00"), Err(Error::ParamsError(_))));
    assert!(matches!(parse_from_iso_date_time("2023-12-01T10:30:60"), Err(Error::ParamsError(_))));
}

#[test]
fn legacy_round_trip_reconstructs_iso_text() {
    let d = date(2023, 12, 1);
    let legacy = iso_date_to_teliway_date(d);
    let (iso_date, iso_time) = format_teliway_datetime_to_iso(&legacy, "103000");
    assert_eq!(iso_date, "2023-12-01");
    assert_eq!(iso_time, "10:30:00");
    assert_eq!(parse_from_iso_date(&iso_date).unwrap(), d);
}

#[test]
fn iso_round_trip_over_a_leap_day() {
    let d = date(2024, 2, 29);
    let legacy = iso_date_to_teliway_date(d);
    let (iso_date, _) = format_teliway_datetime_to_iso(&legacy, "000000");
    assert_eq!(parse_from_iso_date(&iso_date).unwrap(), d);
}
