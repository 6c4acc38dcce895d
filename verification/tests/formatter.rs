use working_days::calendar::get_date;
use working_days::date::{CalendarDate, CalendarDateTime, TimeOfDay};
use working_days::formatter::{
    format_teliway_datetime_to_iso, format_to_date_fr, format_to_time_fr, iso_date_to_teliway_date,
    iso_time_to_hour, iso_time_to_teliway_hour,
};

fn date(year: i32, month: u32, day: u32) -> CalendarDate {
    get_date(year, month, day).unwrap()
}

#[test]
fn format_date_from_naive_date_time() {
    let date = CalendarDateTime {
        date: date(2023, 12, 1),
        time: TimeOfDay { hour: 10, minute: 30, second: 0 },
    };

    assert_eq!("01/12/2023", format_to_date_fr(date.date));
    assert_eq!("10:30", format_to_time_fr(date));
    assert_eq!(
        ("2023-12-01".to_string(), "10:30:00".to_string()),
        format_teliway_datetime_to_iso("20231201", "103000")
    );
}

#[test]
fn format_date_from_naive_date() {
    let date = date(2023, 12, 1);

    assert_eq!("01/12/2023", format_to_date_fr(date));
}

#[test]
fn format_date_fr_short_year_is_not_padded() {
    assert_eq!("02/01/987", format_to_date_fr(date(987, 1, 2)));
    assert_eq!("05/03/45", format_to_date_fr(date(45, 3, 5)));
    assert_eq!("01/01/0", format_to_date_fr(date(0, 1, 1)));
}

#[test]
fn teliway_date_is_eight_digits() {
    assert_eq!("20231201", iso_date_to_teliway_date(date(2023, 12, 1)));
    assert_eq!("00450305", iso_date_to_teliway_date(date(45, 3, 5)));
}

#[test]
fn teliway_hour_is_four_digits() {
    assert_eq!("1030", iso_time_to_teliway_hour(TimeOfDay { hour: 10, minute: 30, second: 0 }));
    assert_eq!("0905", iso_time_to_teliway_hour(TimeOfDay { hour: 9, minute: 5, second: 59 }));
}

#[test]
fn hour_text_has_a_colon() {
    assert_eq!("10:30", iso_time_to_hour(TimeOfDay { hour: 10, minute: 30, second: 0 }));
    assert_eq!("00:00", iso_time_to_hour(TimeOfDay { hour: 0, minute: 0, second: 0 }));
}

#[test]
fn teliway_split_does_not_validate_digits() {
    let (d, t) = format_teliway_datetime_to_iso("abcdefgh", "ijklmn");
    assert_eq!(d, "abcd-ef-gh");
    assert_eq!(t, "ij:kl:mn");
}
