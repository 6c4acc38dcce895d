use working_days::calendar::{get_date, get_easter, divide, Calendar};
use working_days::date::{CalendarDate, CalendarDateTime, TimeOfDay};
use working_days::Error;

fn date(year: i32, month: u32, day: u32) -> CalendarDate {
    get_date(year, month, day).unwrap()
}

fn new_date_time(year: i32, month: u32, day: u32, hour: u32, minute: u32, seconde: u32) -> CalendarDateTime {
    CalendarDateTime {
        date: date(year, month, day),
        time: TimeOfDay { hour, minute, second: seconde },
    }
}

#[test]
fn janvier_1() {
    let cal = Calendar::new(2018).unwrap();
    let day = date(2018, 1, 1);

    assert!(cal.is_day_off(day))
}

#[test]
fn may_1() {
    let cal = Calendar::new(2018).unwrap();
    let day = date(2018, 5, 1);

    assert!(cal.is_day_off(day))
}

#[test]
fn may_8() {
    let cal = Calendar::new(2018).unwrap();
    let day = date(2018, 5, 8);

    assert!(cal.is_day_off(day))
}

#[test]
fn july_14() {
    let cal = Calendar::new(2018).unwrap();
    let day = date(2018, 7, 14);

    assert!(cal.is_day_off(day))
}

#[test]
fn august_15() {
    let cal = Calendar::new(2018).unwrap();
    let day = date(2018, 8, 15);

    assert!(cal.is_day_off(day))
}

#[test]
fn november_1() {
    let cal = Calendar::new(2018).unwrap();
    let day = date(2018, 11, 1);

    assert!(cal.is_day_off(day))
}

#[test]
fn november_11() {
    let cal = Calendar::new(2018).unwrap();
    let day = date(2018, 11, 11);

    assert!(cal.is_day_off(day))
}

#[test]
fn december_25() {
    let cal = Calendar::new(2018).unwrap();
    let day = date(2018, 12, 25);

    assert!(cal.is_day_off(day))
}

#[test]
fn lundi_paques_2018() {
    let cal = Calendar::new(2018).unwrap();
    let day = date(2018, 4, 2);

    assert!(cal.is_day_off(day))
}

#[test]
fn lundi_paques_2020() {
    let cal = Calendar::new(2020).unwrap();
    let day = date(2020, 4, 13);

    assert!(cal.is_day_off(day))
}

#[test]
fn jeudi_ascension() {
    let cal = Calendar::new(2018).unwrap();
    let day = date(2018, 5, 10);

    assert!(cal.is_day_off(day))
}

#[test]
fn lundi_pentecote() {
    let cal = Calendar::new(2018).unwrap();
    let day = date(2018, 5, 21);

    assert!(cal.is_day_off(day))
}

#[test]
fn jour_ouvre_apres_jour_ferie() {
    let cal = Calendar::new(2020).unwrap();
    let day = date(2020, 7, 13);
    let next_working_day = date(2020, 7, 15);

    assert_eq!(cal.get_next_working_day(day, 1).unwrap(), next_working_day)
}

#[test]
fn jour_ouvre_apres_jour_ferie_hour() {
    let cal = Calendar::new(2020).unwrap();
    let date = new_date_time(2020, 7, 13, 14, 0, 0);
    let next_working_day = new_date_time(2020, 7, 15, 14, 0, 0);

    assert_eq!(cal.get_next_working_day_with_hours(date, 24).unwrap(), next_working_day)
}

#[test]
fn jour_36h_avant_apres_midi() {
    let cal = Calendar::new(2024).unwrap();
    let date = new_date_time(2024, 11, 13, 17, 0, 0);
    let next_working_day = new_date_time(2024, 11, 12, 5, 0, 0);

    assert_eq!(cal.get_previous_working_day_with_hours(date, 36).unwrap(), next_working_day)
}

#[test]
fn jour_36h_avant_matin() {
    let cal = Calendar::new(2024).unwrap();
    let date = new_date_time(2024, 11, 13, 8, 0, 0);
    let next_working_day = new_date_time(2024, 11, 8, 20, 0, 0);

    assert_eq!(cal.get_previous_working_day_with_hours(date, 36).unwrap(), next_working_day)
}

#[test]
fn jour_ouvre_annee_suivante() {
    let cal = Calendar::new(2018).unwrap();
    let day = date(2018, 12, 31);
    let next_working_day = date(2019, 1, 2);

    assert_eq!(cal.get_next_working_day(day, 1).unwrap(), next_working_day)
}

#[test]
fn jour_ouvre_annee_suivante_() {
    let cal = Calendar::new(2018).unwrap();
    let date = new_date_time(2018, 12, 31, 10, 0, 0);
    let next_working_day = new_date_time(2019, 1, 2, 10, 0, 0);

    assert_eq!(cal.get_next_working_day_with_hours(date, 24).unwrap(), next_working_day)
}

#[test]
fn jour_ouvre_annee_precedente() {
    let cal = Calendar::new(2018).unwrap();
    let day = date(2019, 1, 2);
    let next_working_day = date(2018, 12, 31);

    assert_eq!(cal.get_previous_working_day(day, 1).unwrap(), next_working_day)
}

#[test]
fn jour_suivant_samedi_ouvre_mais_ferie() {
    let cal = Calendar::new_with_days_off(2018, false, true).unwrap();
    let day = date(2018, 7, 13);
    let next_working_day = date(2018, 7, 16);

    assert_eq!(cal.get_next_working_day(day, 1).unwrap(), next_working_day)
}

#[test]
fn jour_suivant_ouvre_mais_ferie_ouvert_dimanche() {
    let cal = Calendar::new_with_days_off(2018, false, false).unwrap();
    let day = date(2018, 7, 13);
    let next_working_day = date(2018, 7, 15);

    assert_eq!(cal.get_next_working_day(day, 1).unwrap(), next_working_day)
}

#[test]
fn jour_ouvre_n_jours_apres() {
    let cal = Calendar::new(2018).unwrap();
    let day = date(2018, 7, 9);
    let next_working_day = date(2018, 7, 16);

    assert_eq!(cal.get_next_working_day(day, 5).unwrap(), next_working_day)
}

#[test]
fn jour_ouvre_n_jours_avant() {
    let cal = Calendar::new(2018).unwrap();
    let day = date(2018, 7, 13);
    let next_working_day = date(2018, 7, 11);

    assert_eq!(cal.get_previous_working_day(day, 2).unwrap(), next_working_day)
}

#[test]
fn passage_weekend() {
    let cal = Calendar::new(2024).unwrap();
    let day = date(2024, 11, 6);
    let next_working_day = date(2024, 10, 31);

    assert_eq!(cal.get_previous_working_day(day, 3).unwrap(), next_working_day)
}

#[test]
fn easter_2018_is_april_1() {
    assert_eq!(get_easter(2018).unwrap(), date(2018, 4, 1));
}

#[test]
fn easter_2020_is_april_12() {
    assert_eq!(get_easter(2020).unwrap(), date(2020, 4, 12));
}

#[test]
fn easter_2024_is_march_31() {
    assert_eq!(get_easter(2024).unwrap(), date(2024, 3, 31));
}

#[test]
fn easter_rejects_negative_year() {
    assert!(matches!(get_easter(-1), Err(Error::CalendarError(_))));
}

#[test]
fn divide_gives_quotient_and_remainder() {
    assert_eq!(divide(118, 19).unwrap(), (6, 4));
}

#[test]
fn fixed_holidays_hold_in_another_year() {
    let cal = Calendar::new(2024).unwrap();
    assert!(cal.is_day_off(date(2024, 1, 1)));
    assert!(cal.is_day_off(date(2024, 7, 14)));
    assert!(cal.is_day_off(date(2024, 12, 25)));
}

#[test]
fn easter_monday_2024() {
    let cal = Calendar::new(2024).unwrap();
    assert!(cal.is_day_off(date(2024, 4, 1)));
}

#[test]
fn saturday_and_sunday_off_by_default() {
    let cal = Calendar::new(2018).unwrap();
    assert!(cal.is_day_off(date(2018, 7, 7)));
    assert!(cal.is_day_off(date(2018, 7, 8)));
}

#[test]
fn open_saturday_is_a_working_day() {
    let cal = Calendar::new_with_days_off(2018, false, true).unwrap();
    assert!(!cal.is_day_off(date(2018, 7, 7)));
    assert!(cal.is_day_off(date(2018, 7, 8)));
}

#[test]
fn open_sunday_is_a_working_day() {
    let cal = Calendar::new_with_days_off(2018, true, false).unwrap();
    assert!(cal.is_day_off(date(2018, 7, 7)));
    assert!(!cal.is_day_off(date(2018, 7, 8)));
}

#[test]
fn plain_weekday_step() {
    let cal = Calendar::new(2018).unwrap();
    assert_eq!(cal.get_next_working_day(date(2018, 7, 17), 1).unwrap(), date(2018, 7, 18));
}

#[test]
fn negative_step_rolls_forward_off_days() {
    let cal = Calendar::new(2018).unwrap();
    // One day back from Monday the 16th lands on Sunday the 15th, and the
    // corrective steps go forward, back to the 16th.
    assert_eq!(cal.get_next_working_day(date(2018, 7, 16), -1).unwrap(), date(2018, 7, 16));
}

#[test]
fn calendar_rejects_year_zero() {
    assert!(matches!(Calendar::new(0), Err(Error::CalendarError(_))));
}

#[test]
fn calendar_rejects_year_9999() {
    assert!(matches!(Calendar::new(9999), Err(Error::CalendarError(_))));
}

#[test]
fn get_date_rejects_invalid_dates() {
    assert!(matches!(get_date(2019, 2, 29), Err(Error::CalendarError(_))));
    assert!(matches!(get_date(2018, 13, 1), Err(Error::CalendarError(_))));
    assert!(matches!(get_date(2018, 1, 0), Err(Error::CalendarError(_))));
    assert!(matches!(get_date(10000, 1, 1), Err(Error::CalendarError(_))));
    assert!(get_date(2020, 2, 29).is_ok());
}

#[test]
fn get_date_error_carries_the_offending_triple() {
    match get_date(2019, 2, 29) {
        Err(Error::CalendarError(s)) => assert_eq!(s, "2019-2-29"),
        _ => panic!("expected a calendar error"),
    }
    match get_date(-5, 13, 99) {
        Err(Error::CalendarError(s)) => assert_eq!(s, "-5-13-99"),
        _ => panic!("expected a calendar error"),
    }
    match get_date(10000, 1, 0) {
        Err(Error::CalendarError(s)) => assert_eq!(s, "10000-1-0"),
        _ => panic!("expected a calendar error"),
    }
}

#[test]
fn hour_traversal_keeps_minutes_and_seconds() {
    let cal = Calendar::new(2024).unwrap();
    let start = new_date_time(2024, 11, 13, 17, 42, 7);
    let expected = new_date_time(2024, 11, 12, 5, 42, 7);

    assert_eq!(cal.get_previous_working_day_with_hours(start, 36).unwrap(), expected);
}

#[test]
fn traversal_fails_past_the_supported_range() {
    let cal = Calendar::new(9998).unwrap();
    let day = date(9999, 12, 31);
    assert!(matches!(cal.get_next_working_day(day, 1), Err(Error::CalendarError(_))));
}
