//! Date arithmetic and formatting parts.

use chrono::Datelike;
use toggl_ontrack::dates::{Date, is_date_in_period};
use toggl_ontrack::table_utils::duration_hours_parts;

fn d(y: i64, m: i64, day: i64) -> Date {
    Date::from_ymd(y, m, day).unwrap()
}

#[test]
fn test_is_date_in_period() {
    assert!(!is_date_in_period(d(2021, 3, 14), d(2021, 3, 14), 0));
    assert!(is_date_in_period(d(2021, 3, 14), d(2021, 3, 14), 1));
    assert!(!is_date_in_period(d(2021, 3, 13), d(2021, 3, 14), 1));
    assert!(!is_date_in_period(d(2021, 3, 15), d(2021, 3, 14), 1));
    assert!(is_date_in_period(d(2021, 11, 1), d(2021, 11, 1), 1));
    assert!(!is_date_in_period(d(2021, 10, 31), d(2021, 11, 1), 1));
    assert!(!is_date_in_period(d(2021, 11, 2), d(2021, 11, 1), 1));
    assert!(is_date_in_period(d(2021, 3, 14), d(2021, 3, 7), 14));
    assert!(is_date_in_period(d(2021, 3, 7), d(2021, 3, 7), 14));
    assert!(!is_date_in_period(d(2021, 3, 6), d(2021, 3, 7), 14));
    assert!(is_date_in_period(d(2021, 3, 20), d(2021, 3, 7), 14));
    assert!(!is_date_in_period(d(2021, 2, 21), d(2021, 3, 7), 14));
}

#[test]
fn test_day_numbers_match_chrono() {
    // the library's day numbers agree with chrono's calendar
    for (y, m, day) in [
        (1970, 1, 1),
        (1969, 12, 31),
        (2000, 2, 29),
        (2021, 3, 7),
        (2021, 3, 14),
        (1900, 3, 1),
        (2400, 2, 29),
        (1, 1, 1),
        (9999, 12, 31),
    ] {
        let ours = d(y, m, day);
        let chron = chrono::NaiveDate::from_ymd_opt(y as i32, m as u32, day as u32).unwrap();
        let epoch = chrono::NaiveDate::from_ymd_opt(1970, 1, 1).unwrap();
        assert_eq!(
            ours.day,
            (chron - epoch).num_days(),
            "day number of {}-{}-{}",
            y,
            m,
            day
        );
    }
}

#[test]
fn test_from_ymd_rejects_invalid_dates() {
    assert!(Date::from_ymd(2021, 2, 29).is_none());
    assert!(Date::from_ymd(2020, 2, 29).is_some());
    assert!(Date::from_ymd(2100, 2, 29).is_none());
    assert!(Date::from_ymd(2021, 13, 1).is_none());
    assert!(Date::from_ymd(2021, 0, 1).is_none());
    assert!(Date::from_ymd(2021, 4, 31).is_none());
    assert!(Date::from_ymd(0, 1, 1).is_none());
    assert!(Date::from_ymd(10000, 1, 1).is_none());
}

#[test]
fn test_weekday_index_matches_chrono() {
    for (y, m, day) in [(2021, 3, 7), (2021, 3, 8), (1970, 1, 1), (2000, 1, 1), (2023, 6, 15)] {
        let ours = d(y, m, day).weekday_index();
        let chron = chrono::NaiveDate::from_ymd_opt(y as i32, m as u32, day as u32)
            .unwrap()
            .weekday()
            .num_days_from_sunday();
        assert_eq!(ours as u32, chron, "weekday of {}-{}-{}", y, m, day);
    }
}

#[test]
fn test_duration_hours_parts_formats() {
    assert_eq!(duration_hours_parts(0), (false, 0, 0));
    assert_eq!(duration_hours_parts(3600), (false, 1, 0));
    assert_eq!(duration_hours_parts(-3900), (true, 1, 5));
    assert_eq!(duration_hours_parts(7259), (false, 2, 0));
    assert_eq!(duration_hours_parts(7260), (false, 2, 1));
    assert_eq!(duration_hours_parts(-86400), (true, 24, 0));
}
