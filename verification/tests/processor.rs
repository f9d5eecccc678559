//! Calendar resolution, preallocation and pacing.

use toggl_ontrack::dates::{Date, Weekday};
use toggl_ontrack::fraction::Fraction;
use toggl_ontrack::processor::{
    work_day_offsets, preallocate_hours, calculate_partial_period_hours_percent,
};
use toggl_ontrack::types::{ClientInput, OntrackError, WorkDayInput, WorkDaysInput};

fn d(y: i64, m: i64, day: i64) -> Date {
    Date::from_ymd(y, m, day).unwrap()
}

fn at(date: Date, hour: i64) -> i64 {
    date.day * 86400 + hour * 3600
}

fn client(hours: i64) -> ClientInput {
    ClientInput { expected_secs: hours * 3600, projects: None }
}

#[test]
fn test_work_day_offsets() {
    assert_eq!(
        work_day_offsets(d(2021, 3, 7), 15, WorkDayInput::Weekday(Weekday::Sun)),
        vec![0, 7, 14]
    );
    assert_eq!(
        work_day_offsets(d(2021, 3, 7), 15, WorkDayInput::Weekday(Weekday::Wed)),
        vec![3, 10]
    );
    assert_eq!(
        work_day_offsets(d(2021, 3, 7), 15, WorkDayInput::Weekday(Weekday::Sat)),
        vec![6, 13]
    );
    assert_eq!(
        work_day_offsets(d(2021, 3, 9), 7, WorkDayInput::Weekday(Weekday::Sun)),
        vec![5]
    );
}

#[test]
fn test_work_day_offsets_raw_offset_passthrough() {
    assert_eq!(work_day_offsets(d(2021, 3, 7), 7, WorkDayInput::Offset(42)), vec![42]);
    assert_eq!(work_day_offsets(d(2021, 3, 7), 7, WorkDayInput::Offset(-3)), vec![-3]);
}

#[test]
fn test_work_day_offsets_ascending_and_in_range() {
    // every weekday of several period shapes: strictly ascending, in range
    for wd in [
        Weekday::Sun,
        Weekday::Mon,
        Weekday::Tue,
        Weekday::Wed,
        Weekday::Thu,
        Weekday::Fri,
        Weekday::Sat,
    ] {
        for len in [0i64, 1, 6, 7, 8, 13, 30] {
            let offs = work_day_offsets(d(2021, 3, 10), len, WorkDayInput::Weekday(wd));
            for w in offs.windows(2) {
                assert!(w[0] < w[1]);
            }
            for o in &offs {
                assert!(0 <= *o && *o < len);
            }
        }
    }
}

#[test]
fn test_preallocate_hours() {
    assert_eq!(
        preallocate_hours(
            d(2021, 3, 14),
            13,
            &WorkDaysInput::FromToWeekdays { from: Weekday::Mon, to: Weekday::Fri }
        )
        .unwrap(),
        (vec![(0, 0), (6, 0), (7, 0)], 0)
    );
    assert_eq!(
        preallocate_hours(d(2021, 3, 14), 7, &WorkDaysInput::FromToOffsets { from: 1, to: 5 })
            .unwrap(),
        (vec![(0, 0), (6, 0)], 0)
    );
    assert!(
        preallocate_hours(d(2021, 3, 14), 7, &WorkDaysInput::FromToOffsets { from: 5, to: 1 })
            .is_err()
    );
    let (map, total) = preallocate_hours(
        d(2021, 3, 14),
        13,
        &WorkDaysInput::DayHours(vec![
            (WorkDayInput::Weekday(Weekday::Sun), 3600),
            (WorkDayInput::Weekday(Weekday::Sat), 9000),
        ]),
    )
    .unwrap();
    let mut sorted = map.clone();
    sorted.sort();
    assert_eq!(sorted, vec![(0, 3600), (6, 9000), (7, 3600)]);
    assert_eq!(total, 3600 + 9000 + 3600);
}

#[test]
fn test_preallocate_hours_offset_range_error_kind() {
    match preallocate_hours(d(2021, 3, 14), 7, &WorkDaysInput::FromToOffsets { from: 5, to: 1 })
    {
        Err(OntrackError::ConfigurationError) => (),
        other => panic!("expected a configuration error, got {:?}", other),
    }
}

fn assert_fraction(f: Fraction, num: i128, den: i128) {
    assert!(f.den >= 1);
    assert_eq!(f.num * den, num * f.den, "fraction {}/{} != {}/{}", f.num, f.den, num, den);
}

#[test]
fn test_calculate_partial_period_hours_percent() {
    let clients = vec![
        ("Client 1".to_string(), client(30)),
        ("Client 2".to_string(), client(10)),
    ];
    let (frac, last) = calculate_partial_period_hours_percent(
        at(d(2021, 3, 12), 12),
        d(2021, 3, 7),
        10,
        &clients,
        &WorkDaysInput::DayHours(vec![
            (WorkDayInput::Weekday(Weekday::Sun), 2 * 3600),
            (WorkDayInput::Weekday(Weekday::Mon), 3 * 3600),
            (WorkDayInput::Weekday(Weekday::Tue), 0),
        ]),
    )
    .unwrap();
    // 0.6875 exactly
    assert_fraction(frac, 6875, 10000);
    assert_eq!(last, 8);

    let clients = vec![("Client".to_string(), client(40))];
    let (frac, last) = calculate_partial_period_hours_percent(
        at(d(2021, 3, 14), 12),
        d(2021, 3, 7),
        7,
        &clients,
        &WorkDaysInput::FromToWeekdays { from: Weekday::Mon, to: Weekday::Fri },
    )
    .unwrap();
    assert_fraction(frac, 1, 1);
    assert_eq!(last, 5);
}

#[test]
fn test_pace_zero_total_expected_is_zero_percent() {
    let clients = vec![("Client".to_string(), client(0))];
    let (frac, last) = calculate_partial_period_hours_percent(
        at(d(2021, 3, 10), 9),
        d(2021, 3, 7),
        7,
        &clients,
        &WorkDaysInput::FromToWeekdays { from: Weekday::Mon, to: Weekday::Fri },
    )
    .unwrap();
    assert_fraction(frac, 0, 1);
    assert_eq!(last, 0);
}

#[test]
fn test_pace_before_period_includes_nothing() {
    let clients = vec![("Client".to_string(), client(40))];
    let (frac, _) = calculate_partial_period_hours_percent(
        at(d(2021, 2, 1), 12),
        d(2021, 3, 7),
        7,
        &clients,
        &WorkDaysInput::FromToWeekdays { from: Weekday::Mon, to: Weekday::Fri },
    )
    .unwrap();
    assert_fraction(frac, 0, 1);
}

#[test]
fn test_pace_fully_marked_degenerate_period() {
    // every offset carries a fixed quota: no unmarked offset shares the rest
    let clients = vec![("Client".to_string(), client(2))];
    let (frac, last) = calculate_partial_period_hours_percent(
        at(d(2021, 3, 8), 12),
        d(2021, 3, 7),
        1,
        &clients,
        &WorkDaysInput::DayHours(vec![(WorkDayInput::Offset(0), 3600)]),
    )
    .unwrap();
    // the single marked day holds 3600 of 7200 expected seconds
    assert_fraction(frac, 1, 2);
    assert_eq!(last, 0);
}

#[test]
fn test_pace_offset_range_prices_work_days_evenly() {
    // work days are offsets 1..=5; three of the five are reached by day 3
    let clients = vec![("Client".to_string(), client(10))];
    let (frac, last) = calculate_partial_period_hours_percent(
        at(d(2021, 3, 10), 12),
        d(2021, 3, 7),
        7,
        &clients,
        &WorkDaysInput::FromToOffsets { from: 1, to: 5 },
    )
    .unwrap();
    assert_fraction(frac, 3, 5);
    assert_eq!(last, 5);
}

#[test]
fn test_pace_raw_offset_quota() {
    // a single fixed quota on day offset 2 covers the whole expectation
    let clients = vec![("Client".to_string(), client(2))];
    let (frac, last) = calculate_partial_period_hours_percent(
        at(d(2021, 3, 14), 12),
        d(2021, 3, 7),
        7,
        &clients,
        &WorkDaysInput::DayHours(vec![(WorkDayInput::Offset(2), 7200)]),
    )
    .unwrap();
    assert_fraction(frac, 1, 1);
    assert_eq!(last, 2);
}
