//! Totals aggregation, grand totals and duration arithmetic.

use toggl_ontrack::dates::{Date, Weekday};
use toggl_ontrack::fraction::Fraction;
use toggl_ontrack::processor::Processor;
use toggl_ontrack::table_utils::sum_client_totals;
use toggl_ontrack::types::{
    Bucket, ClientInput, DefaultsInput, Durations, Input, PeriodInput, TotalDurations,
    WorkDaysInput,
};

fn d(y: i64, m: i64, day: i64) -> Date {
    Date::from_ymd(y, m, day).unwrap()
}

fn at(date: Date, hour: i64) -> i64 {
    date.day * 86400 + hour * 3600
}

#[test]
fn test_totals_aggregate_periods_of_one_bucket() {
    // the same client in two Mon..Sun periods, now past both
    let now = at(d(2021, 3, 20), 12);
    let period = |start: Date| PeriodInput {
        start,
        length: Some(7),
        work_days: Some(WorkDaysInput::FromToWeekdays { from: Weekday::Mon, to: Weekday::Fri }),
        clients: vec![(
            "C".to_string(),
            ClientInput { expected_secs: 40 * 3600, projects: None },
        )],
    };
    let input = Input {
        defaults: DefaultsInput::default(),
        periods: vec![period(d(2021, 3, 1)), period(d(2021, 3, 8))],
    };
    let mut processor = Processor::new(now);
    processor.initialize(input).unwrap();
    let totals = processor.calculate_totals();
    assert_eq!(totals.len(), 1);
    let (bucket, total) = &totals[0];
    assert_eq!(bucket.client, "C".to_string());
    assert_eq!(bucket.project, None);
    // the later period's end work date wins: Fri is offset 4, so the end
    // work date is the following Saturday
    assert_eq!(total.end_work_date, d(2021, 3, 13));
    // both periods fully elapsed: expected and partial both sum
    assert_eq!(total.durations.expected, 2 * 40 * 3600);
    assert_eq!(total.durations.partial_expected, 2 * 40 * 3600);
    assert_eq!(total.durations.actual, 0);
}

#[test]
fn test_totals_keep_distinct_buckets_apart() {
    let now = at(d(2021, 3, 20), 12);
    let input = Input {
        defaults: DefaultsInput::default(),
        periods: vec![PeriodInput {
            start: d(2021, 3, 8),
            length: Some(7),
            work_days: None,
            clients: vec![
                (
                    "A".to_string(),
                    ClientInput { expected_secs: 3600, projects: None },
                ),
                (
                    "B".to_string(),
                    ClientInput { expected_secs: 7200, projects: None },
                ),
            ],
        }],
    };
    let mut processor = Processor::new(now);
    processor.initialize(input).unwrap();
    let totals = processor.calculate_totals();
    assert_eq!(totals.len(), 2);
    let mut expected: Vec<(String, i64)> = totals
        .iter()
        .map(|(b, t)| (b.client.clone(), t.durations.expected))
        .collect();
    expected.sort();
    assert_eq!(expected, vec![("A".to_string(), 3600), ("B".to_string(), 7200)]);
}

fn durs(expected: i64, partial: i64, actual: i64, today: i64, current: i64) -> Durations {
    Durations {
        expected,
        partial_expected: partial,
        actual,
        today_actual: today,
        current_period_actual: current,
    }
}

#[test]
fn test_sum_client_totals_sums_projectless_buckets() {
    let totals = vec![
        (
            Bucket { client: "A".to_string(), project: None },
            TotalDurations { end_work_date: d(2021, 3, 13), durations: durs(10, 20, 30, 40, 50) },
        ),
        (
            Bucket { client: "A".to_string(), project: Some("p".to_string()) },
            TotalDurations { end_work_date: d(2021, 3, 20), durations: durs(1, 1, 1, 1, 1) },
        ),
        (
            Bucket { client: "B".to_string(), project: None },
            TotalDurations { end_work_date: d(2021, 3, 6), durations: durs(5, 6, 7, 8, 9) },
        ),
    ];
    let tomorrow = d(2021, 3, 10).day;
    let (sum, max_days) = sum_client_totals(&totals, tomorrow);
    assert_eq!(sum, durs(15, 26, 37, 48, 59));
    // only the project-less buckets count: 2021-03-13 is three days past
    // tomorrow; B's end lies in the past
    assert_eq!(max_days, 3);
}

#[test]
fn test_durations_expected_rounds_and_clamps() {
    let frac = Fraction { num: 11, den: 16 };
    let durations = Durations::expected(3600, frac);
    assert_eq!(durations.expected, 3600);
    assert_eq!(durations.partial_expected, 2475);
    let negative = Durations::expected(3600, Fraction { num: -1, den: 2 });
    assert_eq!(negative.partial_expected, 0);
    // ties round away from zero
    assert_eq!(Durations::expected(1, Fraction { num: 1, den: 2 }).partial_expected, 1);
}

#[test]
fn test_durations_derived_figures() {
    let durations = durs(10000, 6000, 1000, 200, 700);
    assert_eq!(durations.current_period_expected(), 700 + 10000 - 1000);
    assert_eq!(durations.today_expected(), 200 + 6000 - 1000);
    assert_eq!(durations.remaining(), 1000 - 10000);
    assert_eq!(durations.partial_remaining(), 1000 - 6000);
    assert_eq!(durations.daily_average_remaining(4), Some((10000 - 1000) / 4));
    assert_eq!(durations.daily_average_remaining(0), None);
    assert_eq!(durations.daily_average_remaining(-2), None);
    // truncation toward zero for a negative remainder
    let behind = durs(0, 0, 500, 0, 0);
    assert_eq!(behind.daily_average_remaining(3), Some(-166));
}

#[test]
fn test_durations_checked_arithmetic() {
    let a = durs(1, 2, 3, 4, 5);
    let b = durs(10, 20, 30, 40, 50);
    assert_eq!(a.checked_add(&b), Some(durs(11, 22, 33, 44, 55)));
    assert_eq!(b.checked_sub(&a), Some(durs(9, 18, 27, 36, 45)));
    let huge = durs(i64::MAX, 0, 0, 0, 0);
    assert_eq!(huge.checked_add(&durs(1, 0, 0, 0, 0)), None);
    assert_eq!(durs(i64::MIN, 0, 0, 0, 0).checked_sub(&durs(1, 0, 0, 0, 0)), None);
    assert_eq!(Durations::zero(), durs(0, 0, 0, 0, 0));
}
