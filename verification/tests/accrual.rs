//! End-to-end accumulation: initialization, midnight splitting, matching,
//! ambiguity and strict mode.

use toggl_ontrack::dates::{Date, Weekday};
use toggl_ontrack::processor::Processor;
use toggl_ontrack::types::{
    ClientInput, DefaultsInput, Durations, Input, OntrackError, PeriodInput, TimeRecord,
    WorkDaysInput,
};

fn d(y: i64, m: i64, day: i64) -> Date {
    Date::from_ymd(y, m, day).unwrap()
}

fn at(date: Date, hour: i64) -> i64 {
    date.day * 86400 + hour * 3600
}

fn one_client_input(start: Date, length: i64, name: &str, hours: i64) -> Input {
    Input {
        defaults: DefaultsInput::default(),
        periods: vec![PeriodInput {
            start,
            length: Some(length),
            work_days: Some(WorkDaysInput::FromToWeekdays {
                from: Weekday::Mon,
                to: Weekday::Fri,
            }),
            clients: vec![(
                name.to_string(),
                ClientInput { expected_secs: hours * 3600, projects: None },
            )],
        }],
    }
}

fn record(start: i64, stop: i64, client: &str, project: &str) -> TimeRecord {
    TimeRecord {
        start,
        stop: Some(stop),
        client: Some(client.to_string()),
        project: Some(project.to_string()),
    }
}

#[test]
fn test_midnight_spanning_record_splits_between_days() {
    // period: Mon 2021-03-08 .. Sun, now Wed noon
    let now = at(d(2021, 3, 10), 12);
    let mut processor = Processor::new(now);
    processor.initialize(one_client_input(d(2021, 3, 8), 7, "C", 40)).unwrap();
    // Tue 23:00 .. Wed 01:00
    let records = vec![record(at(d(2021, 3, 9), 23), at(d(2021, 3, 10), 1), "C", "X")];
    processor.process(false, &records).unwrap();
    assert_eq!(processor.period_bucket_durations.len(), 1);
    let durs = processor.period_bucket_durations[0].durations;
    assert_eq!(
        durs,
        Durations {
            expected: 40 * 3600,
            // 3 of 5 working days reached: 60% of 40 hours
            partial_expected: 24 * 3600,
            actual: 2 * 3600,
            today_actual: 1 * 3600,
            current_period_actual: 2 * 3600,
        }
    );
}

#[test]
fn test_accumulating_fresh_state_twice_is_identical() {
    let now = at(d(2021, 3, 10), 12);
    let records = vec![
        record(at(d(2021, 3, 8), 9), at(d(2021, 3, 8), 17), "C", "X"),
        record(at(d(2021, 3, 9), 23), at(d(2021, 3, 10), 1), "C", "X"),
    ];
    let run = || {
        let mut processor = Processor::new(now);
        processor.initialize(one_client_input(d(2021, 3, 8), 7, "C", 40)).unwrap();
        processor.process(false, &records).unwrap();
        processor.period_bucket_durations[0].durations
    };
    assert_eq!(run(), run());
}

#[test]
fn test_overlapping_periods_make_a_record_ambiguous() {
    let now = at(d(2021, 3, 12), 12);
    let input = Input {
        defaults: DefaultsInput::default(),
        periods: vec![
            PeriodInput {
                start: d(2021, 3, 8),
                length: Some(7),
                work_days: None,
                clients: vec![(
                    "C".to_string(),
                    ClientInput { expected_secs: 36000, projects: None },
                )],
            },
            PeriodInput {
                start: d(2021, 3, 10),
                length: Some(7),
                work_days: None,
                clients: vec![(
                    "C".to_string(),
                    ClientInput { expected_secs: 36000, projects: None },
                )],
            },
        ],
    };
    let mut processor = Processor::new(now);
    processor.initialize(input).unwrap();
    // 2021-03-10 lies in both periods
    let offending = record(at(d(2021, 3, 10), 9), at(d(2021, 3, 10), 10), "C", "X");
    let records = vec![offending.clone()];
    match processor.process(false, &records) {
        Err(OntrackError::AmbiguousClientMatch(rec)) => {
            assert_eq!(rec.client, Some("C".to_string()));
            assert_eq!(rec.start, offending.start);
        }
        other => panic!("expected an ambiguous client match, got {:?}", other),
    }
}

#[test]
fn test_unmatched_record_warns_and_strict_mode_fails() {
    let now = at(d(2021, 3, 10), 12);
    let records = vec![record(at(d(2021, 3, 9), 9), at(d(2021, 3, 9), 10), "Nobody", "X")];
    let mut processor = Processor::new(now);
    processor.initialize(one_client_input(d(2021, 3, 8), 7, "C", 40)).unwrap();
    // non-strict: warning only, nothing accrued
    processor.process(false, &records).unwrap();
    assert_eq!(processor.period_bucket_durations[0].durations.actual, 0);
    let mut strict_processor = Processor::new(now);
    strict_processor.initialize(one_client_input(d(2021, 3, 8), 7, "C", 40)).unwrap();
    match strict_processor.process(true, &records) {
        Err(OntrackError::StrictModeError) => (),
        other => panic!("expected a strict mode error, got {:?}", other),
    }
}

#[test]
fn test_record_missing_labels_warns() {
    let now = at(d(2021, 3, 10), 12);
    let records = vec![TimeRecord {
        start: at(d(2021, 3, 9), 9),
        stop: Some(at(d(2021, 3, 9), 10)),
        client: Some("C".to_string()),
        project: None,
    }];
    let mut processor = Processor::new(now);
    processor.initialize(one_client_input(d(2021, 3, 8), 7, "C", 40)).unwrap();
    match processor.process(true, &records) {
        Err(OntrackError::StrictModeError) => (),
        other => panic!("expected a strict mode error, got {:?}", other),
    }
}

#[test]
fn test_still_running_record_stops_now() {
    let now = at(d(2021, 3, 10), 12);
    let mut processor = Processor::new(now);
    processor.initialize(one_client_input(d(2021, 3, 8), 7, "C", 40)).unwrap();
    let records = vec![TimeRecord {
        start: at(d(2021, 3, 10), 10),
        stop: None,
        client: Some("C".to_string()),
        project: Some("X".to_string()),
    }];
    processor.process(false, &records).unwrap();
    assert_eq!(processor.period_bucket_durations[0].durations.actual, 2 * 3600);
}

#[test]
fn test_project_bucket_and_client_bucket_both_accrue() {
    let now = at(d(2021, 3, 10), 12);
    let input = Input {
        defaults: DefaultsInput::default(),
        periods: vec![PeriodInput {
            start: d(2021, 3, 8),
            length: Some(7),
            work_days: None,
            clients: vec![(
                "C".to_string(),
                ClientInput {
                    expected_secs: 36000,
                    projects: Some(vec![(
                        "P".to_string(),
                        toggl_ontrack::types::ProjectInput { expected_secs: 18000 },
                    )]),
                },
            )],
        }],
    };
    let mut processor = Processor::new(now);
    processor.initialize(input).unwrap();
    let records = vec![record(at(d(2021, 3, 9), 9), at(d(2021, 3, 9), 10), "C", "P")];
    processor.process(false, &records).unwrap();
    // sorted order: the project bucket sorts before the client's own
    assert_eq!(processor.period_bucket_durations.len(), 2);
    assert_eq!(processor.period_bucket_durations[0].bucket.project, Some("P".to_string()));
    assert_eq!(processor.period_bucket_durations[0].durations.actual, 3600);
    assert_eq!(processor.period_bucket_durations[1].bucket.project, None);
    assert_eq!(processor.period_bucket_durations[1].durations.actual, 3600);
}

#[test]
fn test_initialize_sorts_by_period_then_bucket() {
    let now = at(d(2021, 3, 20), 12);
    let clients = vec![
        (
            "B".to_string(),
            ClientInput { expected_secs: 3600, projects: None },
        ),
        (
            "A".to_string(),
            ClientInput {
                expected_secs: 3600,
                projects: Some(vec![(
                    "p".to_string(),
                    toggl_ontrack::types::ProjectInput { expected_secs: 3600 },
                )]),
            },
        ),
    ];
    let input = Input {
        defaults: DefaultsInput::default(),
        periods: vec![
            PeriodInput {
                start: d(2021, 3, 15),
                length: Some(7),
                work_days: None,
                clients: clients.clone(),
            },
            PeriodInput {
                start: d(2021, 3, 8),
                length: Some(7),
                work_days: None,
                clients: vec![(
                    "Z".to_string(),
                    ClientInput { expected_secs: 3600, projects: None },
                )],
            },
        ],
    };
    let mut processor = Processor::new(now);
    processor.initialize(input).unwrap();
    let keys: Vec<(i64, String, Option<String>)> = processor
        .period_bucket_durations
        .iter()
        .map(|r| (r.period_start.day, r.bucket.client.clone(), r.bucket.project.clone()))
        .collect();
    assert_eq!(
        keys,
        vec![
            (d(2021, 3, 8).day, "Z".to_string(), None),
            (d(2021, 3, 15).day, "A".to_string(), Some("p".to_string())),
            (d(2021, 3, 15).day, "A".to_string(), None),
            (d(2021, 3, 15).day, "B".to_string(), None),
        ]
    );
}

#[test]
fn test_min_period_start() {
    let now = at(d(2021, 3, 20), 12);
    let mut processor = Processor::new(now);
    assert_eq!(processor.min_period_start(), d(2021, 3, 20));
    let input = Input {
        defaults: DefaultsInput::default(),
        periods: vec![
            PeriodInput {
                start: d(2021, 3, 15),
                length: Some(7),
                work_days: None,
                clients: vec![(
                    "C".to_string(),
                    ClientInput { expected_secs: 3600, projects: None },
                )],
            },
            PeriodInput {
                start: d(2021, 3, 1),
                length: Some(7),
                work_days: None,
                clients: vec![(
                    "C".to_string(),
                    ClientInput { expected_secs: 3600, projects: None },
                )],
            },
        ],
    };
    processor.initialize(input).unwrap();
    assert_eq!(processor.min_period_start(), d(2021, 3, 1));
}

#[test]
fn test_initialize_rejects_reversed_offset_range() {
    let now = at(d(2021, 3, 10), 12);
    let input = Input {
        defaults: DefaultsInput::default(),
        periods: vec![PeriodInput {
            start: d(2021, 3, 8),
            length: Some(7),
            work_days: Some(WorkDaysInput::FromToOffsets { from: 5, to: 1 }),
            clients: vec![(
                "C".to_string(),
                ClientInput { expected_secs: 3600, projects: None },
            )],
        }],
    };
    let mut processor = Processor::new(now);
    match processor.initialize(input) {
        Err(OntrackError::ConfigurationError) => (),
        other => panic!("expected a configuration error, got {:?}", other),
    }
}

#[test]
fn test_overlapping_periods_make_a_project_match_ambiguous() {
    let now = at(d(2021, 3, 12), 12);
    let client_with_project = || ClientInput {
        expected_secs: 36000,
        projects: Some(vec![(
            "P".to_string(),
            toggl_ontrack::types::ProjectInput { expected_secs: 18000 },
        )]),
    };
    let input = Input {
        defaults: DefaultsInput::default(),
        periods: vec![
            PeriodInput {
                start: d(2021, 3, 8),
                length: Some(7),
                work_days: None,
                clients: vec![("C".to_string(), client_with_project())],
            },
            PeriodInput {
                start: d(2021, 3, 10),
                length: Some(7),
                work_days: None,
                clients: vec![("D".to_string(), ClientInput { expected_secs: 3600, projects: None }), ("C".to_string(), client_with_project())],
            },
        ],
    };
    let mut processor = Processor::new(now);
    processor.initialize(input).unwrap();
    let records = vec![record(at(d(2021, 3, 10), 9), at(d(2021, 3, 10), 10), "C", "P")];
    // the scan hits the second project bucket before the second client-only
    // bucket or not; either way the ambiguity is fatal
    match processor.process(false, &records) {
        Err(OntrackError::AmbiguousClientMatch(rec))
        | Err(OntrackError::AmbiguousProjectMatch(rec)) => {
            assert_eq!(rec.client, Some("C".to_string()));
        }
        other => panic!("expected an ambiguous match, got {:?}", other),
    }
}
