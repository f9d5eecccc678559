//! Input shapes, duration bookkeeping and bucket identities.
//!
//! Hour figures are carried as whole seconds (an hour figure of 2.5 hours is
//! 9000 seconds), so that pacing arithmetic is exact.  Time instants and
//! dates use the conventions of [`crate::dates`].

use vstd::prelude::*;
use crate::dates::{Date, Weekday, MAX_PERIOD_DAYS};
use crate::fraction::{Fraction, spec_round_ratio, round_ratio, FRAC_NUM_LIMIT, ROUND_NUM_LIMIT};

verus! {

/// Largest hour figure (in seconds) a single commitment or day quota may
/// carry: one hundred thousand hours.
pub const MAX_HOURS_SECS: i64 = 360_000_000;

/// Most entries a day-hours policy may hold.
pub const MAX_DAY_ENTRIES: usize = 1000;

/// Most clients a period may hold.
pub const MAX_CLIENTS: usize = 1000;

/// Most projects a client may hold.
pub const MAX_PROJECTS: usize = 1000;

/// Most periods an input may hold.
pub const MAX_PERIODS: usize = 1000;

/// Largest magnitude of a work-day offset named by an offset-range policy.
pub const MAX_OFFSET: i64 = 1_000_000;

/// Largest magnitude a stored duration field may reach before more time
/// records are folded in.
pub const DUR_LIMIT: i64 = 4_000_000_000_000_000_000;

/// Most time records one accumulation pass accepts.
pub const MAX_RECORDS: usize = 100_000;

/// A single work-day specifier: a symbolic weekday or a raw day offset
/// within the period.
#[derive(Clone, Copy, Debug, PartialEq, Eq, Structural)]
pub enum WorkDayInput {
    Weekday(Weekday),
    Offset(i64),
}

/// A period's work-day policy.
///
/// `FromToWeekdays` is a cyclic inclusive weekday range whose days share the
/// remaining hours evenly; `FromToOffsets` is an inclusive offset range
/// (`from <= to` required); `DayHours` maps work-day specifiers to fixed
/// second quotas.
#[derive(Clone, Debug)]
pub enum WorkDaysInput {
    FromToWeekdays { from: Weekday, to: Weekday },
    FromToOffsets { from: i64, to: i64 },
    DayHours(Vec<(WorkDayInput, i64)>),
}

/// A project commitment: expected seconds for the period.
#[derive(Clone, Copy, Debug, PartialEq, Eq, Structural)]
pub struct ProjectInput {
    pub expected_secs: i64,
}

/// A client commitment: expected seconds of its own, plus optional named
/// project commitments.
#[derive(Clone, Debug)]
pub struct ClientInput {
    pub expected_secs: i64,
    pub projects: Option<Vec<(String, ProjectInput)>>,
}

/// One period of the configuration.
#[derive(Clone, Debug)]
pub struct PeriodInput {
    pub start: Date,
    pub length: Option<i64>,
    pub work_days: Option<WorkDaysInput>,
    pub clients: Vec<(String, ClientInput)>,
}

/// Defaults applied to periods that leave a field out.
#[derive(Clone, Debug)]
pub struct DefaultsInput {
    pub period_length: Option<i64>,
    pub work_days: Option<WorkDaysInput>,
}

impl Default for DefaultsInput {
    fn default() -> (r: DefaultsInput)
        ensures
            r.period_length is None,
            r.work_days is None,
    {
        DefaultsInput { period_length: None, work_days: None }
    }
}

/// The whole configuration: defaults and periods.
#[derive(Clone, Debug)]
pub struct Input {
    pub defaults: DefaultsInput,
    pub periods: Vec<PeriodInput>,
}

/// One externally recorded time entry.  `stop` of `None` means the entry is
/// still running and stops "now"; missing labels make the record unmatched.
#[derive(Clone, Debug)]
pub struct TimeRecord {
    pub start: i64,
    pub stop: Option<i64>,
    pub client: Option<String>,
    pub project: Option<String>,
}

/// The error kinds the engine can surface.
///
/// `ConfigurationError` reports a malformed offset range; the ambiguous-match
/// kinds report a time record matching two buckets of the same kind and carry
/// the offending record; `StrictModeError` reports that warnings occurred
/// while strict mode was requested.
#[derive(Clone, Debug)]
pub enum OntrackError {
    ConfigurationError,
    AmbiguousClientMatch(TimeRecord),
    AmbiguousProjectMatch(TimeRecord),
    StrictModeError,
}

/// The five duration tallies of one bucket in one period, in seconds.
#[derive(Clone, Copy, Debug, PartialEq, Eq, Structural)]
pub struct Durations {
    pub expected: i64,
    pub partial_expected: i64,
    pub actual: i64,
    pub today_actual: i64,
    pub current_period_actual: i64,
}

/// Clamps a computed partial expectation into the representable
/// non-negative range.
pub open spec fn spec_clamp_partial(x: int) -> int {
    if x < 0 {
        0
    } else if x > i64::MAX {
        i64::MAX as int
    } else {
        x
    }
}

impl Durations {
    /// All five tallies are zero.
    pub fn zero() -> (r: Durations)
        ensures
            r.expected == 0,
            r.partial_expected == 0,
            r.actual == 0,
            r.today_actual == 0,
            r.current_period_actual == 0,
    {
        Durations {
            expected: 0,
            partial_expected: 0,
            actual: 0,
            today_actual: 0,
            current_period_actual: 0,
        }
    }

    /// Initial tallies for a commitment of `expected_secs` seconds of which
    /// the fraction `partial_percent` should have accrued by now: the
    /// partial expectation is rounded to the nearest second and never
    /// negative.
    pub fn expected(expected_secs: i64, partial_percent: Fraction) -> (r: Durations)
        requires
            0 <= expected_secs <= MAX_HOURS_SECS,
            partial_percent.wf(),
        ensures
            r.expected == expected_secs,
            r.partial_expected == spec_clamp_partial(
                spec_round_ratio(
                    expected_secs * partial_percent.num,
                    partial_percent.den as int,
                ),
            ),
            r.actual == 0,
            r.today_actual == 0,
            r.current_period_actual == 0,
            r == spec_expected_durations(expected_secs, partial_percent),
    {
        proof {
            assert(-ROUND_NUM_LIMIT <= expected_secs * partial_percent.num <= ROUND_NUM_LIMIT)
                by (nonlinear_arith)
                requires
                    0 <= expected_secs <= 360_000_000,
                    -FRAC_NUM_LIMIT <= partial_percent.num <= FRAC_NUM_LIMIT,
            ;
        }
        let rounded = round_ratio((expected_secs as i128) * partial_percent.num, partial_percent.den);
        let partial_expected: i64 = if rounded < 0 {
            0
        } else if rounded > i64::MAX as i128 {
            i64::MAX
        } else {
            rounded as i64
        };
        Durations {
            expected: expected_secs,
            partial_expected,
            actual: 0,
            today_actual: 0,
            current_period_actual: 0,
        }
    }

    /// `current_period_actual + expected - actual`: what the current period
    /// still expects, given what was already recorded elsewhere.
    pub fn current_period_expected(&self) -> (r: i64)
        requires
            i64::MIN <= self.current_period_actual + self.expected - self.actual <= i64::MAX,
        ensures
            r == self.current_period_actual + self.expected - self.actual,
    {
        ((self.current_period_actual as i128 + self.expected as i128 - self.actual as i128)) as i64
    }

    /// `today_actual + partial_expected - actual`: what today still expects,
    /// given what was already recorded.
    pub fn today_expected(&self) -> (r: i64)
        requires
            i64::MIN <= self.today_actual + self.partial_expected - self.actual <= i64::MAX,
        ensures
            r == self.today_actual + self.partial_expected - self.actual,
    {
        ((self.today_actual as i128 + self.partial_expected as i128 - self.actual as i128)) as i64
    }

    /// `actual - expected`: positive when ahead of the full-period target.
    pub fn remaining(&self) -> (r: i64)
        requires
            i64::MIN <= self.actual - self.expected <= i64::MAX,
        ensures
            r == self.actual - self.expected,
    {
        ((self.actual as i128 - self.expected as i128)) as i64
    }

    /// `actual - partial_expected`: positive when ahead of the pro-rated
    /// target.
    pub fn partial_remaining(&self) -> (r: i64)
        requires
            i64::MIN <= self.actual - self.partial_expected <= i64::MAX,
        ensures
            r == self.actual - self.partial_expected,
    {
        ((self.actual as i128 - self.partial_expected as i128)) as i64
    }

    /// `(expected - actual) / whole_days_until_end_work`, truncated toward
    /// zero, when that denominator is positive; `None` otherwise.
    pub fn daily_average_remaining(&self, whole_days_until_end_work: i64) -> (r: Option<i64>)
        requires
            i64::MIN <= self.expected - self.actual <= i64::MAX,
        ensures
            whole_days_until_end_work > 0 ==> (r matches Some(q) && q == spec_div_truncate(
                self.expected - self.actual,
                whole_days_until_end_work as int,
            )),
            whole_days_until_end_work <= 0 ==> r is None,
    {
        if whole_days_until_end_work > 0 {
            let diff = (self.expected as i128 - self.actual as i128) as i64;
            match diff.checked_div(whole_days_until_end_work) {
                Some(q) => Some(q),
                None => None,
            }
        } else {
            None
        }
    }

    /// Field-wise sum; `None` when a field would leave the `i64` range.
    pub fn checked_add(&self, other: &Durations) -> (r: Option<Durations>)
        ensures
            (r is Some) <==> {
                &&& i64::MIN <= self.expected + other.expected <= i64::MAX
                &&& i64::MIN <= self.partial_expected + other.partial_expected <= i64::MAX
                &&& i64::MIN <= self.actual + other.actual <= i64::MAX
                &&& i64::MIN <= self.today_actual + other.today_actual <= i64::MAX
                &&& i64::MIN <= self.current_period_actual + other.current_period_actual
                    <= i64::MAX
            },
            r matches Some(s) ==> {
                &&& s.expected == self.expected + other.expected
                &&& s.partial_expected == self.partial_expected + other.partial_expected
                &&& s.actual == self.actual + other.actual
                &&& s.today_actual == self.today_actual + other.today_actual
                &&& s.current_period_actual == self.current_period_actual
                    + other.current_period_actual
            },
    {
        match (
            self.expected.checked_add(other.expected),
            self.partial_expected.checked_add(other.partial_expected),
            self.actual.checked_add(other.actual),
            self.today_actual.checked_add(other.today_actual),
            self.current_period_actual.checked_add(other.current_period_actual),
        ) {
            (Some(expected), Some(partial_expected), Some(actual), Some(today_actual), Some(
                current_period_actual,
            )) => Some(
                Durations {
                    expected,
                    partial_expected,
                    actual,
                    today_actual,
                    current_period_actual,
                },
            ),
            _ => None,
        }
    }

    /// Field-wise difference; `None` when a field would leave the `i64`
    /// range.
    pub fn checked_sub(&self, other: &Durations) -> (r: Option<Durations>)
        ensures
            (r is Some) <==> {
                &&& i64::MIN <= self.expected - other.expected <= i64::MAX
                &&& i64::MIN <= self.partial_expected - other.partial_expected <= i64::MAX
                &&& i64::MIN <= self.actual - other.actual <= i64::MAX
                &&& i64::MIN <= self.today_actual - other.today_actual <= i64::MAX
                &&& i64::MIN <= self.current_period_actual - other.current_period_actual
                    <= i64::MAX
            },
            r matches Some(s) ==> {
                &&& s.expected == self.expected - other.expected
                &&& s.partial_expected == self.partial_expected - other.partial_expected
                &&& s.actual == self.actual - other.actual
                &&& s.today_actual == self.today_actual - other.today_actual
                &&& s.current_period_actual == self.current_period_actual
                    - other.current_period_actual
            },
    {
        match (
            self.expected.checked_sub(other.expected),
            self.partial_expected.checked_sub(other.partial_expected),
            self.actual.checked_sub(other.actual),
            self.today_actual.checked_sub(other.today_actual),
            self.current_period_actual.checked_sub(other.current_period_actual),
        ) {
            (Some(expected), Some(partial_expected), Some(actual), Some(today_actual), Some(
                current_period_actual,
            )) => Some(
                Durations {
                    expected,
                    partial_expected,
                    actual,
                    today_actual,
                    current_period_actual,
                },
            ),
            _ => None,
        }
    }

    /// Every tally lies within `limit` of zero.
    pub open spec fn bounded_by(self, limit: int) -> bool {
        &&& -limit <= self.expected <= limit
        &&& -limit <= self.partial_expected <= limit
        &&& -limit <= self.actual <= limit
        &&& -limit <= self.today_actual <= limit
        &&& -limit <= self.current_period_actual <= limit
    }
}

/// Quotient truncated toward zero, for a positive divisor.
pub open spec fn spec_div_truncate(a: int, b: int) -> int {
    if a >= 0 {
        a / b
    } else {
        -((-a) / b)
    }
}

/// The identity a bucket is tracked under: a client name and an optional
/// project name.
#[derive(Clone, Debug)]
pub struct Bucket {
    pub client: String,
    pub project: Option<String>,
}

/// Two buckets name the same client and the same (or no) project.
pub open spec fn spec_bucket_eq(a: Bucket, b: Bucket) -> bool {
    &&& a.client@ == b.client@
    &&& match (a.project, b.project) {
        (Some(p), Some(q)) => p@ == q@,
        (None, None) => true,
        _ => false,
    }
}

impl Bucket {
    /// Whether this bucket and `other` name the same client and project.
    pub fn key_eq(&self, other: &Bucket) -> (r: bool)
        ensures
            r == spec_bucket_eq(*self, *other),
    {
        self.client == other.client && match (&self.project, &other.project) {
            (Some(p), Some(q)) => *p == *q,
            (None, None) => true,
            _ => false,
        }
    }
}

/// The expectation record of one bucket in one period.
#[derive(Clone, Debug)]
pub struct PeriodBucketDurations {
    pub period_start: Date,
    pub bucket: Bucket,
    pub period_length: i64,
    pub last_work_day_offset: i64,
    pub durations: Durations,
}

impl PeriodBucketDurations {
    /// Period-level fields lie in their supported ranges.
    pub open spec fn wf(self) -> bool {
        &&& self.period_start.wf()
        &&& 0 <= self.period_length <= MAX_PERIOD_DAYS
        &&& 0 <= self.last_work_day_offset <= MAX_PERIOD_DAYS
    }
}

/// The all-period totals of one bucket.
#[derive(Clone, Debug)]
pub struct TotalDurations {
    pub end_work_date: Date,
    pub durations: Durations,
}


/// A work-day policy lies within the supported limits: offset ranges within
/// the offset bound, day-hour quotas non-negative and within the hour bound.
pub open spec fn spec_policy_wf(p: WorkDaysInput) -> bool {
    match p {
        WorkDaysInput::FromToWeekdays { from, to } => true,
        WorkDaysInput::FromToOffsets { from, to } => -MAX_OFFSET <= from <= MAX_OFFSET
            && -MAX_OFFSET <= to <= MAX_OFFSET,
        WorkDaysInput::DayHours(entries) => entries@.len() <= MAX_DAY_ENTRIES && forall|i: int|
            0 <= i < entries@.len() ==> 0 <= #[trigger] entries@[i].1 <= MAX_HOURS_SECS,
    }
}

/// A client commitment lies within the supported limits.
pub open spec fn spec_client_wf(c: ClientInput) -> bool {
    &&& 0 <= c.expected_secs <= MAX_HOURS_SECS
    &&& match c.projects {
        Some(ps) => ps@.len() <= MAX_PROJECTS && forall|j: int|
            0 <= j < ps@.len() ==> 0 <= #[trigger] ps@[j].1.expected_secs <= MAX_HOURS_SECS,
        None => true,
    }
}

/// A period's client list lies within the supported limits.
pub open spec fn spec_clients_wf(cs: Seq<(String, ClientInput)>) -> bool {
    &&& cs.len() <= MAX_CLIENTS
    &&& forall|i: int| 0 <= i < cs.len() ==> #[trigger] spec_client_wf(cs[i].1)
}


/// Defaults lie within the supported limits.
pub open spec fn spec_defaults_wf(d: DefaultsInput) -> bool {
    &&& (d.period_length matches Some(l) ==> 0 <= l <= MAX_PERIOD_DAYS)
    &&& (d.work_days matches Some(w) ==> spec_policy_wf(w))
}

/// A configured period lies within the supported limits.
pub open spec fn spec_period_input_wf(p: PeriodInput) -> bool {
    &&& p.start.wf()
    &&& (p.length matches Some(l) ==> 0 <= l <= MAX_PERIOD_DAYS)
    &&& (p.work_days matches Some(w) ==> spec_policy_wf(w))
    &&& spec_clients_wf(p.clients@)
}

/// A whole configuration lies within the supported limits.
pub open spec fn spec_input_wf(i: Input) -> bool {
    &&& spec_defaults_wf(i.defaults)
    &&& i.periods@.len() <= MAX_PERIODS
    &&& forall|pi: int| 0 <= pi < i.periods@.len() ==> #[trigger] spec_period_input_wf(
        i.periods@[pi],
    )
}

/// The initial tallies a commitment yields: the full expectation and the
/// clamped, rounded pro-rated expectation.
pub open spec fn spec_expected_durations(secs: i64, frac: Fraction) -> Durations {
    Durations {
        expected: secs,
        partial_expected: spec_clamp_partial(
            spec_round_ratio(secs * frac.num, frac.den as int),
        ) as i64,
        actual: 0,
        today_actual: 0,
        current_period_actual: 0,
    }
}

} // verus!
