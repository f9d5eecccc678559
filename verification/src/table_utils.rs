//! Computations behind the report: splitting a signed duration into
//! hour/minute parts and summing the per-client grand totals.

use vstd::prelude::*;
use crate::dates::{DAY_LIMIT, MAX_PERIOD_DAYS};
use crate::types::{Bucket, Durations, TotalDurations};
use crate::totals::spec_durations_nonneg;

verus! {

/// The magnitude of a duration.
pub open spec fn spec_abs_secs(secs: int) -> int {
    if secs < 0 {
        -secs
    } else {
        secs
    }
}

/// Splits a signed duration in seconds into the parts of its `H:MM`
/// rendering: whether it is negative, its whole hours, and the leftover
/// whole minutes.
pub fn duration_hours_parts(secs: i64) -> (r: (bool, i64, i64))
    requires
        secs > i64::MIN,
    ensures
        r.0 == (secs < 0),
        r.1 == spec_abs_secs(secs as int) / 3600,
        r.2 == (spec_abs_secs(secs as int) % 3600) / 60,
        0 <= r.2 < 60,
{
    let a: u64 = if secs < 0 {
        (-secs) as u64
    } else {
        secs as u64
    };
    let hours = a / 3600;
    let minutes = (a % 3600) / 60;
    (secs < 0, hours as i64, minutes as i64)
}

/// The field-wise sums of the totals of the first `n` project-less
/// buckets.
pub open spec fn spec_grand_totals(ts: Seq<(Bucket, TotalDurations)>, n: int) -> (
    int,
    int,
    int,
    int,
    int,
)
    decreases n,
{
    if n <= 0 {
        (0int, 0int, 0int, 0int, 0int)
    } else {
        let p = spec_grand_totals(ts, n - 1);
        if ts[n - 1].0.project is None {
            let d = ts[n - 1].1.durations;
            (
                p.0 + d.expected,
                p.1 + d.partial_expected,
                p.2 + d.actual,
                p.3 + d.today_actual,
                p.4 + d.current_period_actual,
            )
        } else {
            p
        }
    }
}

/// The largest whole-days-until-end-work figure among the first `n`
/// project-less buckets, at least zero.
pub open spec fn spec_max_whole_days(
    ts: Seq<(Bucket, TotalDurations)>,
    tomorrow_day: int,
    n: int,
) -> int
    decreases n,
{
    if n <= 0 {
        0
    } else {
        let p = spec_max_whole_days(ts, tomorrow_day, n - 1);
        if ts[n - 1].0.project is None && ts[n - 1].1.end_work_date.day - tomorrow_day > p {
            ts[n - 1].1.end_work_date.day - tomorrow_day
        } else {
            p
        }
    }
}

/// Sums the totals of the project-less buckets field-wise and finds their
/// largest whole-days-until-end-work figure (never negative): the bottom
/// line of the totals report.
pub fn sum_client_totals(totals: &Vec<(Bucket, TotalDurations)>, tomorrow_day: i64) -> (r: (
    Durations,
    i64,
))
    requires
        -DAY_LIMIT - MAX_PERIOD_DAYS - 2 <= tomorrow_day <= DAY_LIMIT + MAX_PERIOD_DAYS + 2,
        forall|i: int|
            0 <= i < totals@.len() ==> spec_durations_nonneg(
                (#[trigger] totals@[i]).1.durations,
            ),
        forall|i: int|
            0 <= i < totals@.len() ==> -DAY_LIMIT - MAX_PERIOD_DAYS - 2 <= (
            #[trigger] totals@[i]).1.end_work_date.day <= DAY_LIMIT + MAX_PERIOD_DAYS + 2,
        ({
            let s = spec_grand_totals(totals@, totals@.len() as int);
            s.0 <= i64::MAX && s.1 <= i64::MAX && s.2 <= i64::MAX && s.3 <= i64::MAX && s.4
                <= i64::MAX
        }),
    ensures
        ({
            let s = spec_grand_totals(totals@, totals@.len() as int);
            &&& r.0.expected as int == s.0
            &&& r.0.partial_expected as int == s.1
            &&& r.0.actual as int == s.2
            &&& r.0.today_actual as int == s.3
            &&& r.0.current_period_actual as int == s.4
        }),
        r.1 as int == spec_max_whole_days(totals@, tomorrow_day as int, totals@.len() as int),
{
    let mut sum = Durations::zero();
    let mut max_days: i64 = 0;
    let mut i: usize = 0;
    while i < totals.len()
        invariant
            i <= totals@.len(),
            forall|k: int|
                0 <= k < totals@.len() ==> spec_durations_nonneg(
                    (#[trigger] totals@[k]).1.durations,
                ),
            forall|k: int|
                0 <= k < totals@.len() ==> -DAY_LIMIT - MAX_PERIOD_DAYS - 2 <= (
                #[trigger] totals@[k]).1.end_work_date.day <= DAY_LIMIT + MAX_PERIOD_DAYS + 2,
            -DAY_LIMIT - MAX_PERIOD_DAYS - 2 <= tomorrow_day <= DAY_LIMIT + MAX_PERIOD_DAYS + 2,
            ({
                let s = spec_grand_totals(totals@, totals@.len() as int);
                s.0 <= i64::MAX && s.1 <= i64::MAX && s.2 <= i64::MAX && s.3 <= i64::MAX && s.4
                    <= i64::MAX
            }),
            ({
                let s = spec_grand_totals(totals@, i as int);
                &&& sum.expected as int == s.0
                &&& sum.partial_expected as int == s.1
                &&& sum.actual as int == s.2
                &&& sum.today_actual as int == s.3
                &&& sum.current_period_actual as int == s.4
            }),
            max_days as int == spec_max_whole_days(totals@, tomorrow_day as int, i as int),
            0 <= max_days,
        decreases totals@.len() - i,
    {
        let is_client_only = totals[i].0.project.is_none();
        if is_client_only {
            proof {
                lemma_grand_totals_mono(totals@, i as int + 1, totals@.len() as int);
            }
            let d = totals[i].1.durations;
            sum = Durations {
                expected: sum.expected + d.expected,
                partial_expected: sum.partial_expected + d.partial_expected,
                actual: sum.actual + d.actual,
                today_actual: sum.today_actual + d.today_actual,
                current_period_actual: sum.current_period_actual + d.current_period_actual,
            };
            let whole_days = totals[i].1.end_work_date.day - tomorrow_day;
            if whole_days > max_days {
                max_days = whole_days;
            }
        }
        i = i + 1;
    }
    (sum, max_days)
}

/// With non-negative tallies the grand-total prefix sums grow with the
/// prefix and stay non-negative.
proof fn lemma_grand_totals_mono(ts: Seq<(Bucket, TotalDurations)>, n: int, m: int)
    requires
        0 <= n <= m <= ts.len(),
        forall|i: int|
            0 <= i < ts.len() ==> spec_durations_nonneg((#[trigger] ts[i]).1.durations),
    ensures
        0 <= spec_grand_totals(ts, n).0 <= spec_grand_totals(ts, m).0,
        0 <= spec_grand_totals(ts, n).1 <= spec_grand_totals(ts, m).1,
        0 <= spec_grand_totals(ts, n).2 <= spec_grand_totals(ts, m).2,
        0 <= spec_grand_totals(ts, n).3 <= spec_grand_totals(ts, m).3,
        0 <= spec_grand_totals(ts, n).4 <= spec_grand_totals(ts, m).4,
    decreases m,
{
    if m > n {
        lemma_grand_totals_mono(ts, n, m - 1);
    } else if n > 0 {
        lemma_grand_totals_mono(ts, n - 1, n - 1);
    }
}

} // verus!
