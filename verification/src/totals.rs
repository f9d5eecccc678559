//! The totals aggregator: merges per-period bucket records into all-time
//! per-bucket totals, keeping the furthest work-end date.

use vstd::prelude::*;
use crate::dates::Date;
use crate::types::{Bucket, Durations, TotalDurations, PeriodBucketDurations, spec_bucket_eq};
use crate::processor::Processor;

verus! {

/// A sentinel below every supported work-end date.
pub const NO_END_DATE: i64 = -200_000_000;

/// All five tallies are non-negative.
pub open spec fn spec_durations_nonneg(d: Durations) -> bool {
    &&& d.expected >= 0
    &&& d.partial_expected >= 0
    &&& d.actual >= 0
    &&& d.today_actual >= 0
    &&& d.current_period_actual >= 0
}

/// The field-wise sums of the tallies of the first `n` records whose bucket
/// is `b`: (expected, partial_expected, actual, today_actual,
/// current_period_actual).
pub open spec fn spec_sum_durs(rows: Seq<PeriodBucketDurations>, b: Bucket, n: int) -> (
    int,
    int,
    int,
    int,
    int,
)
    decreases n,
{
    if n <= 0 {
        (0int, 0int, 0int, 0int, 0int)
    } else {
        let p = spec_sum_durs(rows, b, n - 1);
        if spec_bucket_eq(rows[n - 1].bucket, b) {
            let d = rows[n - 1].durations;
            (
                p.0 + d.expected,
                p.1 + d.partial_expected,
                p.2 + d.actual,
                p.3 + d.today_actual,
                p.4 + d.current_period_actual,
            )
        } else {
            p
        }
    }
}

/// The day after a record's last working day.
pub open spec fn spec_end_work_day(r: PeriodBucketDurations) -> int {
    r.period_start.day + r.last_work_day_offset + 1
}

/// The furthest work-end day among the first `n` records whose bucket is
/// `b` (the sentinel when none matches).
pub open spec fn spec_max_end(rows: Seq<PeriodBucketDurations>, b: Bucket, n: int) -> int
    decreases n,
{
    if n <= 0 {
        NO_END_DATE as int
    } else {
        let p = spec_max_end(rows, b, n - 1);
        if spec_bucket_eq(rows[n - 1].bucket, b) {
            if spec_end_work_day(rows[n - 1]) > p {
                spec_end_work_day(rows[n - 1])
            } else {
                p
            }
        } else {
            p
        }
    }
}

/// Some of the first `n` records carries bucket `b`.
pub open spec fn spec_bucket_in(rows: Seq<PeriodBucketDurations>, b: Bucket, n: int) -> bool {
    exists|i: int| 0 <= i < n && spec_bucket_eq(#[trigger] rows[i].bucket, b)
}

/// With non-negative tallies, the partial sums grow with the prefix and
/// stay non-negative.
proof fn lemma_sum_durs_mono(rows: Seq<PeriodBucketDurations>, b: Bucket, n: int, m: int)
    requires
        0 <= n <= m <= rows.len(),
        forall|i: int|
            0 <= i < rows.len() ==> spec_durations_nonneg(#[trigger] rows[i].durations),
    ensures
        0 <= spec_sum_durs(rows, b, n).0 <= spec_sum_durs(rows, b, m).0,
        0 <= spec_sum_durs(rows, b, n).1 <= spec_sum_durs(rows, b, m).1,
        0 <= spec_sum_durs(rows, b, n).2 <= spec_sum_durs(rows, b, m).2,
        0 <= spec_sum_durs(rows, b, n).3 <= spec_sum_durs(rows, b, m).3,
        0 <= spec_sum_durs(rows, b, n).4 <= spec_sum_durs(rows, b, m).4,
    decreases m,
{
    if m > n {
        lemma_sum_durs_mono(rows, b, n, m - 1);
    } else if n > 0 {
        lemma_sum_durs_mono(rows, b, n - 1, n - 1);
    }
}

/// Two buckets equal to the same records' buckets collect the same sums
/// and the same furthest end day.
proof fn lemma_bucket_eq_same_totals(
    rows: Seq<PeriodBucketDurations>,
    a: Bucket,
    b: Bucket,
    n: int,
)
    requires
        spec_bucket_eq(a, b),
        0 <= n <= rows.len(),
    ensures
        spec_sum_durs(rows, a, n) == spec_sum_durs(rows, b, n),
        spec_max_end(rows, a, n) == spec_max_end(rows, b, n),
    decreases n,
{
    if n > 0 {
        lemma_bucket_eq_same_totals(rows, a, b, n - 1);
    }
}

impl Processor {
    /// Merges the per-period records into one total per bucket: field-wise
    /// summed tallies and the furthest work-end date.  Every bucket of the
    /// records appears exactly once; which record's bucket value represents
    /// it is unspecified, as is the order.
    #[verifier::rlimit(90)]
    pub fn calculate_totals(&self) -> (r: Vec<(Bucket, TotalDurations)>)
        requires
            forall|i: int|
                0 <= i < self.period_bucket_durations@.len() ==> (
                #[trigger] self.period_bucket_durations@[i]).wf(),
            forall|i: int|
                0 <= i < self.period_bucket_durations@.len() ==> spec_durations_nonneg(
                    (#[trigger] self.period_bucket_durations@[i]).durations,
                ),
            forall|i: int|
                0 <= i < self.period_bucket_durations@.len() ==> ({
                    let s = spec_sum_durs(
                        self.period_bucket_durations@,
                        (#[trigger] self.period_bucket_durations@[i]).bucket,
                        self.period_bucket_durations@.len() as int,
                    );
                    s.0 <= i64::MAX && s.1 <= i64::MAX && s.2 <= i64::MAX && s.3 <= i64::MAX
                        && s.4 <= i64::MAX
                }),
        ensures
            ({
                let rows = self.period_bucket_durations@;
                let n = rows.len() as int;
                &&& forall|j1: int, j2: int|
                    0 <= j1 < j2 < r@.len() ==> !spec_bucket_eq(
                        (#[trigger] r@[j1]).0,
                        (#[trigger] r@[j2]).0,
                    )
                &&& forall|j: int|
                    0 <= j < r@.len() ==> spec_bucket_in(rows, (#[trigger] r@[j]).0, n)
                &&& forall|k: int|
                    0 <= k < n ==> (exists|j: int|
                        0 <= j < r@.len() && spec_bucket_eq(
                            (#[trigger] r@[j]).0,
                            (#[trigger] rows[k]).bucket,
                        ))
                &&& forall|j: int|
                    0 <= j < r@.len() ==> ({
                        let s = spec_sum_durs(rows, (#[trigger] r@[j]).0, n);
                        &&& r@[j].1.durations.expected as int == s.0
                        &&& r@[j].1.durations.partial_expected as int == s.1
                        &&& r@[j].1.durations.actual as int == s.2
                        &&& r@[j].1.durations.today_actual as int == s.3
                        &&& r@[j].1.durations.current_period_actual as int == s.4
                        &&& r@[j].1.end_work_date.day as int == spec_max_end(rows, r@[j].0, n)
                    })
            }),
    {
        let ghost rows = self.period_bucket_durations@;
        let ghost n = rows.len() as int;
        let mut result: Vec<(Bucket, TotalDurations)> = Vec::new();
        let mut k: usize = 0;
        while k < self.period_bucket_durations.len()
            invariant
                k <= n,
                rows == self.period_bucket_durations@,
                n == rows.len() as int,
                forall|i: int| 0 <= i < n ==> (#[trigger] rows[i]).wf(),
                forall|i: int|
                    0 <= i < n ==> spec_durations_nonneg((#[trigger] rows[i]).durations),
                forall|i: int|
                    0 <= i < n ==> ({
                        let s = spec_sum_durs(rows, (#[trigger] rows[i]).bucket, n);
                        s.0 <= i64::MAX && s.1 <= i64::MAX && s.2 <= i64::MAX && s.3 <= i64::MAX
                            && s.4 <= i64::MAX
                    }),
                forall|j1: int, j2: int|
                    0 <= j1 < j2 < result@.len() ==> !spec_bucket_eq(
                        (#[trigger] result@[j1]).0,
                        (#[trigger] result@[j2]).0,
                    ),
                forall|j: int|
                    0 <= j < result@.len() ==> spec_bucket_in(
                        rows,
                        (#[trigger] result@[j]).0,
                        k as int,
                    ),
                forall|i: int|
                    0 <= i < k ==> (exists|j: int|
                        0 <= j < result@.len() && spec_bucket_eq(
                            (#[trigger] result@[j]).0,
                            (#[trigger] rows[i]).bucket,
                        )),
                forall|j: int|
                    0 <= j < result@.len() ==> ({
                        let s = spec_sum_durs(rows, (#[trigger] result@[j]).0, k as int);
                        &&& result@[j].1.durations.expected as int == s.0
                        &&& result@[j].1.durations.partial_expected as int == s.1
                        &&& result@[j].1.durations.actual as int == s.2
                        &&& result@[j].1.durations.today_actual as int == s.3
                        &&& result@[j].1.durations.current_period_actual as int == s.4
                        &&& result@[j].1.end_work_date.day as int == spec_max_end(
                            rows,
                            result@[j].0,
                            k as int,
                        )
                    }),
            decreases n - k,
        {
            let source = &self.period_bucket_durations[k];
            proof {
                assert(rows[k as int].wf());
            }
            let source_end = source.period_start.day + source.last_work_day_offset + 1;
            let mut found: Option<usize> = None;
            let mut j: usize = 0;
            while j < result.len()
                invariant
                    j <= result@.len(),
                    rows == self.period_bucket_durations@,
                    0 <= k < n,
                    n == rows.len() as int,
                    source == &self.period_bucket_durations[k as int],
                    found is None ==> (forall|jj: int|
                        0 <= jj < j ==> !spec_bucket_eq(
                            (#[trigger] result@[jj]).0,
                            rows[k as int].bucket,
                        )),
                    found matches Some(f) ==> (f < result@.len() && spec_bucket_eq(
                        result@[f as int].0,
                        rows[k as int].bucket,
                    )),
                decreases result@.len() - j,
            {
                if found.is_none() && result[j].0.key_eq(&source.bucket) {
                    found = Some(j);
                }
                j = j + 1;
            }
            proof {
                lemma_sum_durs_mono(rows, rows[k as int].bucket, k as int, n);
                lemma_sum_durs_mono(rows, rows[k as int].bucket, k as int + 1, n);
            }
            let ghost result0 = result@;
            match found {
                Some(f) => {
                    proof {
                        lemma_bucket_eq_same_totals(
                            rows,
                            result@[f as int].0,
                            rows[k as int].bucket,
                            k as int,
                        );
                        lemma_bucket_eq_same_totals(
                            rows,
                            result@[f as int].0,
                            rows[k as int].bucket,
                            k as int + 1,
                        );
                        lemma_sum_durs_mono(rows, result@[f as int].0, k as int, n);
                    }
                    let entry_end = result[f].1.end_work_date.day;
                    let new_end = if source_end > entry_end {
                        source_end
                    } else {
                        entry_end
                    };
                    let old_d = result[f].1.durations;
                    let sd = source.durations;
                    let merged = TotalDurations {
                        end_work_date: Date { day: new_end },
                        durations: Durations {
                            expected: old_d.expected + sd.expected,
                            partial_expected: old_d.partial_expected + sd.partial_expected,
                            actual: old_d.actual + sd.actual,
                            today_actual: old_d.today_actual + sd.today_actual,
                            current_period_actual: old_d.current_period_actual
                                + sd.current_period_actual,
                        },
                    };
                    let key = result[f].0.duplicate();
                    result[f] = (key, merged);
                    proof {
                        assert(forall|jj: int|
                            0 <= jj < result@.len() && jj != f ==> result@[jj] == result0[jj]);
                        assert(result@[f as int].0 == result0[f as int].0);
                        assert forall|jj: int|
                            0 <= jj < result@.len() implies ({
                            let s = spec_sum_durs(rows, (#[trigger] result@[jj]).0, k as int + 1);
                            &&& result@[jj].1.durations.expected as int == s.0
                            &&& result@[jj].1.durations.partial_expected as int == s.1
                            &&& result@[jj].1.durations.actual as int == s.2
                            &&& result@[jj].1.durations.today_actual as int == s.3
                            &&& result@[jj].1.durations.current_period_actual as int == s.4
                            &&& result@[jj].1.end_work_date.day as int == spec_max_end(
                                rows,
                                result@[jj].0,
                                k as int + 1,
                            )
                        }) by {
                            if jj != f {
                                assert(!spec_bucket_eq(result0[jj].0, rows[k as int].bucket));
                            }
                        }
                        assert forall|i: int|
                            0 <= i < k + 1 implies (exists|j2: int|
                            0 <= j2 < result@.len() && spec_bucket_eq(
                                (#[trigger] result@[j2]).0,
                                (#[trigger] rows[i]).bucket,
                            )) by {
                            if i < k {
                                let j0 = choose|j0: int|
                                    0 <= j0 < result0.len() && spec_bucket_eq(
                                        (#[trigger] result0[j0]).0,
                                        rows[i].bucket,
                                    );
                                assert(result@[j0].0 == result0[j0].0);
                                assert(spec_bucket_eq(result@[j0].0, rows[i].bucket));
                            } else {
                                assert(spec_bucket_eq(result@[f as int].0, rows[k as int].bucket));
                            }
                        }
                    }
                },
                None => {
                    proof {
                        assert(forall|jj: int|
                            0 <= jj < result@.len() ==> !spec_bucket_eq(
                                (#[trigger] result@[jj]).0,
                                rows[k as int].bucket,
                            ));
                        lemma_sum_durs_mono(rows, rows[k as int].bucket, 0, k as int);
                    }
                    let key = {
                        let b = &self.period_bucket_durations[k].bucket;
                        b.duplicate()
                    };
                    let sd = source.durations;
                    result.push(
                        (
                            key,
                            TotalDurations {
                                end_work_date: Date { day: source_end },
                                durations: sd,
                            },
                        ),
                    );
                    proof {
                        assert(result@[result0.len() as int].0 == rows[k as int].bucket);
                        assert(spec_sum_durs(rows, rows[k as int].bucket, k as int) == (
                            0int,
                            0int,
                            0int,
                            0int,
                            0int,
                        )) by {
                            lemma_sum_not_in(rows, rows[k as int].bucket, k as int);
                        }
                        assert(spec_max_end(rows, rows[k as int].bucket, k as int)
                            == NO_END_DATE as int) by {
                            lemma_sum_not_in(rows, rows[k as int].bucket, k as int);
                        }
                        assert forall|jj: int|
                            0 <= jj < result@.len() implies ({
                            let s = spec_sum_durs(rows, (#[trigger] result@[jj]).0, k as int + 1);
                            &&& result@[jj].1.durations.expected as int == s.0
                            &&& result@[jj].1.durations.partial_expected as int == s.1
                            &&& result@[jj].1.durations.actual as int == s.2
                            &&& result@[jj].1.durations.today_actual as int == s.3
                            &&& result@[jj].1.durations.current_period_actual as int == s.4
                            &&& result@[jj].1.end_work_date.day as int == spec_max_end(
                                rows,
                                result@[jj].0,
                                k as int + 1,
                            )
                        }) by {
                            if jj < result0.len() {
                                assert(result@[jj] == result0[jj]);
                                assert(!spec_bucket_eq(result0[jj].0, rows[k as int].bucket));
                            }
                        }
                        assert forall|i: int|
                            0 <= i < k + 1 implies (exists|j2: int|
                            0 <= j2 < result@.len() && spec_bucket_eq(
                                (#[trigger] result@[j2]).0,
                                (#[trigger] rows[i]).bucket,
                            )) by {
                            if i < k {
                                let j0 = choose|j0: int|
                                    0 <= j0 < result0.len() && spec_bucket_eq(
                                        (#[trigger] result0[j0]).0,
                                        rows[i].bucket,
                                    );
                                assert(result@[j0].0 == result0[j0].0);
                                assert(spec_bucket_eq(result@[j0].0, rows[i].bucket));
                            } else {
                                assert(spec_bucket_eq(
                                    result@[result0.len() as int].0,
                                    rows[k as int].bucket,
                                ));
                            }
                        }
                    }
                },
            }
            k = k + 1;
        }
        result
    }
}

/// A bucket matching no record of the prefix collects nothing there.
proof fn lemma_sum_not_in(rows: Seq<PeriodBucketDurations>, b: Bucket, n: int)
    requires
        0 <= n <= rows.len(),
        forall|i: int| 0 <= i < n ==> !spec_bucket_eq(#[trigger] rows[i].bucket, b),
    ensures
        spec_sum_durs(rows, b, n) == (0int, 0int, 0int, 0int, 0int),
        spec_max_end(rows, b, n) == NO_END_DATE as int,
    decreases n,
{
    if n > 0 {
        lemma_sum_not_in(rows, b, n - 1);
        assert(!spec_bucket_eq(rows[n - 1].bucket, b));
    }
}

impl Bucket {
    /// An exact copy of this bucket.
    pub fn duplicate(&self) -> (r: Bucket)
        ensures
            r == *self,
    {
        Bucket {
            client: self.client.clone(),
            project: match &self.project {
                Some(p) => Some(p.clone()),
                None => None,
            },
        }
    }
}

} // verus!
