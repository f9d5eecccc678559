//! The accrual accumulator: folds externally recorded time entries into the
//! per-period expectation records.
//!
//! A record is split at every local midnight it crosses; each single-day
//! fragment is matched against every bucket, and a matching bucket's actual
//! tallies grow by the fragment's duration.  A second match of the same kind
//! (client-only or project) is a fatal ambiguity; a fragment with no
//! client-only match, or a record missing labels, raises a warning.

use vstd::prelude::*;
use crate::dates::{
    Date, spec_day_of_instant, spec_day_start, spec_date_in_period, day_of_instant, day_start,
    is_date_in_period, TIME_LIMIT,
};
use crate::types::{
    TimeRecord, OntrackError, PeriodBucketDurations, Durations, DUR_LIMIT, MAX_RECORDS,
};
use crate::processor::Processor;

verus! {

/// Largest magnitude a duration tally may reach while records are folded
/// in: the starting limit plus every record's largest possible span.
pub const ACCUM_FIELD_LIMIT: i64 = 4_900_000_000_000_000_000;

impl TimeRecord {
    /// An exact copy of this record.
    pub fn duplicate(&self) -> (r: TimeRecord)
        ensures
            r == *self,
    {
        TimeRecord {
            start: self.start,
            stop: self.stop,
            client: match &self.client {
                Some(c) => Some(c.clone()),
                None => None,
            },
            project: match &self.project {
                Some(p) => Some(p.clone()),
                None => None,
            },
        }
    }
}

/// The instant a record stops: its own, or "now" while still running.
pub open spec fn spec_record_stop(rec: TimeRecord, now: int) -> int {
    match rec.stop {
        Some(s) => s as int,
        None => now,
    }
}

/// A record's instants lie in the supported range and it stops no earlier
/// than it starts.
pub open spec fn spec_record_wf(rec: TimeRecord, now: int) -> bool {
    &&& -TIME_LIMIT <= rec.start <= TIME_LIMIT
    &&& -TIME_LIMIT <= spec_record_stop(rec, now) <= TIME_LIMIT
    &&& rec.start <= spec_record_stop(rec, now)
}

/// The single-day fragments of the interval `[start, stop)`: split at every
/// midnight the interval crosses.
pub open spec fn spec_fragments(start: int, stop: int) -> Seq<(int, int)>
    decreases spec_day_of_instant(stop) - spec_day_of_instant(start),
        via spec_fragments_decreases
{
    if spec_day_of_instant(start) >= spec_day_of_instant(stop) {
        seq![(start, stop)]
    } else {
        seq![(start, spec_day_start(spec_day_of_instant(start) + 1))] + spec_fragments(
            spec_day_start(spec_day_of_instant(start) + 1),
            stop,
        )
    }
}

#[via_fn]
proof fn spec_fragments_decreases(start: int, stop: int) {
    if spec_day_of_instant(start) < spec_day_of_instant(stop) {
        lemma_day_of_day_start(spec_day_of_instant(start) + 1);
    }
}

/// The day starting at a midnight is that midnight's day number.
pub proof fn lemma_day_of_day_start(day: int)
    ensures
        spec_day_of_instant(spec_day_start(day)) == day,
{
    assert((day * 86400) / 86400 == day) by (nonlinear_arith);
}

/// Splitting at midnights loses no time: the fragments partition
/// `[start, stop)`, so their durations sum to `stop - start`, each fragment
/// lies within a single day, and consecutive fragments meet end to start.
pub proof fn lemma_fragments_partition(start: int, stop: int)
    requires
        start <= stop,
    ensures
        spec_fragments(start, stop).len() >= 1,
        spec_fragments(start, stop)[0].0 == start,
        spec_fragments(start, stop).last().1 == stop,
        forall|i: int|
            0 <= i < spec_fragments(start, stop).len() ==> (#[trigger] spec_fragments(
                start,
                stop,
            )[i]).0 <= spec_fragments(start, stop)[i].1,
        forall|i: int|
            0 <= i < spec_fragments(start, stop).len() - 1 ==> (#[trigger] spec_fragments(
                start,
                stop,
            )[i]).1 == spec_fragments(start, stop)[i + 1].0,
        spec_fragments_total(spec_fragments(start, stop)) == stop - start,
        forall|i: int|
            0 <= i < spec_fragments(start, stop).len() ==> spec_day_of_instant(
                (#[trigger] spec_fragments(start, stop)[i]).0,
            ) <= spec_day_of_instant(spec_fragments(start, stop)[i].1) <= spec_day_of_instant(
                spec_fragments(start, stop)[i].0,
            ) + 1,
    decreases spec_day_of_instant(stop) - spec_day_of_instant(start),
{
    let fs = spec_fragments(start, stop);
    lemma_day_of_monotonic(start, stop);
    if spec_day_of_instant(start) >= spec_day_of_instant(stop) {
        assert(fs =~= seq![(start, stop)]);
        assert(spec_fragments_total(fs) == stop - start) by {
            assert(fs.len() == 1);
            assert(fs.last() == (start, stop));
            assert(fs.drop_last() =~= Seq::<(int, int)>::empty());
            assert(spec_fragments_total(Seq::<(int, int)>::empty()) == 0);
        }
    } else {
        let next = spec_day_start(spec_day_of_instant(start) + 1);
        lemma_day_of_day_start(spec_day_of_instant(start) + 1);
        assert(start <= next <= stop) by {
            lemma_day_bounds(start);
            lemma_day_bounds(stop);
        }
        lemma_fragments_partition(next, stop);
        let tail = spec_fragments(next, stop);
        assert(fs =~= seq![(start, next)] + tail);
        assert(fs.last() == tail.last());
        lemma_fragments_total_cons((start, next), tail);
        assert(forall|i: int| 0 <= i < tail.len() ==> fs[i + 1] == tail[i]);
    }
}

/// An instant within a later instant's day count never has a greater day.
pub proof fn lemma_day_of_monotonic(a: int, b: int)
    requires
        a <= b,
    ensures
        spec_day_of_instant(a) <= spec_day_of_instant(b),
{
    vstd::arithmetic::div_mod::lemma_div_is_ordered(a, b, 86400);
}

/// An instant lies within its own day: at or after that day's midnight,
/// before the next.
pub proof fn lemma_day_bounds(t: int)
    ensures
        spec_day_start(spec_day_of_instant(t)) <= t < spec_day_start(
            spec_day_of_instant(t) + 1,
        ),
{
    vstd::arithmetic::div_mod::lemma_fundamental_div_mod(t, 86400);
    assert((spec_day_of_instant(t) + 1) * 86400 == spec_day_of_instant(t) * 86400 + 86400)
        by (nonlinear_arith);
}

/// The summed durations of a fragment list.
pub open spec fn spec_fragments_total(fs: Seq<(int, int)>) -> int
    decreases fs.len(),
{
    if fs.len() == 0 {
        0
    } else {
        spec_fragments_total(fs.drop_last()) + (fs.last().1 - fs.last().0)
    }
}

proof fn lemma_fragments_total_cons(head: (int, int), tail: Seq<(int, int)>)
    ensures
        spec_fragments_total(seq![head] + tail) == (head.1 - head.0) + spec_fragments_total(
            tail,
        ),
    decreases tail.len(),
{
    if tail.len() == 0 {
        let all = seq![head] + tail;
        assert(all =~= seq![head]);
        assert(all.len() == 1);
        assert(all.last() == head);
        assert(all.drop_last() =~= Seq::<(int, int)>::empty());
        assert(spec_fragments_total(Seq::<(int, int)>::empty()) == 0);
        assert(spec_fragments_total(tail) == 0);
    } else {
        let all = seq![head] + tail;
        assert(all.last() == tail.last());
        assert(all.drop_last() =~= seq![head] + tail.drop_last());
        lemma_fragments_total_cons(head, tail.drop_last());
    }
}

/// Whether a fragment on day `frag_day` with the given labels matches a
/// bucket: same client, same (or no) bucket project, fragment day inside
/// the bucket's period.
pub open spec fn spec_frag_matches(
    b: PeriodBucketDurations,
    client: String,
    project: String,
    frag_day: int,
) -> bool {
    &&& b.bucket.client@ == client@
    &&& match b.bucket.project {
        None => true,
        Some(bp) => bp@ == project@,
    }
    &&& spec_date_in_period(frag_day, b.period_start.day as int, b.period_length as int)
}

/// How many of the first `n` buckets match as client-only buckets.
pub open spec fn spec_count_client_matches(
    rows: Seq<PeriodBucketDurations>,
    client: String,
    project: String,
    frag_day: int,
    n: int,
) -> int
    decreases n,
{
    if n <= 0 {
        0
    } else {
        spec_count_client_matches(rows, client, project, frag_day, n - 1) + if spec_frag_matches(
            rows[n - 1],
            client,
            project,
            frag_day,
        ) && rows[n - 1].bucket.project is None {
            1int
        } else {
            0int
        }
    }
}

/// How many of the first `n` buckets match as project buckets.
pub open spec fn spec_count_project_matches(
    rows: Seq<PeriodBucketDurations>,
    client: String,
    project: String,
    frag_day: int,
    n: int,
) -> int
    decreases n,
{
    if n <= 0 {
        0
    } else {
        spec_count_project_matches(rows, client, project, frag_day, n - 1)
            + if spec_frag_matches(rows[n - 1], client, project, frag_day) && rows[n
            - 1].bucket.project is Some {
            1int
        } else {
            0int
        }
    }
}

/// The first ambiguity the bucket scan hits within the first `n` buckets:
/// `Some(true)` for a second client-only match, `Some(false)` for a second
/// project match, `None` when the scan stays unambiguous.
pub open spec fn spec_scan_error(
    rows: Seq<PeriodBucketDurations>,
    client: String,
    project: String,
    frag_day: int,
    n: int,
) -> Option<bool>
    decreases n,
{
    if n <= 0 {
        None
    } else {
        let prev = spec_scan_error(rows, client, project, frag_day, n - 1);
        if prev is Some {
            prev
        } else if spec_frag_matches(rows[n - 1], client, project, frag_day) {
            if rows[n - 1].bucket.project is None {
                if spec_count_client_matches(rows, client, project, frag_day, n - 1) >= 1 {
                    Some(true)
                } else {
                    None
                }
            } else {
                if spec_count_project_matches(rows, client, project, frag_day, n - 1) >= 1 {
                    Some(false)
                } else {
                    None
                }
            }
        } else {
            None
        }
    }
}

/// A bucket after one fragment: a matching bucket's `actual` grows by the
/// duration, its current-period tally too when "now" lies in its period,
/// its today tally too when the fragment falls on "now"'s day; any other
/// bucket is unchanged.
pub open spec fn spec_apply_frag_bucket(
    b: PeriodBucketDurations,
    client: String,
    project: String,
    now_day: int,
    frag_day: int,
    dur: int,
) -> PeriodBucketDurations {
    if spec_frag_matches(b, client, project, frag_day) {
        PeriodBucketDurations {
            period_start: b.period_start,
            bucket: b.bucket,
            period_length: b.period_length,
            last_work_day_offset: b.last_work_day_offset,
            durations: Durations {
                expected: b.durations.expected,
                partial_expected: b.durations.partial_expected,
                actual: (b.durations.actual + dur) as i64,
                today_actual: if frag_day == now_day {
                    (b.durations.today_actual + dur) as i64
                } else {
                    b.durations.today_actual
                },
                current_period_actual: if spec_date_in_period(
                    now_day,
                    b.period_start.day as int,
                    b.period_length as int,
                ) {
                    (b.durations.current_period_actual + dur) as i64
                } else {
                    b.durations.current_period_actual
                },
            },
        }
    } else {
        b
    }
}

/// All buckets after one fragment.
pub open spec fn spec_apply_frag(
    rows: Seq<PeriodBucketDurations>,
    client: String,
    project: String,
    now_day: int,
    frag_day: int,
    dur: int,
) -> Seq<PeriodBucketDurations> {
    Seq::new(
        rows.len(),
        |i: int| spec_apply_frag_bucket(rows[i], client, project, now_day, frag_day, dur),
    )
}

/// The fold of the first `n` fragments of one record over the buckets:
/// the updated buckets, whether an unmatched warning was raised, and the
/// first ambiguity hit (which stops the fold).
pub open spec fn spec_run_fragments(
    rows: Seq<PeriodBucketDurations>,
    client: String,
    project: String,
    now_day: int,
    fs: Seq<(int, int)>,
    n: int,
) -> (Seq<PeriodBucketDurations>, bool, Option<bool>)
    decreases n,
{
    if n <= 0 {
        (rows, false, None)
    } else {
        let prev = spec_run_fragments(rows, client, project, now_day, fs, n - 1);
        if prev.2 is Some {
            prev
        } else {
            let fday = spec_day_of_instant(fs[n - 1].0);
            let dur = fs[n - 1].1 - fs[n - 1].0;
            let err = spec_scan_error(prev.0, client, project, fday, prev.0.len() as int);
            if err is Some {
                (prev.0, prev.1, err)
            } else {
                (
                    spec_apply_frag(prev.0, client, project, now_day, fday, dur),
                    prev.1 || spec_count_client_matches(
                        prev.0,
                        client,
                        project,
                        fday,
                        prev.0.len() as int,
                    ) == 0,
                    None,
                )
            }
        }
    }
}

/// The fold of one whole record over the buckets: a record missing either
/// label only raises a warning; otherwise its fragments are folded in and
/// an ambiguity is reported with the offending record.
pub open spec fn spec_run_record(
    rows: Seq<PeriodBucketDurations>,
    now: int,
    rec: TimeRecord,
) -> (Seq<PeriodBucketDurations>, bool, Option<OntrackError>) {
    match (rec.client, rec.project) {
        (Some(c), Some(p)) => {
            let fs = spec_fragments(rec.start as int, spec_record_stop(rec, now));
            let out = spec_run_fragments(
                rows,
                c,
                p,
                spec_day_of_instant(now),
                fs,
                fs.len() as int,
            );
            (
                out.0,
                out.1,
                match out.2 {
                    Some(true) => Some(OntrackError::AmbiguousClientMatch(rec)),
                    Some(false) => Some(OntrackError::AmbiguousProjectMatch(rec)),
                    None => None,
                },
            )
        },
        _ => (rows, true, None),
    }
}

/// The fold of the first `n` records over the buckets: the updated buckets,
/// whether any warning was raised, and the first fatal ambiguity (which
/// stops the fold).
pub open spec fn spec_run_records(
    rows: Seq<PeriodBucketDurations>,
    now: int,
    recs: Seq<TimeRecord>,
    n: int,
) -> (Seq<PeriodBucketDurations>, bool, Option<OntrackError>)
    decreases n,
{
    if n <= 0 {
        (rows, false, None)
    } else {
        let prev = spec_run_records(rows, now, recs, n - 1);
        if prev.2 is Some {
            prev
        } else {
            let out = spec_run_record(prev.0, now, recs[n - 1]);
            (out.0, prev.1 || out.1, out.2)
        }
    }
}

/// A later scan prefix keeps an ambiguity once hit.
proof fn lemma_scan_error_mono(
    rows: Seq<PeriodBucketDurations>,
    client: String,
    project: String,
    frag_day: int,
    n: int,
    m: int,
)
    requires
        0 <= n <= m,
        spec_scan_error(rows, client, project, frag_day, n) is Some,
    ensures
        spec_scan_error(rows, client, project, frag_day, m) == spec_scan_error(
            rows,
            client,
            project,
            frag_day,
            n,
        ),
    decreases m - n,
{
    if m > n {
        lemma_scan_error_mono(rows, client, project, frag_day, n, m - 1);
    }
}

/// Every bucket's period-level fields lie in their ranges and every tally is
/// within `limit` of zero.
pub open spec fn spec_rows_ok(rows: Seq<PeriodBucketDurations>, limit: int) -> bool {
    forall|i: int|
        0 <= i < rows.len() ==> (#[trigger] rows[i]).wf() && rows[i].durations.bounded_by(limit)
}

impl Processor {
    /// Folds one single-day fragment of a record into every matching
    /// bucket.  Returns whether the fragment raised an unmatched warning;
    /// fails on the first second match of one kind, naming the record.
    fn accumulate_time_entry(
        &mut self,
        start: i64,
        stop: i64,
        time_entry: &TimeRecord,
        client: &String,
        project: &String,
    ) -> (r: Result<bool, OntrackError>)
        requires
            -TIME_LIMIT <= start <= stop <= TIME_LIMIT,
            -TIME_LIMIT <= old(self).now <= TIME_LIMIT,
            spec_rows_ok(old(self).period_bucket_durations@, ACCUM_FIELD_LIMIT as int),
        ensures
            final(self).now == old(self).now,
            (r is Err) <==> spec_scan_error(
                old(self).period_bucket_durations@,
                *client,
                *project,
                spec_day_of_instant(start as int),
                old(self).period_bucket_durations@.len() as int,
            ) is Some,
            r is Err ==> final(self).now == old(self).now,
            r matches Err(e) ==> e == (match spec_scan_error(
                old(self).period_bucket_durations@,
                *client,
                *project,
                spec_day_of_instant(start as int),
                old(self).period_bucket_durations@.len() as int,
            ) {
                Some(true) => OntrackError::AmbiguousClientMatch(*time_entry),
                _ => OntrackError::AmbiguousProjectMatch(*time_entry),
            }),
            r matches Ok(warned) ==> ({
                &&& final(self).period_bucket_durations@ == spec_apply_frag(
                    old(self).period_bucket_durations@,
                    *client,
                    *project,
                    spec_day_of_instant(old(self).now as int),
                    spec_day_of_instant(start as int),
                    stop - start,
                )
                &&& warned == (spec_count_client_matches(
                    old(self).period_bucket_durations@,
                    *client,
                    *project,
                    spec_day_of_instant(start as int),
                    old(self).period_bucket_durations@.len() as int,
                ) == 0)
            }),
    {
        let ghost rows0 = self.period_bucket_durations@;
        let ghost c = *client;
        let ghost p = *project;
        let duration = stop - start;
        let start_date = Date { day: day_of_instant(start) };
        let now_date = Date { day: day_of_instant(self.now) };
        let ghost fday = start_date.day as int;
        let ghost now_day = now_date.day as int;
        let mut found_match_client_only = false;
        let mut found_match_project = false;
        let mut i: usize = 0;
        let n = self.period_bucket_durations.len();
        while i < n
            invariant
                i <= n,
                n == rows0.len(),
                rows0 == old(self).period_bucket_durations@,
                self.now == old(self).now,
                -TIME_LIMIT <= start <= stop <= TIME_LIMIT,
                duration == stop - start,
                fday == spec_day_of_instant(start as int),
                now_day == spec_day_of_instant(old(self).now as int),
                start_date.day as int == fday,
                now_date.day as int == now_day,
                c == *client,
                p == *project,
                spec_rows_ok(rows0, ACCUM_FIELD_LIMIT as int),
                self.period_bucket_durations@.len() == rows0.len(),
                spec_scan_error(rows0, c, p, fday, i as int) is None,
                0 <= spec_count_client_matches(rows0, c, p, fday, i as int),
                0 <= spec_count_project_matches(rows0, c, p, fday, i as int),
                found_match_client_only == (spec_count_client_matches(rows0, c, p, fday, i as int)
                    >= 1),
                found_match_project == (spec_count_project_matches(rows0, c, p, fday, i as int)
                    >= 1),
                forall|k: int|
                    0 <= k < rows0.len() ==> self.period_bucket_durations@[k] == (if k < i {
                        spec_apply_frag_bucket(rows0[k], c, p, now_day, fday, stop - start)
                    } else {
                        rows0[k]
                    }),
            decreases n - i,
        {
            proof {
                assert(self.period_bucket_durations@[i as int] == rows0[i as int]);
                assert(rows0[i as int].wf());
            }
            let (client_ok, project_ok, date_ok) = {
                let b = &self.period_bucket_durations[i];
                let client_ok = *client == b.bucket.client;
                let project_ok = match &b.bucket.project {
                    None => true,
                    Some(bp) => *bp == *project,
                };
                let date_ok = is_date_in_period(start_date, b.period_start, b.period_length);
                (client_ok, project_ok, date_ok)
            };
            let matched = client_ok && project_ok && date_ok;
            proof {
                assert(client_ok == (rows0[i as int].bucket.client@ == c@));
                assert(project_ok == match rows0[i as int].bucket.project {
                    None => true,
                    Some(bp) => bp@ == p@,
                });
                assert(date_ok == spec_date_in_period(
                    fday,
                    rows0[i as int].period_start.day as int,
                    rows0[i as int].period_length as int,
                ));
                assert(matched == spec_frag_matches(rows0[i as int], c, p, fday));
            }
            if matched {
                let is_client_only = self.period_bucket_durations[i].bucket.project.is_none();
                proof {
                    assert(is_client_only == (rows0[i as int].bucket.project is None));
                }
                if is_client_only {
                    if found_match_client_only {
                        proof {
                            assert(spec_scan_error(rows0, c, p, fday, i as int + 1) == Some(
                                true,
                            ));
                            lemma_scan_error_mono(
                                rows0,
                                c,
                                p,
                                fday,
                                i as int + 1,
                                rows0.len() as int,
                            );
                            assert(spec_scan_error(rows0, c, p, fday, rows0.len() as int)
                                == Some(true));
                        }
                        return Err(OntrackError::AmbiguousClientMatch(time_entry.duplicate()));
                    }
                    found_match_client_only = true;
                } else {
                    if found_match_project {
                        proof {
                            assert(spec_scan_error(rows0, c, p, fday, i as int + 1) == Some(
                                false,
                            ));
                            lemma_scan_error_mono(
                                rows0,
                                c,
                                p,
                                fday,
                                i as int + 1,
                                rows0.len() as int,
                            );
                            assert(spec_scan_error(rows0, c, p, fday, rows0.len() as int)
                                == Some(false));
                        }
                        return Err(OntrackError::AmbiguousProjectMatch(time_entry.duplicate()));
                    }
                    found_match_project = true;
                }
                let ghost before = self.period_bucket_durations@;
                let in_current = is_date_in_period(
                    now_date,
                    self.period_bucket_durations[i].period_start,
                    self.period_bucket_durations[i].period_length,
                );
                let is_today = start_date.day == now_date.day;
                let entry = &mut self.period_bucket_durations[i];
                proof {
                    assert(before[i as int] == rows0[i as int]);
                    assert(rows0[i as int].durations.bounded_by(ACCUM_FIELD_LIMIT as int));
                }
                entry.durations.actual = entry.durations.actual + duration;
                if in_current {
                    entry.durations.current_period_actual = entry.durations.current_period_actual
                        + duration;
                }
                if is_today {
                    entry.durations.today_actual = entry.durations.today_actual + duration;
                }
                proof {
                    assert(self.period_bucket_durations@[i as int] == spec_apply_frag_bucket(
                        rows0[i as int],
                        c,
                        p,
                        now_day,
                        fday,
                        stop - start,
                    ));
                    assert(forall|k: int|
                        0 <= k < rows0.len() && k != i ==> self.period_bucket_durations@[k]
                            == before[k]);
                }
            }
            i = i + 1;
        }
        proof {
            assert(self.period_bucket_durations@ =~= spec_apply_frag(
                rows0,
                c,
                p,
                now_day,
                fday,
                stop - start,
            ));
        }
        Ok(!found_match_client_only)
    }
}


/// A bound on every tally also holds for any larger bound.
proof fn lemma_rows_ok_widen(rows: Seq<PeriodBucketDurations>, a: int, b: int)
    requires
        spec_rows_ok(rows, a),
        a <= b,
    ensures
        spec_rows_ok(rows, b),
{
    assert forall|i: int|
        0 <= i < rows.len() implies (#[trigger] rows[i]).wf() && rows[i].durations.bounded_by(
        b,
    ) by {
        assert(rows[i].wf() && rows[i].durations.bounded_by(a));
    }
}

/// Once the fragment fold hits an ambiguity, later folds keep it.
proof fn lemma_run_fragments_mono(
    rows: Seq<PeriodBucketDurations>,
    client: String,
    project: String,
    now_day: int,
    fs: Seq<(int, int)>,
    n: int,
    m: int,
)
    requires
        0 <= n <= m,
        spec_run_fragments(rows, client, project, now_day, fs, n).2 is Some,
    ensures
        spec_run_fragments(rows, client, project, now_day, fs, m) == spec_run_fragments(
            rows,
            client,
            project,
            now_day,
            fs,
            n,
        ),
    decreases m - n,
{
    if m > n {
        lemma_run_fragments_mono(rows, client, project, now_day, fs, n, m - 1);
    }
}

/// Once the record fold hits an ambiguity, later folds keep it.
proof fn lemma_run_records_mono(
    rows: Seq<PeriodBucketDurations>,
    now: int,
    recs: Seq<TimeRecord>,
    n: int,
    m: int,
)
    requires
        0 <= n <= m,
        spec_run_records(rows, now, recs, n).2 is Some,
    ensures
        spec_run_records(rows, now, recs, m) == spec_run_records(rows, now, recs, n),
    decreases m - n,
{
    if m > n {
        lemma_run_records_mono(rows, now, recs, n, m - 1);
    }
}

/// One fragment grows every tally by at most its duration and leaves every
/// period-level field alone.
proof fn lemma_apply_frag_bounds(
    rows: Seq<PeriodBucketDurations>,
    client: String,
    project: String,
    now_day: int,
    fday: int,
    dur: int,
    limit: int,
)
    requires
        spec_rows_ok(rows, limit),
        0 <= dur,
        limit + dur <= i64::MAX,
    ensures
        spec_rows_ok(spec_apply_frag(rows, client, project, now_day, fday, dur), limit + dur),
{
    let out = spec_apply_frag(rows, client, project, now_day, fday, dur);
    assert forall|i: int|
        0 <= i < out.len() implies (#[trigger] out[i]).wf() && out[i].durations.bounded_by(
        limit + dur,
    ) by {
        assert(rows[i].wf() && rows[i].durations.bounded_by(limit));
    }
}

impl Processor {
    /// Folds every time record into the buckets, splitting each at the
    /// midnights it crosses.  Returns whether any record raised an
    /// unmatched warning; fails on the first ambiguous match, naming the
    /// offending record.
    pub fn accumulate_time_entries(&mut self, time_entries: &Vec<TimeRecord>) -> (r: Result<
        bool,
        OntrackError,
    >)
        requires
            -TIME_LIMIT <= old(self).now <= TIME_LIMIT,
            time_entries@.len() <= MAX_RECORDS,
            forall|ri: int|
                0 <= ri < time_entries@.len() ==> spec_record_wf(
                    #[trigger] time_entries@[ri],
                    old(self).now as int,
                ),
            spec_rows_ok(old(self).period_bucket_durations@, DUR_LIMIT as int),
        ensures
            final(self).now == old(self).now,
            ({
                let out = spec_run_records(
                    old(self).period_bucket_durations@,
                    old(self).now as int,
                    time_entries@,
                    time_entries@.len() as int,
                );
                &&& (r is Ok) <==> out.2 is None
                &&& (r matches Ok(warned) ==> final(self).period_bucket_durations@ == out.0
                    && warned == out.1)
                &&& (r matches Err(e) ==> out.2 == Some(e))
            }),
    {
        let ghost rows_init = self.period_bucket_durations@;
        let ghost now_i = old(self).now as int;
        let ghost recs = time_entries@;
        let ghost now_day = spec_day_of_instant(now_i);
        let now_exec = self.now;
        let mut warned = false;
        let mut ri: usize = 0;
        while ri < time_entries.len()
            invariant
                ri <= recs.len(),
                recs == time_entries@,
                recs.len() <= MAX_RECORDS,
                rows_init == old(self).period_bucket_durations@,
                now_i == old(self).now as int,
                now_day == spec_day_of_instant(now_i),
                -TIME_LIMIT <= old(self).now <= TIME_LIMIT,
                self.now == old(self).now,
                now_exec == self.now,
                forall|k: int|
                    0 <= k < recs.len() ==> spec_record_wf(#[trigger] recs[k], now_i),
                spec_rows_ok(rows_init, DUR_LIMIT as int),
                spec_rows_ok(
                    self.period_bucket_durations@,
                    DUR_LIMIT + (ri as int) * (2 * TIME_LIMIT),
                ),
                spec_run_records(rows_init, now_i, recs, ri as int).2 is None,
                spec_run_records(rows_init, now_i, recs, ri as int).0
                    == self.period_bucket_durations@,
                spec_run_records(rows_init, now_i, recs, ri as int).1 == warned,
            decreases recs.len() - ri,
        {
            let ghost rows_rec = self.period_bucket_durations@;
            let ghost rec_g = recs[ri as int];
            let ghost field_limit = DUR_LIMIT + (ri as int) * (2 * TIME_LIMIT);
            let rec = &time_entries[ri];
            let has_labels = rec.client.is_some() && rec.project.is_some();
            if has_labels {
                let stop = match rec.stop {
                    Some(s) => s,
                    None => now_exec,
                };
                let ghost c = rec_g.client.unwrap();
                let ghost p = rec_g.project.unwrap();
                let ghost fs = spec_fragments(rec_g.start as int, stop as int);
                proof {
                    assert(stop as int == spec_record_stop(rec_g, now_i));
                    lemma_fragments_partition(rec_g.start as int, stop as int);
                }
                let stop_day = day_of_instant(stop);
                let mut cur = rec.start;
                let mut warned_rec = false;
                let ghost mut fi: int = 0;
                proof {
                    assert(fs.skip(0) =~= fs);
                    assert(0 <= field_limit <= DUR_LIMIT + (MAX_RECORDS as int) * (2
                        * TIME_LIMIT)) by (nonlinear_arith)
                        requires
                            field_limit == DUR_LIMIT + (ri as int) * (2 * TIME_LIMIT),
                            0 <= ri <= 100_000,
                    ;
                }
                while day_of_instant(cur) != stop_day
                    invariant
                        recs == time_entries@,
                        0 <= ri < recs.len(),
                        rec_g == recs[ri as int],
                        rec_g.client == Some(c),
                        rec_g.project == Some(p),
                        rec == &time_entries[ri as int],
                        spec_record_wf(rec_g, now_i),
                        stop as int == spec_record_stop(rec_g, now_i),
                        stop_day == spec_day_of_instant(stop as int),
                        rec_g.start <= cur <= stop,
                        -TIME_LIMIT <= cur <= TIME_LIMIT,
                        -TIME_LIMIT <= old(self).now <= TIME_LIMIT,
                        self.now == old(self).now,
                        now_i == old(self).now as int,
                        now_day == spec_day_of_instant(now_i),
                        fs == spec_fragments(rec_g.start as int, stop as int),
                        rows_init == old(self).period_bucket_durations@,
                        recs.len() <= MAX_RECORDS,
                        spec_run_records(rows_init, now_i, recs, ri as int).2 is None,
                        spec_run_records(rows_init, now_i, recs, ri as int).0 == rows_rec,
                        spec_run_records(rows_init, now_i, recs, ri as int).1 == warned,
                        0 <= fi < fs.len(),
                        spec_fragments(cur as int, stop as int) == fs.skip(fi),
                        field_limit == DUR_LIMIT + (ri as int) * (2 * TIME_LIMIT),
                        0 <= field_limit <= DUR_LIMIT + (MAX_RECORDS as int) * (2 * TIME_LIMIT),
                        spec_rows_ok(
                            self.period_bucket_durations@,
                            field_limit + (cur - rec_g.start),
                        ),
                        spec_run_fragments(rows_rec, c, p, now_day, fs, fi).2 is None,
                        spec_run_fragments(rows_rec, c, p, now_day, fs, fi).0
                            == self.period_bucket_durations@,
                        spec_run_fragments(rows_rec, c, p, now_day, fs, fi).1 == warned_rec,
                    decreases spec_day_of_instant(stop as int) - spec_day_of_instant(cur as int),
                {
                    let cur_day = day_of_instant(cur);
                    proof {
                        lemma_day_of_monotonic(cur as int, stop as int);
                        assert(spec_day_of_instant(cur as int) < spec_day_of_instant(stop as int));
                        lemma_day_bounds(cur as int);
                        lemma_day_bounds(stop as int);
                        lemma_day_of_day_start(spec_day_of_instant(cur as int) + 1);
                    }
                    let nxt = day_start(cur_day + 1);
                    proof {
                        assert(cur < nxt <= stop);
                        assert(fs.skip(fi) == seq![(cur as int, nxt as int)] + spec_fragments(
                            nxt as int,
                            stop as int,
                        ));
                        assert(fs[fi] == (cur as int, nxt as int)) by {
                            assert(fs.skip(fi)[0] == fs[fi]);
                        }
                        assert(spec_rows_ok(
                            self.period_bucket_durations@,
                            ACCUM_FIELD_LIMIT as int,
                        )) by {
                            assert(field_limit + (cur - rec_g.start) <= ACCUM_FIELD_LIMIT as int);
                        }
                    }
                    let ghost rows_before = self.period_bucket_durations@;
                    let step = match (&rec.client, &rec.project) {
                        (Some(cl), Some(pj)) => self.accumulate_time_entry(cur, nxt, rec, cl, pj),
                        _ => Ok(false),
                    };
                    match step {
                        Ok(w) => {
                            proof {
                                assert(spec_run_fragments(rows_rec, c, p, now_day, fs, fi + 1).2
                                    is None);
                                assert(spec_run_fragments(rows_rec, c, p, now_day, fs, fi + 1).0
                                    == self.period_bucket_durations@);
                                assert(spec_run_fragments(rows_rec, c, p, now_day, fs, fi + 1).1
                                    == (warned_rec || w));
                                lemma_apply_frag_bounds(
                                    rows_before,
                                    c,
                                    p,
                                    now_day,
                                    spec_day_of_instant(cur as int),
                                    nxt - cur,
                                    field_limit + (cur - rec_g.start),
                                );
                                assert(spec_fragments(nxt as int, stop as int) =~= fs.skip(
                                    fi + 1,
                                )) by {
                                    assert(fs.skip(fi).skip(1) =~= fs.skip(fi + 1));
                                    assert((seq![(cur as int, nxt as int)] + spec_fragments(
                                        nxt as int,
                                        stop as int,
                                    )).skip(1) =~= spec_fragments(nxt as int, stop as int));
                                }
                                assert(fi + 1 < fs.len()) by {
                                    assert(spec_fragments(nxt as int, stop as int).len() >= 1);
                                    assert(fs.skip(fi + 1).len() == fs.len() - (fi + 1));
                                }
                            }
                            warned_rec = warned_rec || w;
                            cur = nxt;
                            proof {
                                fi = fi + 1;
                            }
                        },
                        Err(e) => {
                            proof {
                                assert(spec_run_fragments(rows_rec, c, p, now_day, fs, fi + 1).2
                                    == Some(
                                    match e {
                                        OntrackError::AmbiguousClientMatch(_) => true,
                                        _ => false,
                                    },
                                ));
                                lemma_run_fragments_mono(
                                    rows_rec,
                                    c,
                                    p,
                                    now_day,
                                    fs,
                                    fi + 1,
                                    fs.len() as int,
                                );
                                assert(spec_run_record(rows_rec, now_i, rec_g).2 == Some(e));
                                assert(spec_run_records(rows_init, now_i, recs, ri as int + 1).2
                                    == Some(e));
                                lemma_run_records_mono(
                                    rows_init,
                                    now_i,
                                    recs,
                                    ri as int + 1,
                                    recs.len() as int,
                                );
                            }
                            return Err(e);
                        },
                    }
                }
                // the remaining same-day span is the last fragment
                proof {
                    assert(spec_fragments(cur as int, stop as int) =~= seq![
                        (cur as int, stop as int),
                    ]);
                    assert(fs[fi] == (cur as int, stop as int)) by {
                        assert(fs.skip(fi)[0] == fs[fi]);
                    }
                    assert(fi == fs.len() - 1) by {
                        assert(fs.skip(fi).len() == 1);
                    }
                    assert(spec_rows_ok(
                        self.period_bucket_durations@,
                        ACCUM_FIELD_LIMIT as int,
                    )) by {
                        assert(field_limit + (cur - rec_g.start) <= ACCUM_FIELD_LIMIT as int);
                    }
                }
                let ghost rows_before = self.period_bucket_durations@;
                let step = match (&rec.client, &rec.project) {
                    (Some(cl), Some(pj)) => self.accumulate_time_entry(cur, stop, rec, cl, pj),
                    _ => Ok(false),
                };
                match step {
                    Ok(w) => {
                        proof {
                            assert(spec_run_fragments(rows_rec, c, p, now_day, fs, fs.len() as int).2
                                is None);
                            assert(spec_run_fragments(rows_rec, c, p, now_day, fs, fs.len() as int).0
                                == self.period_bucket_durations@);
                            assert(spec_run_fragments(rows_rec, c, p, now_day, fs, fs.len() as int).1
                                == (warned_rec || w));
                            assert(spec_run_record(rows_rec, now_i, rec_g).2 is None);
                            assert(spec_run_record(rows_rec, now_i, rec_g).0
                                == self.period_bucket_durations@);
                            assert(spec_run_record(rows_rec, now_i, rec_g).1 == (warned_rec || w));
                            lemma_apply_frag_bounds(
                                rows_before,
                                c,
                                p,
                                now_day,
                                spec_day_of_instant(cur as int),
                                stop - cur,
                                field_limit + (cur - rec_g.start),
                            );
                            assert(spec_rows_ok(
                                self.period_bucket_durations@,
                                DUR_LIMIT + (ri as int + 1) * (2 * TIME_LIMIT),
                            )) by {
                                assert((ri as int + 1) * (2 * TIME_LIMIT) == (ri as int) * (2
                                    * TIME_LIMIT) + 2 * TIME_LIMIT) by (nonlinear_arith);
                                assert(field_limit + (cur - rec_g.start) + (stop - cur)
                                    <= DUR_LIMIT + (ri as int + 1) * (2 * TIME_LIMIT));
                                lemma_rows_ok_widen(
                                    self.period_bucket_durations@,
                                    field_limit + (cur - rec_g.start) + (stop - cur),
                                    DUR_LIMIT + (ri as int + 1) * (2 * TIME_LIMIT),
                                );
                            }
                        }
                        warned_rec = warned_rec || w;
                    },
                    Err(e) => {
                        proof {
                            assert(spec_run_fragments(rows_rec, c, p, now_day, fs, fi + 1).2
                                == Some(
                                match e {
                                    OntrackError::AmbiguousClientMatch(_) => true,
                                    _ => false,
                                },
                            ));
                            lemma_run_fragments_mono(
                                rows_rec,
                                c,
                                p,
                                now_day,
                                fs,
                                fi + 1,
                                fs.len() as int,
                            );
                            assert(spec_run_record(rows_rec, now_i, rec_g).2 == Some(e));
                            assert(spec_run_records(rows_init, now_i, recs, ri as int + 1).2
                                == Some(e));
                            lemma_run_records_mono(
                                rows_init,
                                now_i,
                                recs,
                                ri as int + 1,
                                recs.len() as int,
                            );
                        }
                        return Err(e);
                    },
                }
                warned = warned || warned_rec;
            } else {
                proof {
                    assert(spec_run_record(self.period_bucket_durations@, now_i, rec_g) == (
                        self.period_bucket_durations@,
                        true,
                        None::<OntrackError>,
                    ));
                    assert((ri as int + 1) * (2 * TIME_LIMIT) >= (ri as int) * (2 * TIME_LIMIT))
                        by (nonlinear_arith)
                        requires
                            0 <= ri,
                    ;
                    lemma_rows_ok_widen(
                        self.period_bucket_durations@,
                        DUR_LIMIT + (ri as int) * (2 * TIME_LIMIT),
                        DUR_LIMIT + (ri as int + 1) * (2 * TIME_LIMIT),
                    );
                }
                warned = true;
            }
            proof {
                assert(spec_run_records(rows_init, now_i, recs, ri as int + 1).2 is None);
                assert(spec_run_records(rows_init, now_i, recs, ri as int + 1).0
                    == self.period_bucket_durations@);
                assert(spec_run_records(rows_init, now_i, recs, ri as int + 1).1 == warned);
            }
            ri = ri + 1;
        }
        Ok(warned)
    }

    /// Folds every time record into the buckets and applies strict mode:
    /// when strict mode is requested and any record raised a warning, the
    /// whole run fails after accumulating.
    pub fn process(&mut self, strict: bool, time_entries: &Vec<TimeRecord>) -> (r: Result<
        (),
        OntrackError,
    >)
        requires
            -TIME_LIMIT <= old(self).now <= TIME_LIMIT,
            time_entries@.len() <= MAX_RECORDS,
            forall|ri: int|
                0 <= ri < time_entries@.len() ==> spec_record_wf(
                    #[trigger] time_entries@[ri],
                    old(self).now as int,
                ),
            spec_rows_ok(old(self).period_bucket_durations@, DUR_LIMIT as int),
        ensures
            final(self).now == old(self).now,
            ({
                let out = spec_run_records(
                    old(self).period_bucket_durations@,
                    old(self).now as int,
                    time_entries@,
                    time_entries@.len() as int,
                );
                &&& (r is Ok) <==> (out.2 is None && !(strict && out.1))
                &&& (r is Ok ==> final(self).period_bucket_durations@ == out.0)
                &&& (out.2 matches Some(e) ==> r == Err::<(), OntrackError>(e))
                &&& ((out.2 is None && strict && out.1) ==> (r == Err::<(), OntrackError>(
                    OntrackError::StrictModeError,
                ) && final(self).period_bucket_durations@ == out.0))
            }),
    {
        let found_warning = match self.accumulate_time_entries(time_entries) {
            Ok(w) => w,
            Err(e) => {
                return Err(e);
            },
        };
        if strict && found_warning {
            return Err(OntrackError::StrictModeError);
        }
        Ok(())
    }

    /// The earliest configured period start, or "now"'s day when no
    /// buckets exist: the lower bound of the record range worth fetching.
    pub fn min_period_start(&self) -> (r: Date)
        requires
            -TIME_LIMIT <= self.now <= TIME_LIMIT,
            forall|i: int|
                0 <= i < self.period_bucket_durations@.len() ==> (
                #[trigger] self.period_bucket_durations@[i]).wf(),
        ensures
            r.day as int == spec_min_period_start(
                self.period_bucket_durations@,
                self.now as int,
                self.period_bucket_durations@.len() as int,
            ),
            r.wf(),
    {
        proof {
            vstd::arithmetic::div_mod::lemma_div_is_ordered(
                self.now as int,
                TIME_LIMIT as int,
                86400,
            );
            vstd::arithmetic::div_mod::lemma_div_is_ordered(
                -TIME_LIMIT as int,
                self.now as int,
                86400,
            );
            assert(TIME_LIMIT as int / 86400 == 46_296_296) by (nonlinear_arith);
            assert((-TIME_LIMIT) as int / 86400 == -46_296_297) by (nonlinear_arith);
        }
        let mut best = Date { day: day_of_instant(self.now) };
        let ghost none_day = best.day as int;
        let mut i: usize = 0;
        while i < self.period_bucket_durations.len()
            invariant
                i <= self.period_bucket_durations@.len(),
                forall|k: int|
                    0 <= k < self.period_bucket_durations@.len() ==> (
                    #[trigger] self.period_bucket_durations@[k]).wf(),
                best.day as int == spec_min_period_start(
                    self.period_bucket_durations@,
                    self.now as int,
                    i as int,
                ),
                none_day == spec_day_of_instant(self.now as int),
                best.wf(),
            decreases self.period_bucket_durations@.len() - i,
        {
            if self.period_bucket_durations[i].period_start.day < best.day {
                best = Date { day: self.period_bucket_durations[i].period_start.day };
            }
            i = i + 1;
        }
        best
    }
}

/// The least period start among the first `n` buckets, or "now"'s day when
/// `n` is zero.
pub open spec fn spec_min_period_start(
    rows: Seq<PeriodBucketDurations>,
    now: int,
    n: int,
) -> int
    decreases n,
{
    if n <= 0 {
        spec_day_of_instant(now)
    } else {
        let prev = spec_min_period_start(rows, now, n - 1);
        if rows[n - 1].period_start.day < prev {
            rows[n - 1].period_start.day as int
        } else {
            prev
        }
    }
}


/// Accumulation is repeatable: the outcome is a function of the prior
/// bucket state, the "now" instant and the record list alone, so two runs
/// over the same record set on equally initialized fresh state produce
/// identical buckets, warnings and errors.
pub proof fn lemma_accumulation_repeatable(
    rows1: Seq<PeriodBucketDurations>,
    now1: int,
    recs1: Seq<TimeRecord>,
    rows2: Seq<PeriodBucketDurations>,
    now2: int,
    recs2: Seq<TimeRecord>,
)
    requires
        rows1 == rows2,
        now1 == now2,
        recs1 == recs2,
    ensures
        spec_run_records(rows1, now1, recs1, recs1.len() as int) == spec_run_records(
            rows2,
            now2,
            recs2,
            recs2.len() as int,
        ),
{
}

} // verus!
