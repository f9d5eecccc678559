//! The period-pacing engine: resolving work-day policies to day offsets,
//! preallocating fixed hour quotas, and pacing a period's expectation up to
//! "now".

use vstd::prelude::*;
use vstd::arithmetic::div_mod::{
    lemma_add_mod_noop, lemma_add_mod_noop_right, lemma_sub_mod_noop, lemma_small_mod,
    lemma_mod_add_multiples_vanish, lemma_fundamental_div_mod,
};
use crate::dates::{Date, Weekday, weekday_index_of_day, day_of_instant, spec_day_of_instant, MAX_PERIOD_DAYS, TIME_LIMIT};
use crate::types::{
    WorkDayInput, WorkDaysInput, ClientInput, PeriodInput, DefaultsInput, Input, Bucket,
    Durations, PeriodBucketDurations, OntrackError, spec_policy_wf, spec_clients_wf,
    spec_client_wf, spec_input_wf, spec_period_input_wf, spec_defaults_wf,
    spec_expected_durations, MAX_HOURS_SECS, MAX_DAY_ENTRIES, MAX_CLIENTS, MAX_OFFSET,
};
use crate::order::{sort_period_buckets, spec_sorted_buckets};
use crate::fraction::{Fraction, spec_round_ratio, FRAC_NUM_LIMIT, FRAC_DEN_LIMIT};

verus! {

/// First in-period day offset whose weekday index is `w`, for a period
/// starting on `start` (may be at or past the period end).
pub open spec fn spec_first_offset(start: int, w: int) -> int {
    (w - weekday_index_of_day(start)) % 7
}

/// The ascending day offsets in `[0, L)` whose weekday index is `w`.
pub open spec fn spec_weekday_offsets(start: int, L: int, w: int) -> Seq<i64> {
    let f = spec_first_offset(start, w);
    let count = if f >= L {
        0
    } else {
        (L - f + 6) / 7
    };
    Seq::new(count as nat, |i: int| (f + 7 * i) as i64)
}

/// The day offsets a work-day specifier resolves to: weekday occurrences
/// within the period, or a raw offset passed through unchanged.
pub open spec fn spec_work_day_offsets(start: int, L: int, wd: WorkDayInput) -> Seq<i64> {
    match wd {
        WorkDayInput::Weekday(w) => spec_weekday_offsets(start, L, w.spec_index_from_sunday()),
        WorkDayInput::Offset(o) => seq![o],
    }
}

/// No work-day specifier resolves to more offsets than this.
pub open spec fn spec_occ_limit(L: int) -> int {
    (L + 6) / 7 + 1
}

/// A day offset has weekday `w` exactly when it is congruent to the first
/// such offset modulo 7.
pub proof fn lemma_weekday_match(start: int, o: int, w: int)
    requires
        0 <= w < 7,
    ensures
        (weekday_index_of_day(start + o) == w) <==> (o % 7 == spec_first_offset(start, w)),
{
    let ws = weekday_index_of_day(start);
    lemma_small_mod((if 0 <= w { w } else { 0 }) as nat, 7nat);
    assert(0 <= ws < 7) by {
        lemma_mod_bound_7(start + 4);
    }
    assert(0 <= o % 7 < 7) by {
        lemma_mod_bound_7(o);
    }
    lemma_add_mod_noop(start + 4, o, 7);
    // weekday_index_of_day(start + o) == (ws + o % 7) % 7
    assert(ws % 7 == ws) by {
        lemma_small_mod(ws as nat, 7nat);
    }
    assert(weekday_index_of_day(start + o) == (ws + o % 7) % 7);
    if o % 7 == spec_first_offset(start, w) {
        lemma_add_mod_noop_right(ws, w - ws, 7);
        assert((ws + (w - ws) % 7) % 7 == (ws + (w - ws)) % 7);
        lemma_small_mod(w as nat, 7nat);
        assert(weekday_index_of_day(start + o) == w);
    }
    if weekday_index_of_day(start + o) == w {
        lemma_sub_mod_noop(ws + o % 7, ws, 7);
        assert(((ws + o % 7) % 7 - ws % 7) % 7 == (o % 7) % 7);
        lemma_small_mod((o % 7) as nat, 7nat);
        assert((w - ws) % 7 == o % 7);
    }
}

/// Euclidean remainder by 7 lies in `[0, 7)`.
pub proof fn lemma_mod_bound_7(x: int)
    ensures
        0 <= x % 7 < 7,
{
    lemma_fundamental_div_mod(x, 7);
}

/// Resolves one work-day specifier to its day offsets within a period of
/// `period_length` days starting at `period_start`.
///
/// A weekday resolves to every in-period offset falling on that weekday, in
/// strictly ascending order; a raw offset passes through unchanged and
/// unvalidated.
pub fn work_day_offsets(period_start: Date, period_length: i64, work_day: WorkDayInput) -> (r:
    Vec<i64>)
    requires
        period_start.wf(),
        0 <= period_length <= MAX_PERIOD_DAYS,
    ensures
        r@ == spec_work_day_offsets(period_start.day as int, period_length as int, work_day),
        r@.len() <= spec_occ_limit(period_length as int),
        forall|i: int, j: int| 0 <= i < j < r@.len() ==> r@[i] < r@[j],
        work_day matches WorkDayInput::Weekday(w) ==> forall|i: int|
            0 <= i < r@.len() ==> 0 <= #[trigger] r@[i] < period_length,
        work_day matches WorkDayInput::Weekday(w) ==> forall|o: i64|
            #[trigger] r@.contains(o) <==> (0 <= o < period_length && weekday_index_of_day(
                period_start.day + o,
            ) == w.spec_index_from_sunday()),
{
    match work_day {
        WorkDayInput::Offset(o) => {
            let mut result: Vec<i64> = Vec::new();
            result.push(o);
            proof {
                assert(result@ =~= seq![o]);
            }
            result
        },
        WorkDayInput::Weekday(w) => {
            let start = period_start.day;
            let length = period_length;
            let w_idx = w.index_from_sunday() as i64;
            let ws = period_start.weekday_index() as i64;
            let diff = w_idx - ws;
            let first: i64 = if diff < 0 {
                diff + 7
            } else {
                diff
            };
            let ghost f = first as int;
            proof {
                if diff < 0 {
                    lemma_mod_add_multiples_vanish(diff as int, 7);
                    lemma_small_mod((diff + 7) as nat, 7nat);
                } else {
                    lemma_small_mod(diff as nat, 7nat);
                }
                assert(f == spec_first_offset(start as int, w_idx as int));
            }
            let ghost count: int = if f >= length { 0int } else { (length - f + 6) / 7 };
            let ghost target = spec_weekday_offsets(
                start as int,
                length as int,
                w.spec_index_from_sunday(),
            );
            let mut offset = first;
            let mut result: Vec<i64> = Vec::new();
            proof {
                lemma_fundamental_div_mod(length - f + 6, 7);
            }
            while offset < length
                invariant
                    0 <= f < 7,
                    0 <= length <= MAX_PERIOD_DAYS,
                    count == (if f >= length { 0int } else { (length - f + 6) / 7 }),
                    offset == f + 7 * result@.len(),
                    result@.len() <= count,
                    result@ =~= Seq::new(result@.len(), |i: int| (f + 7 * i) as i64),
                    7 * count <= length - f + 6 < 7 * count + 7,
                decreases length + 7 - offset,
            {
                result.push(offset);
                offset = offset + 7;
            }
            proof {
                let n = result@.len() as int;
                assert(offset == f + 7 * n);
                assert(offset >= length);
                if f < length {
                    assert(n == count) by {
                        assert(7 * n >= length - f);
                        assert(n > 0 ==> f + 7 * (n - 1) < length);
                    }
                } else {
                    assert(n == 0);
                }
                assert(result@ =~= target);
                // membership: an offset is listed exactly when it is in
                // range and falls on the right weekday
                assert forall|o: i64| #[trigger]
                    result@.contains(o) implies (0 <= o < length && weekday_index_of_day(
                    start + o,
                ) == w.spec_index_from_sunday()) by {
                    let i = choose|i: int| 0 <= i < result@.len() && result@[i] == o;
                    assert(o == f + 7 * i);
                    assert(o % 7 == f) by {
                        lemma_mod_add_multiples_7(f, i);
                    }
                    lemma_weekday_match(start as int, o as int, w_idx as int);
                }
                assert forall|o: i64|
                    (0 <= o < length && weekday_index_of_day(start + o)
                        == w.spec_index_from_sunday()) implies #[trigger] result@.contains(o) by {
                    lemma_weekday_match(start as int, o as int, w_idx as int);
                    assert(o % 7 == f);
                    lemma_fundamental_div_mod(o as int, 7);
                    let i = (o - f) / 7;
                    assert(o == f + 7 * i) by {
                        assert(o == 7 * (o as int / 7) + o % 7);
                        assert(o - f == 7 * (o as int / 7));
                        lemma_div_multiples_7(o as int / 7);
                    }
                    assert(0 <= i);
                    assert(i < count) by {
                        assert(f + 7 * i < length);
                    }
                    assert(result@[i] == o);
                }
            }
            result
        },
    }
}

/// `(f + 7 * i) % 7 == f` for `f` in `[0, 7)`.
proof fn lemma_mod_add_multiples_7(f: int, i: int)
    requires
        0 <= f < 7,
        0 <= i,
    ensures
        (f + 7 * i) % 7 == f,
    decreases i,
{
    if i == 0 {
        lemma_small_mod(f as nat, 7nat);
    } else {
        lemma_mod_add_multiples_vanish(f + 7 * (i - 1), 7);
        lemma_mod_add_multiples_7(f, i - 1);
        assert(f + 7 * i == 7 + (f + 7 * (i - 1)));
    }
}

/// `(7 * q) / 7 == q`.
proof fn lemma_div_multiples_7(q: int)
    ensures
        (7 * q) / 7 == q,
{
    lemma_fundamental_div_mod(7 * q, 7);
    lemma_mod_multiple_is_zero_7(q);
}

/// `(7 * q) % 7 == 0`.
proof fn lemma_mod_multiple_is_zero_7(q: int)
    ensures
        (7 * q) % 7 == 0,
{
    assert((7 * q) % 7 == 0) by (nonlinear_arith);
}


/// Largest value a preallocation map entry may carry.
pub const PREALLOC_VALUE_LIMIT: i64 = 360_000_000_000;

/// Largest total a preallocation may report.
pub const PREALLOC_TOTAL_LIMIT: i64 = 6_000_000_000_000_000;

/// Most entries a preallocation map may hold.
pub const MAP_LEN_LIMIT: usize = 20_000_000;

/// Whether weekday index `w` lies in the cyclic inclusive range
/// `from ..= to` (all indices 0 = Sunday through 6 = Saturday).
pub open spec fn spec_weekday_in_range(w: int, from: int, to: int) -> bool {
    (w - from) % 7 <= (to - from) % 7
}

/// Folds one work day's quota into the preallocation map, one resolved
/// offset at a time: the first `j` offsets each gain `h`.
pub open spec fn spec_apply_offsets(m: Map<int, int>, offs: Seq<i64>, h: int, j: int) -> Map<
    int,
    int,
>
    decreases j,
{
    if j <= 0 {
        m
    } else {
        let p = spec_apply_offsets(m, offs, h, j - 1);
        let o = offs[j - 1] as int;
        p.insert(
            o,
            (if p.dom().contains(o) {
                p[o]
            } else {
                0
            }) + h,
        )
    }
}

/// The preallocation map after folding in the first `n` day-hours entries.
pub open spec fn spec_day_hours_map(
    entries: Seq<(WorkDayInput, i64)>,
    start: int,
    L: int,
    n: int,
) -> Map<int, int>
    decreases n,
{
    if n <= 0 {
        Map::empty()
    } else {
        let p = spec_day_hours_map(entries, start, L, n - 1);
        let offs = spec_work_day_offsets(start, L, entries[n - 1].0);
        spec_apply_offsets(p, offs, entries[n - 1].1 as int, offs.len() as int)
    }
}

/// The preallocated total after the first `n` day-hours entries: each entry
/// counts once per offset it resolves to.
pub open spec fn spec_day_hours_total(
    entries: Seq<(WorkDayInput, i64)>,
    start: int,
    L: int,
    n: int,
) -> int
    decreases n,
{
    if n <= 0 {
        0
    } else {
        spec_day_hours_total(entries, start, L, n - 1) + entries[n - 1].1 * spec_work_day_offsets(
            start,
            L,
            entries[n - 1].0,
        ).len()
    }
}

/// A policy is rejected exactly when its offset range is reversed.
pub open spec fn spec_prealloc_err(policy: WorkDaysInput) -> bool {
    match policy {
        WorkDaysInput::FromToOffsets { from, to } => to < from,
        _ => false,
    }
}

/// The preallocation map a policy denotes: explicitly decided offsets and
/// their fixed second quotas.  Offsets absent from the map are priced
/// dynamically by the pacing calculation.
pub open spec fn spec_prealloc_map(policy: WorkDaysInput, start: int, L: int) -> Map<int, int> {
    match policy {
        WorkDaysInput::FromToWeekdays { from, to } => Map::new(
            |o: int|
                0 <= o < L && !spec_weekday_in_range(
                    weekday_index_of_day(start + o),
                    from.spec_index_from_sunday(),
                    to.spec_index_from_sunday(),
                ),
            |o: int| 0,
        ),
        WorkDaysInput::FromToOffsets { from, to } => Map::new(
            |o: int| 0 <= o < from || to < o < L,
            |o: int| 0,
        ),
        WorkDaysInput::DayHours(entries) => spec_day_hours_map(
            entries@,
            start,
            L,
            entries@.len() as int,
        ),
    }
}

/// The preallocated total a policy denotes: zero unless fixed day quotas
/// are given.
pub open spec fn spec_prealloc_total(policy: WorkDaysInput, start: int, L: int) -> int {
    match policy {
        WorkDaysInput::DayHours(entries) => spec_day_hours_total(
            entries@,
            start,
            L,
            entries@.len() as int,
        ),
        _ => 0,
    }
}

/// Whether the association list holds key `k`.
pub open spec fn spec_map_has(s: Seq<(i64, i64)>, k: int) -> bool {
    exists|i: int| 0 <= i < s.len() && s[i].0 == k
}

/// The value of the first entry with key `k` (0 when absent).
pub open spec fn spec_map_get(s: Seq<(i64, i64)>, k: int) -> int
    decreases s.len(),
{
    if s.len() == 0 {
        0
    } else if s[0].0 == k {
        s[0].1 as int
    } else {
        spec_map_get(s.drop_first(), k)
    }
}

/// No two entries share a key.
pub open spec fn spec_keys_unique(s: Seq<(i64, i64)>) -> bool {
    forall|i: int, j: int| 0 <= i < j < s.len() ==> s[i].0 != s[j].0
}

/// Appending an entry leaves earlier keys' values alone and gives the new
/// key its value when the key was absent.
proof fn lemma_map_push(s: Seq<(i64, i64)>, k: i64, v: i64, q: int)
    ensures
        spec_map_has(s.push((k, v)), q) <==> spec_map_has(s, q) || q == k,
        spec_map_get(s.push((k, v)), q) == if spec_map_has(s, q) {
            spec_map_get(s, q)
        } else if q == k {
            v as int
        } else {
            0
        },
    decreases s.len(),
{
    if s.len() == 0 {
        assert(s.push((k, v))[0] == (k, v));
        assert(s.push((k, v)).drop_first() =~= Seq::<(i64, i64)>::empty());
        assert(!spec_map_has(s, q));
        assert(spec_map_get(Seq::<(i64, i64)>::empty(), q) == 0);
        if q == k as int {
            assert(spec_map_get(s.push((k, v)), q) == v as int);
        } else {
            assert(spec_map_get(s.push((k, v)), q) == spec_map_get(
                s.push((k, v)).drop_first(),
                q,
            ));
        }
    } else {
        assert(s.push((k, v))[0] == s[0]);
        assert(s.push((k, v)).drop_first() =~= s.drop_first().push((k, v)));
        lemma_map_push(s.drop_first(), k, v, q);
        if s[0].0 == q {
            assert(spec_map_has(s, q)) by {
                assert(s[0].0 == q);
            }
            assert(spec_map_get(s.push((k, v)), q) == s[0].1 as int);
            assert(spec_map_get(s, q) == s[0].1 as int);
        } else {
            assert(spec_map_get(s.push((k, v)), q) == spec_map_get(
                s.push((k, v)).drop_first(),
                q,
            ));
            assert(spec_map_get(s.push((k, v)).drop_first(), q) == spec_map_get(
                s.drop_first().push((k, v)),
                q,
            ));
            assert(spec_map_get(s, q) == spec_map_get(s.drop_first(), q));
        }
        assert(spec_map_has(s, q) <==> (s[0].0 == q || spec_map_has(s.drop_first(), q))) by {
            if spec_map_has(s, q) {
                let i = choose|i: int| 0 <= i < s.len() && s[i].0 == q;
                if i > 0 {
                    assert(s.drop_first()[i - 1].0 == q);
                }
            }
            if spec_map_has(s.drop_first(), q) {
                let i = choose|i: int| 0 <= i < s.drop_first().len() && s.drop_first()[i].0 == q;
                assert(s[i + 1].0 == q);
            }
        }
        assert(spec_map_has(s.push((k, v)), q) <==> (s.push((k, v))[0].0 == q || spec_map_has(
            s.push((k, v)).drop_first(),
            q,
        ))) by {
            let t = s.push((k, v));
            if spec_map_has(t, q) {
                let i = choose|i: int| 0 <= i < t.len() && t[i].0 == q;
                if i > 0 {
                    assert(t.drop_first()[i - 1].0 == q);
                }
            }
            if spec_map_has(t.drop_first(), q) {
                let i = choose|i: int|
                    0 <= i < t.drop_first().len() && t.drop_first()[i].0 == q;
                assert(t[i + 1].0 == q);
            }
        }
    }
}

/// Replacing the entry at `idx` with the same key changes that key's value
/// alone, when keys are unique.
proof fn lemma_map_update(s: Seq<(i64, i64)>, idx: int, k: i64, v: i64, q: int)
    requires
        0 <= idx < s.len(),
        s[idx].0 == k,
        spec_keys_unique(s),
    ensures
        spec_map_has(s.update(idx, (k, v)), q) <==> spec_map_has(s, q),
        spec_map_get(s.update(idx, (k, v)), q) == if q == k {
            v as int
        } else {
            spec_map_get(s, q)
        },
    decreases s.len(),
{
    let t = s.update(idx, (k, v));
    assert(spec_map_has(t, q) <==> spec_map_has(s, q)) by {
        if spec_map_has(t, q) {
            let i = choose|i: int| 0 <= i < t.len() && t[i].0 == q;
            assert(s[if i == idx { idx } else { i }].0 == q);
        }
        if spec_map_has(s, q) {
            let i = choose|i: int| 0 <= i < s.len() && s[i].0 == q;
            assert(t[if i == idx { idx } else { i }].0 == q);
        }
    }
    if idx == 0 {
        if q != k {
            assert(t.drop_first() =~= s.drop_first());
        }
    } else {
        assert(t[0] == s[0]);
        assert(t.drop_first() =~= s.drop_first().update(idx - 1, (k, v)));
        assert(spec_keys_unique(s.drop_first())) by {
            assert(forall|i: int, j: int|
                0 <= i < j < s.drop_first().len() ==> s.drop_first()[i].0
                    != s.drop_first()[j].0) by {
                assert(forall|i: int|
                    0 <= i < s.drop_first().len() ==> s.drop_first()[i] == s[i + 1]);
            }
        }
        lemma_map_update(s.drop_first(), idx - 1, k, v, q);
        if s[0].0 == q {
        } else {
        }
    }
}

/// Skipping a key-free prefix does not change lookup.
proof fn lemma_map_skip(s: Seq<(i64, i64)>, k: int, i: int)
    requires
        0 <= i <= s.len(),
        forall|j: int| 0 <= j < i ==> s[j].0 != k,
    ensures
        spec_map_has(s, k) <==> spec_map_has(s.skip(i), k),
        spec_map_get(s, k) == spec_map_get(s.skip(i), k),
    decreases i,
{
    if i > 0 {
        assert(s.drop_first().skip(i - 1) =~= s.skip(i));
        assert(forall|j: int| 0 <= j < i - 1 ==> s.drop_first()[j].0 != k);
        lemma_map_skip(s.drop_first(), k, i - 1);
        assert(spec_map_has(s, k) <==> spec_map_has(s.drop_first(), k)) by {
            if spec_map_has(s, k) {
                let j = choose|j: int| 0 <= j < s.len() && s[j].0 == k;
                assert(j > 0);
                assert(s.drop_first()[j - 1].0 == k);
            }
            if spec_map_has(s.drop_first(), k) {
                let j = choose|j: int|
                    0 <= j < s.drop_first().len() && s.drop_first()[j].0 == k;
                assert(s[j + 1].0 == k);
            }
        }
    } else {
        assert(s.skip(0) =~= s);
    }
}

/// A unique-keyed association list has exactly as many entries as its key
/// set has elements.
proof fn lemma_unique_keys_card(s: Seq<(i64, i64)>)
    requires
        spec_keys_unique(s),
    ensures
        Set::new(|q: int| spec_map_has(s, q)).finite(),
        Set::new(|q: int| spec_map_has(s, q)).len() == s.len(),
    decreases s.len(),
{
    let keys = Set::new(|q: int| spec_map_has(s, q));
    if s.len() == 0 {
        assert(keys =~= Set::<int>::empty());
    } else {
        let prefix = s.take(s.len() - 1);
        let last = s[s.len() - 1];
        assert(spec_keys_unique(prefix)) by {
            assert(forall|i: int| 0 <= i < prefix.len() ==> prefix[i] == s[i]);
        }
        lemma_unique_keys_card(prefix);
        let pkeys = Set::new(|q: int| spec_map_has(prefix, q));
        assert(keys =~= pkeys.insert(last.0 as int)) by {
            assert(forall|q: int| spec_map_has(prefix, q) ==> spec_map_has(s, q)) by {
                assert(forall|i: int| 0 <= i < prefix.len() ==> prefix[i] == s[i]);
            }
            assert forall|q: int| spec_map_has(s, q) implies (spec_map_has(prefix, q) || q
                == last.0) by {
                let i = choose|i: int| 0 <= i < s.len() && s[i].0 == q;
                if i < s.len() - 1 {
                    assert(prefix[i].0 == q);
                }
            }
            assert(spec_map_has(s, last.0 as int)) by {
                assert(s[s.len() - 1].0 == last.0);
            }
        }
        assert(!pkeys.contains(last.0 as int)) by {
            if spec_map_has(prefix, last.0 as int) {
                let i = choose|i: int| 0 <= i < prefix.len() && prefix[i].0 == last.0;
                assert(s[i].0 == s[s.len() - 1].0);
            }
        }
        vstd::set::axiom_set_insert_len(pkeys, last.0 as int);
    }
}

/// Finds the index of the entry with the given key, if any.
fn assoc_find(m: &Vec<(i64, i64)>, key: i64) -> (r: Option<usize>)
    ensures
        r matches Some(i) ==> (i < m@.len() && m@[i as int].0 == key),
        (r is Some) == spec_map_has(m@, key as int),
{
    let mut i: usize = 0;
    while i < m.len()
        invariant
            i <= m@.len(),
            forall|j: int| 0 <= j < i ==> m@[j].0 != key,
        decreases m@.len() - i,
    {
        if m[i].0 == key {
            return Some(i);
        }
        i = i + 1;
    }
    proof {
        if spec_map_has(m@, key as int) {
            let j = choose|j: int| 0 <= j < m@.len() && m@[j].0 == key as int;
            assert(m@[j].0 != key);
        }
    }
    None
}

/// Looks a key up in the association list: the value of its entry, or
/// `None` when absent.
fn assoc_get(m: &Vec<(i64, i64)>, key: i64) -> (r: Option<i64>)
    ensures
        (r is Some) == spec_map_has(m@, key as int),
        r matches Some(v) ==> v as int == spec_map_get(m@, key as int),
{
    let mut i: usize = 0;
    while i < m.len()
        invariant
            i <= m@.len(),
            forall|j: int| 0 <= j < i ==> m@[j].0 != key,
        decreases m@.len() - i,
    {
        if m[i].0 == key {
            proof {
                lemma_map_skip(m@, key as int, i as int);
                assert(m@.skip(i as int)[0] == m@[i as int]);
            }
            return Some(m[i].1);
        }
        i = i + 1;
    }
    proof {
        lemma_map_skip(m@, key as int, i as int);
        assert(m@.skip(i as int).len() == 0);
    }
    None
}


/// The full contract of a successful preallocation: the association list is
/// a unique-keyed rendering of the policy's preallocation map, and the
/// reported total, entry values and size lie within the supported limits.
pub open spec fn spec_prealloc_post(
    policy: WorkDaysInput,
    start: int,
    L: int,
    m: Seq<(i64, i64)>,
    total: i64,
) -> bool {
    let M = spec_prealloc_map(policy, start, L);
    &&& spec_keys_unique(m)
    &&& forall|q: int| #[trigger] spec_map_has(m, q) <==> M.dom().contains(q)
    &&& forall|q: int| M.dom().contains(q) ==> spec_map_get(m, q) == M[q]
    &&& m.len() == M.dom().len()
    &&& total as int == spec_prealloc_total(policy, start, L)
    &&& 0 <= total <= PREALLOC_TOTAL_LIMIT
    &&& forall|i: int| 0 <= i < m.len() ==> 0 <= #[trigger] m[i].1 <= PREALLOC_VALUE_LIMIT
    &&& m.len() <= MAP_LEN_LIMIT
}

/// Lookup in an all-zero map yields zero.
proof fn lemma_map_get_zero(s: Seq<(i64, i64)>, q: int)
    requires
        forall|i: int| 0 <= i < s.len() ==> s[i].1 == 0,
    ensures
        spec_map_get(s, q) == 0,
    decreases s.len(),
{
    if s.len() > 0 {
        assert(forall|i: int| 0 <= i < s.drop_first().len() ==> s.drop_first()[i] == s[i + 1]);
        lemma_map_get_zero(s.drop_first(), q);
    }
}

/// Stepping one weekday at a time from `fi` reaches index `w` exactly at
/// step `(w - fi) % 7`.
proof fn lemma_weekday_step(fi: int, j: int, w: int)
    requires
        0 <= fi < 7,
        0 <= j < 7,
        0 <= w < 7,
    ensures
        (w == (fi + j) % 7) <==> ((w - fi) % 7 == j),
{
    lemma_mod_bound_7(fi + j);
    lemma_mod_bound_7(w - fi);
    if w == (fi + j) % 7 {
        lemma_sub_mod_noop(fi + j, fi, 7);
        lemma_small_mod(fi as nat, 7nat);
        lemma_small_mod(j as nat, 7nat);
        assert(((fi + j) % 7 - fi % 7) % 7 == j % 7);
    }
    if (w - fi) % 7 == j {
        lemma_add_mod_noop_right(fi, w - fi, 7);
        lemma_small_mod(w as nat, 7nat);
        assert((fi + (w - fi) % 7) % 7 == (fi + (w - fi)) % 7);
    }
}

/// Builds the zero-marked map for an inclusive offset range policy: every
/// offset before `from` and after `to` (within the period) is a non-work
/// day.
fn prealloc_from_to_offsets(period_length: i64, from: i64, to: i64) -> (r: Vec<(i64, i64)>)
    requires
        0 <= period_length <= MAX_PERIOD_DAYS,
        -MAX_OFFSET <= from <= MAX_OFFSET,
        -MAX_OFFSET <= to <= MAX_OFFSET,
        from <= to,
    ensures
        forall|st: int|
            #[trigger] spec_prealloc_post(
                (WorkDaysInput::FromToOffsets { from, to }),
                st,
                period_length as int,
                r@,
                0,
            ),
{
    let mut m: Vec<(i64, i64)> = Vec::new();
    let mut o: i64 = 0;
    while o < from
        invariant
            0 <= o,
            from > 0 ==> o <= from,
            from <= 0 ==> o == 0,
            m@.len() == o,
            forall|i: int| 0 <= i < m@.len() ==> m@[i] == (i as i64, 0i64),
        decreases from - o,
    {
        m.push((o, 0));
        o = o + 1;
    }
    let ghost first_len = m@.len() as int;
    let mut p: i64 = to + 1;
    while p < period_length
        invariant
            to + 1 <= p,
            p <= period_length || p == to + 1,
            first_len == (if from > 0 { from as int } else { 0 }),
            m@.len() == first_len + (p - (to + 1)),
            forall|i: int| 0 <= i < first_len ==> m@[i] == (i as i64, 0i64),
            forall|i: int|
                first_len <= i < m@.len() ==> m@[i] == ((to + 1 + (i - first_len)) as i64, 0i64),
        decreases period_length - p,
    {
        m.push((p, 0));
        p = p + 1;
    }
    proof {
        let L = period_length as int;
        let policy = WorkDaysInput::FromToOffsets { from, to };
        assert forall|st: int| #[trigger]
            spec_prealloc_post(policy, st, L, m@, 0) by {
            let M = spec_prealloc_map(policy, st, L);
            let second_len = if L > to + 1 { L - (to + 1) } else { 0int };
            assert(m@.len() == first_len + second_len);
            assert(spec_keys_unique(m@));
            assert forall|q: int| spec_map_has(m@, q) <==> M.dom().contains(q) by {
                if spec_map_has(m@, q) {
                    let i = choose|i: int| 0 <= i < m@.len() && m@[i].0 == q;
                    if i < first_len {
                        assert(q == i);
                    } else {
                        assert(q == to + 1 + (i - first_len));
                    }
                    assert(M.dom().contains(q));
                }
                if M.dom().contains(q) {
                    if 0 <= q < from {
                        assert(m@[q].0 == q);
                        assert(spec_map_has(m@, q));
                    } else {
                        assert(to < q < L);
                        let i = first_len + (q - (to + 1));
                        assert(m@[i].0 == q);
                        assert(spec_map_has(m@, q));
                    }
                }
            }
            assert forall|q: int| M.dom().contains(q) implies spec_map_get(m@, q) == M[q] by {
                lemma_map_get_zero(m@, q);
            }
            assert(m@.len() == M.dom().len()) by {
                lemma_unique_keys_card(m@);
                assert(Set::new(|q: int| spec_map_has(m@, q)) =~= M.dom());
            }
            assert(spec_prealloc_total(policy, st, L) == 0);
            assert(forall|i: int| 0 <= i < m@.len() ==> 0 <= #[trigger] m@[i].1 <= PREALLOC_VALUE_LIMIT);
            assert(m@.len() <= MAP_LEN_LIMIT);
        }
    }
    m
}

/// Builds the zero-marked map for a cyclic weekday range policy: every
/// in-period offset whose weekday lies outside the range is a non-work day.
#[verifier::rlimit(60)]
fn prealloc_from_to_weekdays(
    period_start: Date,
    period_length: i64,
    from: Weekday,
    to: Weekday,
) -> (r: Vec<(i64, i64)>)
    requires
        period_start.wf(),
        0 <= period_length <= MAX_PERIOD_DAYS,
    ensures
        spec_prealloc_post(
            (WorkDaysInput::FromToWeekdays { from, to }),
            period_start.day as int,
            period_length as int,
            r@,
            0,
        ),
{
    let start = period_start.day;
    let fi = from.index_from_sunday() as i64;
    let ti = to.index_from_sunday() as i64;
    let ghost dist = (ti as int - fi as int) % 7;
    proof {
        lemma_mod_bound_7(ti as int - fi as int);
    }
    let mut covered: Vec<bool> = Vec::new();
    let mut z: i64 = 0;
    while z < period_length
        invariant
            0 <= z,
            z <= period_length || z == 0,
            covered@.len() == z,
            forall|i: int| 0 <= i < covered@.len() ==> !covered@[i],
        decreases period_length - z,
    {
        covered.push(false);
        z = z + 1;
    }
    let mut day = from;
    let ghost mut j: int = 0;
    proof {
        lemma_small_mod(fi as nat, 7nat);
    }
    loop
        invariant_except_break
            0 <= j <= dist,
            dist == (ti - fi) % 7,
            0 <= dist < 7,
            fi as int == from.spec_index_from_sunday(),
            ti as int == to.spec_index_from_sunday(),
            0 <= fi < 7,
            0 <= ti < 7,
            period_start.wf(),
            start == period_start.day,
            0 <= period_length <= MAX_PERIOD_DAYS,
            day.spec_index_from_sunday() == (fi + j) % 7,
            covered@.len() == period_length,
            forall|o: int|
                0 <= o < period_length ==> (#[trigger] covered@[o] <==> (weekday_index_of_day(
                    start + o,
                ) - fi) % 7 < j),
        ensures
            covered@.len() == period_length,
            forall|o: int|
                0 <= o < period_length ==> (#[trigger] covered@[o] <==> spec_weekday_in_range(
                    weekday_index_of_day(start + o),
                    fi as int,
                    ti as int,
                )),
        decreases dist - j,
    {
        let offs = work_day_offsets(period_start, period_length, WorkDayInput::Weekday(day));
        let ghost covered_before = covered@;
        let mut k: usize = 0;
        while k < offs.len()
            invariant
                k <= offs@.len(),
                covered@.len() == period_length,
                0 <= period_length <= MAX_PERIOD_DAYS,
                start == period_start.day,
                forall|oo: i64| #[trigger]
                    offs@.contains(oo) <==> (0 <= oo < period_length && weekday_index_of_day(
                        start + oo,
                    ) == day.spec_index_from_sunday()),
                forall|i2: int| 0 <= i2 < offs@.len() ==> 0 <= #[trigger] offs@[i2] < period_length,
                covered_before.len() == period_length,
                forall|o: int|
                    0 <= o < period_length ==> (#[trigger] covered@[o] <==> (covered_before[o]
                        || exists|w: int| 0 <= w < k && #[trigger] offs@[w] == o)),
            decreases offs@.len() - k,
        {
            let o = offs[k];
            proof {
                assert(0 <= offs@[k as int] < period_length);
            }
            let ghost c_k = covered@;
            let idx = o as usize;
            covered[idx] = true;
            proof {
                assert(covered@ =~= c_k.update(o as int, true));
                assert forall|o2: int|
                    0 <= o2 < period_length implies (#[trigger] covered@[o2] <==> (
                covered_before[o2] || exists|w: int|
                    0 <= w < k + 1 && #[trigger] offs@[w] == o2)) by {
                    if o2 == o as int {
                        assert(offs@[k as int] == o2);
                    } else {
                        assert(covered@[o2] == c_k[o2]);
                        if exists|w: int| 0 <= w < k + 1 && #[trigger] offs@[w] == o2 {
                            let w = choose|w: int| 0 <= w < k + 1 && #[trigger] offs@[w] == o2;
                            assert(w != k);
                            assert(0 <= w < k && offs@[w] == o2);
                        }
                    }
                }
            }
            k = k + 1;
        }
        proof {
            let di = day.spec_index_from_sunday();
            assert forall|o: int|
                0 <= o < period_length implies (#[trigger] covered@[o] <==> (
            weekday_index_of_day(start + o) - fi) % 7 < j + 1) by {
                let w = weekday_index_of_day(start + o);
                assert(0 <= w < 7) by {
                    lemma_mod_bound_7(start + o + 4);
                }
                lemma_weekday_step(fi as int, j, w);
                assert(0 <= (w - fi) % 7 < 7) by {
                    lemma_mod_bound_7(w - fi);
                }
                assert((exists|ww: int| 0 <= ww < offs@.len() && #[trigger] offs@[ww] == o)
                    <==> offs@.contains(o as i64)) by {
                    if offs@.contains(o as i64) {
                        let ww = choose|ww: int|
                            #![trigger offs@[ww]]
                            0 <= ww < offs@.len() && offs@[ww] == o as i64;
                        assert(offs@[ww] == o);
                    }
                }
                assert(offs@.contains(o as i64) <==> (w == di));
            }
            j = j + 1;
        }
        if weekday_eq(day, to) {
            proof {
                let di = day.spec_index_from_sunday();
                lemma_weekday_step(fi as int, j - 1, ti as int);
                assert(j - 1 == dist);
                assert forall|o: int|
                    0 <= o < period_length implies (#[trigger] covered@[o]
                        <==> spec_weekday_in_range(
                    weekday_index_of_day(start + o),
                    fi as int,
                    ti as int,
                )) by {
                    let w = weekday_index_of_day(start + o);
                    assert(0 <= (w - fi) % 7 < 7) by {
                        lemma_mod_bound_7(w - fi);
                    }
                }
            }
            break;
        }
        proof {
            lemma_weekday_step(fi as int, j - 1, ti as int);
            assert(j - 1 < dist);
            lemma_add_mod_noop((fi + (j - 1)) as int, 1, 7);
            lemma_small_mod(1nat, 7nat);
            lemma_mod_bound_7(fi + (j - 1));
            lemma_small_mod(((fi + j - 1) % 7) as nat, 7nat);
        }
        day = day.succ();
        proof {
            assert(day.spec_index_from_sunday() == (fi + j) % 7);
        }
    }
    let mut m: Vec<(i64, i64)> = Vec::new();
    let mut o: i64 = 0;
    while o < period_length
        invariant
            0 <= o,
            o <= period_length || o == 0,
            covered@.len() == period_length,
            0 <= period_length <= MAX_PERIOD_DAYS,
            start == period_start.day,
            forall|oo: int|
                0 <= oo < period_length ==> (#[trigger] covered@[oo] <==> spec_weekday_in_range(
                    weekday_index_of_day(start + oo),
                    fi as int,
                    ti as int,
                )),
            m@.len() <= o,
            forall|i: int, i2: int| 0 <= i < i2 < m@.len() ==> m@[i].0 < m@[i2].0,
            forall|i: int| 0 <= i < m@.len() ==> #[trigger] m@[i].1 == 0,
            forall|i: int| 0 <= i < m@.len() ==> 0 <= #[trigger] m@[i].0 < o,
            forall|q: int| #[trigger]
                spec_map_has(m@, q) <==> (0 <= q < o && !spec_weekday_in_range(
                    weekday_index_of_day(start + q),
                    fi as int,
                    ti as int,
                )),
        decreases period_length - o,
    {
        if !covered[o as usize] {
            let ghost m0 = m@;
            m.push((o, 0));
            proof {
                assert forall|q: int| #[trigger]
                    spec_map_has(m@, q) <==> (0 <= q < o + 1 && !spec_weekday_in_range(
                    weekday_index_of_day(start + q),
                    fi as int,
                    ti as int,
                )) by {
                    lemma_map_push(m0, o, 0, q);
                }
            }
        } else {
            proof {
                assert forall|q: int| #[trigger]
                    spec_map_has(m@, q) <==> (0 <= q < o + 1 && !spec_weekday_in_range(
                    weekday_index_of_day(start + q),
                    fi as int,
                    ti as int,
                )) by {
                }
            }
        }
        o = o + 1;
    }
    proof {
        let L = period_length as int;
        let policy = WorkDaysInput::FromToWeekdays { from, to };
        let M = spec_prealloc_map(policy, start as int, L);
        assert(spec_keys_unique(m@));
        assert(forall|q: int| #[trigger] spec_map_has(m@, q) <==> M.dom().contains(q));
        assert forall|q: int| M.dom().contains(q) implies spec_map_get(m@, q) == M[q] by {
            lemma_map_get_zero(m@, q);
        }
        assert(m@.len() == M.dom().len()) by {
            lemma_unique_keys_card(m@);
            assert(Set::new(|q: int| spec_map_has(m@, q)) =~= M.dom());
        }
        assert(forall|i: int| 0 <= i < m@.len() ==> 0 <= #[trigger] m@[i].1 <= PREALLOC_VALUE_LIMIT);
        assert(m@.len() <= MAP_LEN_LIMIT);
        assert(spec_prealloc_total(policy, start as int, L) == 0);
    }
    m
}

/// Per-entry cap on the preallocated total: the occurrence limit of the
/// longest supported period times the largest hour figure.
pub const PREALLOC_ENTRY_LIMIT: i64 = 5_143_320_000_000;

/// No specifier resolves to more than 14287 offsets within a supported
/// period.
proof fn lemma_occ_limit_bound(L: int)
    requires
        0 <= L <= MAX_PERIOD_DAYS,
    ensures
        spec_occ_limit(L) <= 14287,
{
    vstd::arithmetic::div_mod::lemma_div_is_ordered(L + 6, 100_006, 7);
    assert(100_006int / 7 == 14286) by (nonlinear_arith);
}

/// In a unique-keyed association list, lookup of an entry's key yields that
/// entry's value.
proof fn lemma_map_get_index(s: Seq<(i64, i64)>, idx: int)
    requires
        spec_keys_unique(s),
        0 <= idx < s.len(),
    ensures
        spec_map_has(s, s[idx].0 as int),
        spec_map_get(s, s[idx].0 as int) == s[idx].1 as int,
    decreases idx,
{
    assert(spec_map_has(s, s[idx].0 as int));
    if idx == 0 {
    } else {
        assert(spec_keys_unique(s.drop_first())) by {
            assert(forall|a: int|
                0 <= a < s.drop_first().len() ==> s.drop_first()[a] == s[a + 1]);
        }
        assert(s.drop_first()[idx - 1] == s[idx]);
        lemma_map_get_index(s.drop_first(), idx - 1);
        assert(s[0].0 != s[idx].0);
    }
}

/// Builds the quota map for a day-hours policy: each entry's quota is added
/// to every offset its work-day specifier resolves to, and the total counts
/// the quota once per resolved offset.
#[verifier::rlimit(80)]
fn prealloc_day_hours(
    period_start: Date,
    period_length: i64,
    entries: &Vec<(WorkDayInput, i64)>,
) -> (r: (Vec<(i64, i64)>, i64))
    requires
        period_start.wf(),
        0 <= period_length <= MAX_PERIOD_DAYS,
        entries@.len() <= MAX_DAY_ENTRIES,
        forall|i: int| 0 <= i < entries@.len() ==> 0 <= #[trigger] entries@[i].1 <= MAX_HOURS_SECS,
    ensures
        spec_prealloc_post(
            (WorkDaysInput::DayHours(*entries)),
            period_start.day as int,
            period_length as int,
            r.0@,
            r.1,
        ),
{
    let start = period_start.day;
    let ghost S = start as int;
    let ghost L = period_length as int;
    let ghost E = entries@;
    let mut m: Vec<(i64, i64)> = Vec::new();
    let mut total: i64 = 0;
    let mut i: usize = 0;
    proof {
        lemma_occ_limit_bound(L);
    }
    while i < entries.len()
        invariant
            0 <= i <= E.len(),
            E == entries@,
            E.len() <= MAX_DAY_ENTRIES,
            forall|a: int| 0 <= a < E.len() ==> 0 <= #[trigger] E[a].1 <= MAX_HOURS_SECS,
            period_start.wf(),
            S == period_start.day as int,
            L == period_length as int,
            0 <= L <= MAX_PERIOD_DAYS,
            spec_occ_limit(L) <= 14287,
            spec_keys_unique(m@),
            forall|q: int| #[trigger]
                spec_day_hours_map(E, S, L, i as int).dom().contains(q) ==> i64::MIN <= q
                    <= i64::MAX,
            forall|q: int| #[trigger]
                spec_map_has(m@, q) <==> spec_day_hours_map(E, S, L, i as int).dom().contains(q),
            forall|q: int| #[trigger]
                spec_day_hours_map(E, S, L, i as int).dom().contains(q) ==> spec_map_get(m@, q)
                    == spec_day_hours_map(E, S, L, i as int)[q],
            forall|q: int| #[trigger]
                spec_day_hours_map(E, S, L, i as int).dom().contains(q) ==> 0
                    <= spec_day_hours_map(E, S, L, i as int)[q] <= i * MAX_HOURS_SECS,
            total == spec_day_hours_total(E, S, L, i as int),
            0 <= total <= i * PREALLOC_ENTRY_LIMIT,
            m@.len() <= i * 14287,
        decreases E.len() - i,
    {
        let wd = entries[i].0;
        let h = entries[i].1;
        let offs = work_day_offsets(period_start, period_length, wd);
        let ghost Mi = spec_day_hours_map(E, S, L, i as int);
        let ghost Ti = spec_day_hours_total(E, S, L, i as int);
        let ghost base_len = m@.len() as int;
        let mut k: usize = 0;
        while k < offs.len()
            invariant
                0 <= k <= offs@.len(),
                E == entries@,
                0 <= i < E.len(),
                wd == E[i as int].0,
                h == E[i as int].1,
                0 <= h <= MAX_HOURS_SECS,
                i < MAX_DAY_ENTRIES,
                offs@ == spec_work_day_offsets(S, L, wd),
                offs@.len() <= 14287,
                forall|a: int, b: int| 0 <= a < b < offs@.len() ==> offs@[a] < offs@[b],
                Mi == spec_day_hours_map(E, S, L, i as int),
                Ti == spec_day_hours_total(E, S, L, i as int),
                forall|q: int| #[trigger] Mi.dom().contains(q) ==> i64::MIN <= q <= i64::MAX,
                forall|q: int| #[trigger] Mi.dom().contains(q) ==> 0 <= Mi[q] <= i
                    * MAX_HOURS_SECS,
                spec_keys_unique(m@),
                forall|q: int| #[trigger]
                    spec_map_has(m@, q) <==> spec_apply_offsets(
                        Mi,
                        offs@,
                        h as int,
                        k as int,
                    ).dom().contains(q),
                forall|q: int| #[trigger]
                    spec_apply_offsets(Mi, offs@, h as int, k as int).dom().contains(q)
                        ==> spec_map_get(m@, q) == spec_apply_offsets(
                        Mi,
                        offs@,
                        h as int,
                        k as int,
                    )[q],
                forall|q: int| #[trigger]
                    spec_apply_offsets(Mi, offs@, h as int, k as int).dom().contains(q) ==> (
                    i64::MIN <= q <= i64::MAX),
                forall|q: int| #[trigger]
                    spec_apply_offsets(Mi, offs@, h as int, k as int).dom().contains(q) <==> (
                    Mi.dom().contains(q) || (exists|w: int|
                        0 <= w < k && #[trigger] offs@[w] == q)),
                forall|q: int| #[trigger]
                    spec_apply_offsets(Mi, offs@, h as int, k as int).dom().contains(q)
                        ==> spec_apply_offsets(Mi, offs@, h as int, k as int)[q] == (
                    if Mi.dom().contains(q) {
                        Mi[q]
                    } else {
                        0int
                    }) + (
                    if (exists|w: int| 0 <= w < k && #[trigger] offs@[w] == q) {
                        h as int
                    } else {
                        0int
                    }),
                total == Ti + k * h,
                0 <= total <= i * PREALLOC_ENTRY_LIMIT + k * MAX_HOURS_SECS,
                k <= 14287,
                m@.len() <= i * 14287 + k,
            decreases offs@.len() - k,
        {
            let o = offs[k];
            let ghost Mc = spec_apply_offsets(Mi, offs@, h as int, k as int);
            let ghost Mc2 = spec_apply_offsets(Mi, offs@, h as int, k as int + 1);
            proof {
                assert(Mc2 == Mc.insert(
                    o as int,
                    (if Mc.dom().contains(o as int) {
                        Mc[o as int]
                    } else {
                        0int
                    }) + h,
                ));
                assert(forall|w: int| 0 <= w < k ==> #[trigger] offs@[w] != o) by {
                    assert(forall|w: int| 0 <= w < k ==> offs@[w] < offs@[k as int]);
                }
                assert forall|q: int| #[trigger]
                    Mc2.dom().contains(q) <==> (Mi.dom().contains(q) || (exists|w: int|
                    0 <= w < k + 1 && #[trigger] offs@[w] == q)) by {
                    if q == o as int {
                        assert(offs@[k as int] == q);
                    } else {
                        if exists|w: int| 0 <= w < k + 1 && #[trigger] offs@[w] == q {
                            let w = choose|w: int| 0 <= w < k + 1 && #[trigger] offs@[w] == q;
                            assert(w != k);
                            assert(0 <= w < k && offs@[w] == q);
                        }
                    }
                }
                assert forall|q: int| #[trigger]
                    Mc2.dom().contains(q) implies Mc2[q] == (if Mi.dom().contains(q) {
                    Mi[q]
                } else {
                    0int
                }) + (
                if (exists|w: int| 0 <= w < k + 1 && #[trigger] offs@[w] == q) {
                    h as int
                } else {
                    0int
                }) by {
                    if q == o as int {
                        assert(offs@[k as int] == q);
                        assert(!(exists|w: int| 0 <= w < k && #[trigger] offs@[w] == q));
                        assert(Mc2[q] == (if Mc.dom().contains(q) {
                            Mc[q]
                        } else {
                            0int
                        }) + h);
                    } else {
                        assert(Mc2[q] == Mc[q]);
                        assert((exists|w: int| 0 <= w < k + 1 && #[trigger] offs@[w] == q)
                            == (exists|w: int| 0 <= w < k && #[trigger] offs@[w] == q)) by {
                            if exists|w: int| 0 <= w < k + 1 && #[trigger] offs@[w] == q {
                                let w = choose|w: int|
                                    0 <= w < k + 1 && #[trigger] offs@[w] == q;
                                assert(w != k);
                                assert(0 <= w < k && offs@[w] == q);
                            }
                        }
                    }
                }
                assert forall|q: int| #[trigger]
                    Mc2.dom().contains(q) implies i64::MIN <= q <= i64::MAX by {
                }
            }
            match assoc_find(&m, o) {
                Some(idx) => {
                    let cur = m[idx].1;
                    let ghost m0 = m@;
                    proof {
                        lemma_map_get_index(m0, idx as int);
                        assert(spec_map_get(m0, o as int) == cur as int);
                        assert(Mc.dom().contains(o as int));
                        assert(cur == Mc[o as int]);
                        assert(Mc[o as int] == (if Mi.dom().contains(o as int) {
                            Mi[o as int]
                        } else {
                            0int
                        }));
                        assert(0 <= cur <= i * MAX_HOURS_SECS);
                        assert(i * MAX_HOURS_SECS + MAX_HOURS_SECS <= 1000i64
                            * MAX_HOURS_SECS) by (nonlinear_arith)
                            requires
                                i < 1000,
                        ;
                    }
                    m[idx] = (o, cur + h);
                    proof {
                        assert(forall|a: int| 0 <= a < m@.len() ==> m@[a].0 == m0[a].0);
                        assert(spec_keys_unique(m@));
                        assert forall|q: int| #[trigger]
                            spec_map_has(m@, q) <==> Mc2.dom().contains(q) by {
                            lemma_map_update(m0, idx as int, o, (cur + h) as i64, q);
                        }
                        assert forall|q: int| #[trigger]
                            Mc2.dom().contains(q) implies spec_map_get(m@, q) == Mc2[q] by {
                            lemma_map_update(m0, idx as int, o, (cur + h) as i64, q);
                        }
                    }
                },
                None => {
                    let ghost m0 = m@;
                    m.push((o, h));
                    proof {
                        assert(!Mc.dom().contains(o as int));
                        assert(Mc2[o as int] == h as int);
                        assert forall|q: int| #[trigger]
                            spec_map_has(m@, q) <==> Mc2.dom().contains(q) by {
                            lemma_map_push(m0, o, h, q);
                        }
                        assert forall|q: int| #[trigger]
                            Mc2.dom().contains(q) implies spec_map_get(m@, q) == Mc2[q] by {
                            lemma_map_push(m0, o, h, q);
                        }
                        assert(spec_keys_unique(m@)) by {
                            assert(forall|a: int|
                                0 <= a < m0.len() ==> m@[a] == m0[a]);
                            assert(m@[m0.len() as int].0 == o);
                            assert forall|a: int, b: int|
                                0 <= a < b < m@.len() implies m@[a].0 != m@[b].0 by {
                                if b == m0.len() as int {
                                    assert(!spec_map_has(m0, o as int));
                                    if m0[a].0 == o {
                                        assert(spec_map_has(m0, o as int));
                                    }
                                }
                            }
                        }
                    }
                },
            }
            proof {
                assert(Ti + (k + 1) * h == Ti + k * h + h) by (nonlinear_arith);
                assert((k + 1) * MAX_HOURS_SECS == k * MAX_HOURS_SECS + MAX_HOURS_SECS);
                assert(k * h <= k * MAX_HOURS_SECS) by (nonlinear_arith)
                    requires
                        0 <= k,
                        0 <= h <= MAX_HOURS_SECS,
                ;
                assert(total + h <= i * PREALLOC_ENTRY_LIMIT + (k + 1) * MAX_HOURS_SECS);
                assert(i * PREALLOC_ENTRY_LIMIT + (k + 1) * MAX_HOURS_SECS <= 1000i64
                    * PREALLOC_ENTRY_LIMIT + 14287i64 * MAX_HOURS_SECS) by (nonlinear_arith)
                    requires
                        0 <= i < 1000,
                        0 <= k < 14287,
                ;
            }
            total = total + h;
            k = k + 1;
        }
        proof {
            let Mnext = spec_day_hours_map(E, S, L, i as int + 1);
            assert(Mnext == spec_apply_offsets(Mi, offs@, h as int, offs@.len() as int));
            assert(spec_day_hours_total(E, S, L, i as int + 1) == Ti + h * offs@.len());
            assert(total == Ti + offs@.len() * h);
            assert(offs@.len() * h == h * offs@.len()) by (nonlinear_arith);
            assert forall|q: int| #[trigger]
                Mnext.dom().contains(q) implies 0 <= Mnext[q] <= (i + 1) * MAX_HOURS_SECS by {
                assert((i as int) * MAX_HOURS_SECS + MAX_HOURS_SECS == (i + 1)
                    * MAX_HOURS_SECS) by (nonlinear_arith);
            }
            assert(total <= (i + 1) * PREALLOC_ENTRY_LIMIT) by {
                assert(i * PREALLOC_ENTRY_LIMIT + 14287i64 * MAX_HOURS_SECS == i
                    * PREALLOC_ENTRY_LIMIT + PREALLOC_ENTRY_LIMIT) by (nonlinear_arith);
            }
            assert(m@.len() <= (i + 1) * 14287);
        }
        i = i + 1;
    }
    proof {
        let policy = WorkDaysInput::DayHours(*entries);
        let M = spec_prealloc_map(policy, S, L);
        assert(M == spec_day_hours_map(E, S, L, E.len() as int));
        assert(m@.len() == M.dom().len()) by {
            lemma_unique_keys_card(m@);
            assert(Set::new(|q: int| spec_map_has(m@, q)) =~= M.dom());
        }
        assert(total <= PREALLOC_TOTAL_LIMIT) by {
            assert((E.len() as int) * PREALLOC_ENTRY_LIMIT <= 1000
                * PREALLOC_ENTRY_LIMIT) by (nonlinear_arith)
                requires
                    E.len() <= 1000,
            ;
        }
        assert forall|a: int| 0 <= a < m@.len() implies 0 <= #[trigger] m@[a].1
            <= PREALLOC_VALUE_LIMIT by {
            lemma_map_get_index(m@, a);
            assert(spec_map_has(m@, m@[a].0 as int));
            assert((E.len() as int) * MAX_HOURS_SECS <= 1000 * MAX_HOURS_SECS)
                by (nonlinear_arith)
                requires
                    E.len() <= 1000,
            ;
        }
        assert(m@.len() <= MAP_LEN_LIMIT) by {
            assert((E.len() as int) * 14287 <= 1000 * 14287) by (nonlinear_arith)
                requires
                    E.len() <= 1000,
            ;
        }
    }
    (m, total)
}

/// Whether two weekdays are the same day.
fn weekday_eq(a: Weekday, b: Weekday) -> (r: bool)
    ensures
        r == (a.spec_index_from_sunday() == b.spec_index_from_sunday()),
{
    a.index_from_sunday() == b.index_from_sunday()
}


/// Turns a work-day policy into its preallocation: a sparse map from day
/// offset to fixed quota seconds, and the total of all fixed quotas.
///
/// Fails with a configuration error exactly when the policy is an offset
/// range with `to < from`.
pub fn preallocate_hours(
    period_start: Date,
    period_length: i64,
    work_days_input: &WorkDaysInput,
) -> (r: Result<(Vec<(i64, i64)>, i64), OntrackError>)
    requires
        period_start.wf(),
        0 <= period_length <= MAX_PERIOD_DAYS,
        spec_policy_wf(*work_days_input),
    ensures
        (r is Err) <==> spec_prealloc_err(*work_days_input),
        r matches Err(e) ==> e is ConfigurationError,
        r matches Ok(p) ==> spec_prealloc_post(
            *work_days_input,
            period_start.day as int,
            period_length as int,
            p.0@,
            p.1,
        ),
{
    match work_days_input {
        WorkDaysInput::FromToWeekdays { from, to } => {
            let m = prealloc_from_to_weekdays(period_start, period_length, *from, *to);
            proof {
                assert(*work_days_input == (WorkDaysInput::FromToWeekdays {
                    from: *from,
                    to: *to,
                }));
            }
            Ok((m, 0))
        },
        WorkDaysInput::FromToOffsets { from, to } => {
            if *to < *from {
                Err(OntrackError::ConfigurationError)
            } else {
                let m = prealloc_from_to_offsets(period_length, *from, *to);
                proof {
                    assert(*work_days_input == (WorkDaysInput::FromToOffsets {
                        from: *from,
                        to: *to,
                    }));
                }
                Ok((m, 0))
            }
        },
        WorkDaysInput::DayHours(entries) => {
            let (m, total) = prealloc_day_hours(period_start, period_length, entries);
            proof {
                assert(*work_days_input == WorkDaysInput::DayHours(*entries));
            }
            Ok((m, total))
        },
    }
}

/// The sum of the client-level expected seconds of a period's client list.
pub open spec fn spec_total_expected(cs: Seq<(String, ClientInput)>) -> int
    decreases cs.len(),
{
    if cs.len() == 0 {
        0
    } else {
        spec_total_expected(cs.drop_last()) + cs.last().1.expected_secs
    }
}

/// Fixed quota seconds of the offsets `[0, n)` that are marked in the map
/// and have been reached by the day offset `today`.
pub open spec fn spec_marked_sum(M: Map<int, int>, today: int, n: int) -> int
    decreases n,
{
    if n <= 0 {
        0
    } else {
        spec_marked_sum(M, today, n - 1) + if M.dom().contains(n - 1) && n - 1 <= today {
            M[n - 1]
        } else {
            0
        }
    }
}

/// How many offsets in `[0, n)` are unmarked and have been reached by the
/// day offset `today`.
pub open spec fn spec_unmarked_count(M: Map<int, int>, today: int, n: int) -> int
    decreases n,
{
    if n <= 0 {
        0
    } else {
        spec_unmarked_count(M, today, n - 1) + if !M.dom().contains(n - 1) && n - 1 <= today {
            1int
        } else {
            0int
        }
    }
}

/// The exact fraction of the period's expected hours that should have
/// accrued by the day offset `today`: each marked offset carries its fixed
/// quota, each unmarked offset carries an even share `(T - P) / D` of the
/// unallocated remainder (`D` unmarked offsets in a period of `L` days with
/// total expectation `T` and preallocated total `P`; zero share when `D` is
/// zero), and the reached quotas are summed and divided by `T`.  Zero when
/// `T` is zero; the denominator is kept positive.
pub open spec fn spec_pace_fraction(M: Map<int, int>, P: int, T: int, L: int, today: int) -> (
    int,
    int,
) {
    if T == 0 {
        (0int, 1int)
    } else {
        let D = L - M.dom().len();
        let S = spec_marked_sum(M, today, L);
        if D == 0 {
            if T < 0 {
                (-S, -T)
            } else {
                (S, T)
            }
        } else {
            let num = D * S + spec_unmarked_count(M, today, L) * (T - P);
            let den = D * T;
            if den < 0 {
                (-num, -den)
            } else {
                (num, den)
            }
        }
    }
}

/// Whether the day offset `o` carries strictly positive hours: its fixed
/// quota when marked, the even share of the remainder when unmarked.
pub open spec fn spec_hours_positive(M: Map<int, int>, P: int, T: int, L: int, o: int) -> bool {
    if M.dom().contains(o) {
        M[o] > 0
    } else {
        let D = L - M.dom().len();
        D != 0 && (T - P) * D > 0
    }
}

/// The greatest offset in `[0, n)` carrying strictly positive hours, or 0
/// when there is none.
pub open spec fn spec_last_work_offset(M: Map<int, int>, P: int, T: int, L: int, n: int) -> int
    decreases n,
{
    if n <= 0 {
        0
    } else if spec_hours_positive(M, P, T, L, n - 1) {
        n - 1
    } else {
        spec_last_work_offset(M, P, T, L, n - 1)
    }
}

/// Paces a period as of the instant `now`: the exact fraction of its total
/// expected hours that should already have accrued, and the last working
/// day offset.
///
/// Fails with a configuration error exactly when the policy is an offset
/// range with `to < from`.
pub fn calculate_partial_period_hours_percent(
    now: i64,
    period_start: Date,
    period_length: i64,
    clients: &Vec<(String, ClientInput)>,
    work_days_input: &WorkDaysInput,
) -> (r: Result<(Fraction, i64), OntrackError>)
    requires
        -TIME_LIMIT <= now <= TIME_LIMIT,
        period_start.wf(),
        0 <= period_length <= MAX_PERIOD_DAYS,
        spec_policy_wf(*work_days_input),
        spec_clients_wf(clients@),
    ensures
        (r is Err) <==> spec_prealloc_err(*work_days_input),
        r matches Err(e) ==> e is ConfigurationError,
        r matches Ok(pr) ==> ({
            let M = spec_prealloc_map(
                *work_days_input,
                period_start.day as int,
                period_length as int,
            );
            let P = spec_prealloc_total(
                *work_days_input,
                period_start.day as int,
                period_length as int,
            );
            let T = spec_total_expected(clients@);
            let today = spec_day_of_instant(now as int) - period_start.day;
            &&& pr.0.wf()
            &&& pr.0.num as int == spec_pace_fraction(M, P, T, period_length as int, today).0
            &&& pr.0.den as int == spec_pace_fraction(M, P, T, period_length as int, today).1
            &&& pr.1 as int == spec_last_work_offset(
                M,
                P,
                T,
                period_length as int,
                period_length as int,
            )
            &&& 0 <= pr.1
            &&& period_length > 0 ==> pr.1 < period_length
            &&& period_length == 0 ==> pr.1 == 0
        }),
{
    let ghost S_day = period_start.day as int;
    let ghost L = period_length as int;
    let (m, total_preallocated) = match preallocate_hours(
        period_start,
        period_length,
        work_days_input,
    ) {
        Ok(p) => p,
        Err(e) => {
            return Err(e);
        },
    };
    let ghost M = spec_prealloc_map(*work_days_input, S_day, L);
    let ghost P = spec_prealloc_total(*work_days_input, S_day, L);

    let mut total_expected: i64 = 0;
    let mut ci: usize = 0;
    proof {
        assert(clients@.take(0) =~= Seq::<(String, ClientInput)>::empty());
    }
    while ci < clients.len()
        invariant
            ci <= clients@.len(),
            spec_clients_wf(clients@),
            total_expected == spec_total_expected(clients@.take(ci as int)),
            0 <= total_expected <= ci * MAX_HOURS_SECS,
        decreases clients@.len() - ci,
    {
        proof {
            assert(spec_client_wf(clients@[ci as int].1));
            assert(clients@.take(ci as int + 1).drop_last() =~= clients@.take(ci as int));
            assert(clients@.take(ci as int + 1).last() == clients@[ci as int]);
        }
        total_expected = total_expected + clients[ci].1.expected_secs;
        ci = ci + 1;
    }
    proof {
        assert(clients@.take(clients@.len() as int) =~= clients@);
        assert(total_expected <= 1000 * MAX_HOURS_SECS) by (nonlinear_arith)
            requires
                total_expected <= ci * MAX_HOURS_SECS,
                ci <= 1000,
                0 <= ci,
        ;
    }
    let ghost T = spec_total_expected(clients@);

    let today_day = day_of_instant(now);
    proof {
        vstd::arithmetic::div_mod::lemma_div_is_ordered(now as int, TIME_LIMIT as int, 86400);
        vstd::arithmetic::div_mod::lemma_div_is_ordered(-TIME_LIMIT as int, now as int, 86400);
        assert(TIME_LIMIT as int / 86400 == 46_296_296) by (nonlinear_arith);
        assert((-TIME_LIMIT) as int / 86400 == -46_296_297) by (nonlinear_arith);
    }
    let today_offset = today_day - period_start.day;
    let ghost today = today_offset as int;

    let d_unmarked: i64 = period_length - (m.len() as i64);
    let diff: i64 = total_expected - total_preallocated;
    let mut s_marked: i64 = 0;
    let mut k_unmarked: i64 = 0;
    let mut last: i64 = 0;
    let mut o: i64 = 0;
    while o < period_length
        invariant
            0 <= o,
            o <= period_length || o == 0,
            0 <= period_length <= MAX_PERIOD_DAYS,
            spec_prealloc_post(*work_days_input, S_day, L, m@, total_preallocated),
            M == spec_prealloc_map(*work_days_input, S_day, L),
            P == spec_prealloc_total(*work_days_input, S_day, L),
            L == period_length as int,
            today == today_offset as int,
            d_unmarked as int == L - M.dom().len(),
            diff == total_expected - total_preallocated,
            total_expected as int == T,
            s_marked == spec_marked_sum(M, today, o as int),
            0 <= s_marked <= o * PREALLOC_VALUE_LIMIT,
            k_unmarked == spec_unmarked_count(M, today, o as int),
            0 <= k_unmarked <= o,
            last == spec_last_work_offset(M, P, T, L, o as int),
            0 <= last,
            o > 0 ==> last < o,
            o == 0 ==> last == 0,
        decreases period_length - o,
    {
        match assoc_get(&m, o) {
            Some(v) => {
                proof {
                    assert(M.dom().contains(o as int));
                    assert(v as int == M[o as int]);
                    assert(0 <= v <= PREALLOC_VALUE_LIMIT) by {
                        let idx = choose|idx: int| 0 <= idx < m@.len() && m@[idx].0 == o;
                        lemma_map_get_index(m@, idx);
                    }
                }
                if o <= today_offset {
                    s_marked = s_marked + v;
                }
                if v > 0 {
                    last = o;
                }
            },
            None => {
                proof {
                    assert(!M.dom().contains(o as int));
                }
                if o <= today_offset {
                    k_unmarked = k_unmarked + 1;
                }
                if d_unmarked != 0 && ((diff > 0 && d_unmarked > 0) || (diff < 0 && d_unmarked
                    < 0)) {
                    proof {
                        assert((diff as int) * (d_unmarked as int) > 0) by (nonlinear_arith)
                            requires
                                (diff > 0 && d_unmarked > 0) || (diff < 0 && d_unmarked < 0),
                        ;
                    }
                    last = o;
                } else {
                    proof {
                        if d_unmarked != 0 {
                            assert(!((diff as int) * (d_unmarked as int) > 0))
                                by (nonlinear_arith)
                                requires
                                    !((diff > 0 && d_unmarked > 0) || (diff < 0 && d_unmarked
                                        < 0)),
                            ;
                        }
                    }
                }
            },
        }
        o = o + 1;
    }
    if total_expected == 0 {
        return Ok((Fraction::zero(), last));
    }
    if d_unmarked == 0 {
        let fr = Fraction { num: s_marked as i128, den: total_expected as i128 };
        return Ok((fr, last));
    }
    let di = d_unmarked as i128;
    proof {
        assert(-20_000_000 <= d_unmarked <= 100_000);
        assert(0 <= s_marked <= 100_000i64 * PREALLOC_VALUE_LIMIT) by (nonlinear_arith)
            requires
                0 <= s_marked <= o * PREALLOC_VALUE_LIMIT,
                0 <= o <= 100_000,
        ;
        assert({
            let p1 = di * (s_marked as i128);
            -1_000_000_000_000_000_000_000_000i128 <= p1 <= 1_000_000_000_000_000_000_000_000i128
        }) by (nonlinear_arith)
            requires
                -20_000_000 <= di <= 100_000,
                0 <= s_marked <= 100_000i64 * PREALLOC_VALUE_LIMIT,
        ;
        assert({
            let p2 = (k_unmarked as i128) * ((total_expected as i128) - (
            total_preallocated as i128));
            -1_000_000_000_000_000_000_000_000i128 <= p2 <= 1_000_000_000_000_000_000_000_000i128
        }) by (nonlinear_arith)
            requires
                0 <= k_unmarked <= 100_000,
                0 <= total_expected <= 1000i64 * MAX_HOURS_SECS,
                0 <= total_preallocated <= PREALLOC_TOTAL_LIMIT,
        ;
        assert({
            let dd = di * (total_expected as i128);
            -FRAC_DEN_LIMIT <= dd <= FRAC_DEN_LIMIT && dd != 0
        }) by (nonlinear_arith)
            requires
                di == d_unmarked as i128,
                -20_000_000 <= d_unmarked <= 100_000,
                d_unmarked != 0,
                0 < total_expected <= 1000i64 * MAX_HOURS_SECS,
        ;
    }
    let num = di * (s_marked as i128) + (k_unmarked as i128) * ((total_expected as i128)
        - (total_preallocated as i128));
    let den = di * (total_expected as i128);
    if den < 0 {
        Ok((Fraction { num: -num, den: -den }, last))
    } else {
        Ok((Fraction { num, den }, last))
    }
}


/// The default period length, in days.
pub const DEFAULT_PERIOD_LENGTH: i64 = 7;

/// The default work-day policy: Monday through Friday.
pub open spec fn spec_default_work_days() -> WorkDaysInput {
    WorkDaysInput::FromToWeekdays { from: Weekday::Mon, to: Weekday::Fri }
}

/// The length a period resolves to: its own, the default's, or seven days.
pub open spec fn spec_period_length_of(p: PeriodInput, d: DefaultsInput) -> i64 {
    match p.length {
        Some(l) => l,
        None => match d.period_length {
            Some(l) => l,
            None => DEFAULT_PERIOD_LENGTH,
        },
    }
}

/// The work-day policy a period resolves to: its own, the default's, or
/// Monday through Friday.
pub open spec fn spec_period_policy_of(p: PeriodInput, d: DefaultsInput) -> WorkDaysInput {
    match p.work_days {
        Some(w) => w,
        None => match d.work_days {
            Some(w) => w,
            None => spec_default_work_days(),
        },
    }
}

/// The expectation record of one project bucket.
pub open spec fn spec_project_row(
    start: Date,
    plen: i64,
    last: i64,
    frac: Fraction,
    name: String,
    pname: String,
    secs: i64,
) -> PeriodBucketDurations {
    PeriodBucketDurations {
        period_start: start,
        bucket: Bucket { client: name, project: Some(pname) },
        period_length: plen,
        last_work_day_offset: last,
        durations: spec_expected_durations(secs, frac),
    }
}

/// The expectation records one client commitment yields: one per project,
/// then the client's own project-less bucket.
pub open spec fn spec_client_rows(
    start: Date,
    plen: i64,
    last: i64,
    frac: Fraction,
    name: String,
    c: ClientInput,
) -> Seq<PeriodBucketDurations> {
    let proj_rows = match c.projects {
        Some(ps) => Seq::new(
            ps@.len(),
            |j: int| spec_project_row(start, plen, last, frac, name, ps@[j].0, ps@[j].1.expected_secs),
        ),
        None => Seq::<PeriodBucketDurations>::empty(),
    };
    proj_rows.push(
        PeriodBucketDurations {
            period_start: start,
            bucket: Bucket { client: name, project: None },
            period_length: plen,
            last_work_day_offset: last,
            durations: spec_expected_durations(c.expected_secs, frac),
        },
    )
}

/// The expectation records of the first `n` clients of a period.
pub open spec fn spec_rows_for_clients(
    start: Date,
    plen: i64,
    last: i64,
    frac: Fraction,
    cs: Seq<(String, ClientInput)>,
    n: int,
) -> Seq<PeriodBucketDurations>
    decreases n,
{
    if n <= 0 {
        Seq::empty()
    } else {
        spec_rows_for_clients(start, plen, last, frac, cs, n - 1) + spec_client_rows(
            start,
            plen,
            last,
            frac,
            cs[n - 1].0,
            cs[n - 1].1,
        )
    }
}

/// The pacing fraction of one period, packaged as a `Fraction`.
pub open spec fn spec_period_fraction(now: int, p: PeriodInput, d: DefaultsInput) -> Fraction {
    let L = spec_period_length_of(p, d) as int;
    let policy = spec_period_policy_of(p, d);
    let fr = spec_pace_fraction(
        spec_prealloc_map(policy, p.start.day as int, L),
        spec_prealloc_total(policy, p.start.day as int, L),
        spec_total_expected(p.clients@),
        L,
        spec_day_of_instant(now) - p.start.day,
    );
    Fraction { num: fr.0 as i128, den: fr.1 as i128 }
}

/// The last working day offset of one period.
pub open spec fn spec_period_last_offset(p: PeriodInput, d: DefaultsInput) -> i64 {
    let L = spec_period_length_of(p, d) as int;
    let policy = spec_period_policy_of(p, d);
    spec_last_work_offset(
        spec_prealloc_map(policy, p.start.day as int, L),
        spec_prealloc_total(policy, p.start.day as int, L),
        spec_total_expected(p.clients@),
        L,
        L,
    ) as i64
}

/// The expectation records one configured period yields.
pub open spec fn spec_period_rows(now: int, d: DefaultsInput, p: PeriodInput) -> Seq<
    PeriodBucketDurations,
> {
    spec_rows_for_clients(
        p.start,
        spec_period_length_of(p, d),
        spec_period_last_offset(p, d),
        spec_period_fraction(now, p, d),
        p.clients@,
        p.clients@.len() as int,
    )
}

/// The expectation records of the first `n` configured periods, in
/// configuration order.
pub open spec fn spec_initial_rows(
    now: int,
    d: DefaultsInput,
    ps: Seq<PeriodInput>,
    n: int,
) -> Seq<PeriodBucketDurations>
    decreases n,
{
    if n <= 0 {
        Seq::empty()
    } else {
        spec_initial_rows(now, d, ps, n - 1) + spec_period_rows(now, d, ps[n - 1])
    }
}

/// The engine: holds "now" and, once initialized, one expectation record per
/// (period, bucket) pair, sorted by period start and bucket.
#[derive(Clone, Debug)]
pub struct Processor {
    pub now: i64,
    pub period_bucket_durations: Vec<PeriodBucketDurations>,
}

impl Processor {
    /// A fresh engine for the given "now" instant, with no records yet.
    pub fn new(now: i64) -> (r: Processor)
        requires
            -TIME_LIMIT <= now <= TIME_LIMIT,
        ensures
            r.now == now,
            r.period_bucket_durations@.len() == 0,
    {
        Processor { now, period_bucket_durations: Vec::new() }
    }

    /// Appends the expectation records of one client commitment: one bucket
    /// per project, then the client's own bucket.
    fn initialize_period_client(
        rows: &mut Vec<PeriodBucketDurations>,
        period_start: Date,
        period_length: i64,
        last_work_day_offset: i64,
        partial_percent: Fraction,
        client_name: &String,
        client_input: &ClientInput,
    )
        requires
            spec_client_wf(*client_input),
            partial_percent.wf(),
        ensures
            final(rows)@ == old(rows)@ + spec_client_rows(
                period_start,
                period_length,
                last_work_day_offset,
                partial_percent,
                *client_name,
                *client_input,
            ),
    {
        let ghost base = rows@;
        let ghost target = spec_client_rows(
            period_start,
            period_length,
            last_work_day_offset,
            partial_percent,
            *client_name,
            *client_input,
        );
        if let Some(projects) = &client_input.projects {
            let mut j: usize = 0;
            while j < projects.len()
                invariant
                    j <= projects@.len(),
                    client_input.projects == Some(*projects),
                    spec_client_wf(*client_input),
                    partial_percent.wf(),
                    rows@ =~= base + Seq::new(
                        j as nat,
                        |i: int| spec_project_row(
                            period_start,
                            period_length,
                            last_work_day_offset,
                            partial_percent,
                            *client_name,
                            projects@[i].0,
                            projects@[i].1.expected_secs,
                        ),
                    ),
                decreases projects@.len() - j,
            {
                proof {
                    assert(0 <= projects@[j as int].1.expected_secs <= MAX_HOURS_SECS);
                }
                let d = Durations::expected(projects[j].1.expected_secs, partial_percent);
                rows.push(
                    PeriodBucketDurations {
                        period_start,
                        bucket: Bucket {
                            client: client_name.clone(),
                            project: Some(projects[j].0.clone()),
                        },
                        period_length,
                        last_work_day_offset,
                        durations: d,
                    },
                );
                j = j + 1;
            }
        }
        let d = Durations::expected(client_input.expected_secs, partial_percent);
        rows.push(
            PeriodBucketDurations {
                period_start,
                bucket: Bucket { client: client_name.clone(), project: None },
                period_length,
                last_work_day_offset,
                durations: d,
            },
        );
        proof {
            assert(rows@ =~= base + target);
        }
    }

    /// Expands the configuration into one expectation record per (period,
    /// bucket) pair, paced as of this engine's "now", and sorts them by
    /// period start and bucket.
    ///
    /// Fails with a configuration error exactly when some period's policy
    /// is an offset range with `to < from`; no records are kept in that
    /// case.
    pub fn initialize(&mut self, input: Input) -> (r: Result<(), OntrackError>)
        requires
            -TIME_LIMIT <= old(self).now <= TIME_LIMIT,
            spec_input_wf(input),
        ensures
            final(self).now == old(self).now,
            (r is Ok) <==> (forall|pi: int|
                0 <= pi < input.periods@.len() ==> !spec_prealloc_err(
                    #[trigger] spec_period_policy_of(input.periods@[pi], input.defaults),
                )),
            r matches Err(e) ==> e is ConfigurationError,
            r is Ok ==> final(self).period_bucket_durations@.to_multiset() == spec_initial_rows(
                old(self).now as int,
                input.defaults,
                input.periods@,
                input.periods@.len() as int,
            ).to_multiset(),
            r is Ok ==> spec_sorted_buckets(final(self).period_bucket_durations@),
            r is Ok ==> forall|i: int|
                0 <= i < final(self).period_bucket_durations@.len() ==> ((
                #[trigger] final(self).period_bucket_durations@[i]).wf()
                    && crate::totals::spec_durations_nonneg(
                    final(self).period_bucket_durations@[i].durations,
                )),
    {
        let mut rows: Vec<PeriodBucketDurations> = Vec::new();
        let default_work_days = WorkDaysInput::FromToWeekdays {
            from: Weekday::Mon,
            to: Weekday::Fri,
        };
        let ghost now0 = self.now as int;
        let mut pi: usize = 0;
        proof {
            assert(rows@ =~= spec_initial_rows(now0, input.defaults, input.periods@, 0));
        }
        while pi < input.periods.len()
            invariant
                pi <= input.periods@.len(),
                spec_input_wf(input),
                -TIME_LIMIT <= self.now <= TIME_LIMIT,
                now0 == self.now as int,
                self.now == old(self).now,
                self.period_bucket_durations@ == old(self).period_bucket_durations@,
                default_work_days == spec_default_work_days(),
                rows@ == spec_initial_rows(now0, input.defaults, input.periods@, pi as int),
                forall|k: int|
                    0 <= k < pi ==> !spec_prealloc_err(
                        #[trigger] spec_period_policy_of(input.periods@[k], input.defaults),
                    ),
            decreases input.periods@.len() - pi,
        {
            let p = &input.periods[pi];
            proof {
                assert(spec_period_input_wf(input.periods@[pi as int]));
            }
            let period_start = p.start;
            let period_length = match p.length {
                Some(l) => l,
                None => match input.defaults.period_length {
                    Some(l) => l,
                    None => DEFAULT_PERIOD_LENGTH,
                },
            };
            let work_days: &WorkDaysInput = match &p.work_days {
                Some(w) => w,
                None => match &input.defaults.work_days {
                    Some(w) => w,
                    None => &default_work_days,
                },
            };
            proof {
                assert(period_length == spec_period_length_of(input.periods@[pi as int], input.defaults));
                assert(*work_days == spec_period_policy_of(input.periods@[pi as int], input.defaults));
                assert(spec_policy_wf(*work_days));
            }
            let (partial_percent, last_work_day_offset) = match calculate_partial_period_hours_percent(
                self.now,
                period_start,
                period_length,
                &p.clients,
                work_days,
            ) {
                Ok(pr) => pr,
                Err(e) => {
                    proof {
                        assert(spec_prealloc_err(
                            spec_period_policy_of(input.periods@[pi as int], input.defaults),
                        ));
                    }
                    return Err(e);
                },
            };
            proof {
                assert(partial_percent == spec_period_fraction(
                    now0,
                    input.periods@[pi as int],
                    input.defaults,
                ));
                assert(last_work_day_offset == spec_period_last_offset(
                    input.periods@[pi as int],
                    input.defaults,
                ));
            }
            let ghost rows_before_period = rows@;
            let mut cj: usize = 0;
            while cj < p.clients.len()
                invariant
                    cj <= p.clients@.len(),
                    spec_clients_wf(p.clients@),
                    partial_percent.wf(),
                    rows@ == rows_before_period + spec_rows_for_clients(
                        period_start,
                        period_length,
                        last_work_day_offset,
                        partial_percent,
                        p.clients@,
                        cj as int,
                    ),
                decreases p.clients@.len() - cj,
            {
                proof {
                    assert(spec_client_wf(p.clients@[cj as int].1));
                }
                Self::initialize_period_client(
                    &mut rows,
                    period_start,
                    period_length,
                    last_work_day_offset,
                    partial_percent,
                    &p.clients[cj].0,
                    &p.clients[cj].1,
                );
                cj = cj + 1;
            }
            proof {
                assert(spec_rows_for_clients(
                    period_start,
                    period_length,
                    last_work_day_offset,
                    partial_percent,
                    p.clients@,
                    p.clients@.len() as int,
                ) == spec_period_rows(now0, input.defaults, input.periods@[pi as int]));
                assert(rows@ == spec_initial_rows(
                    now0,
                    input.defaults,
                    input.periods@,
                    pi as int + 1,
                ));
            }
            pi = pi + 1;
        }
        let ghost all_rows = rows@;
        let sorted = sort_period_buckets(rows);
        proof {
            broadcast use vstd::seq_lib::group_to_multiset_ensures;

            lemma_initial_rows_wf(
                now0,
                input.defaults,
                input.periods@,
                input.periods@.len() as int,
            );
            assert forall|i: int| 0 <= i < sorted@.len() implies ((#[trigger] sorted@[i]).wf()
                && crate::totals::spec_durations_nonneg(sorted@[i].durations)) by {
                let x = sorted@[i];
                assert(sorted@.contains(x));
                assert(sorted@.to_multiset().count(x) > 0);
                assert(all_rows.contains(x));
                let j = choose|j: int| 0 <= j < all_rows.len() && all_rows[j] == x;
            }
        }
        self.period_bucket_durations = sorted;
        Ok(())
    }
}


/// An offset is listed among a weekday's resolved offsets exactly when it
/// lies in the period and falls on that weekday.
pub proof fn lemma_weekday_offsets_membership(start: int, L: int, w: int, o: i64)
    requires
        0 <= w < 7,
        0 <= L <= MAX_PERIOD_DAYS,
    ensures
        spec_weekday_offsets(start, L, w).contains(o) <==> (0 <= o < L && weekday_index_of_day(
            start + o,
        ) == w),
{
    let f = spec_first_offset(start, w);
    assert(0 <= f < 7) by {
        lemma_mod_bound_7(w - weekday_index_of_day(start));
    }
    let count = if f >= L {
        0int
    } else {
        (L - f + 6) / 7
    };
    lemma_fundamental_div_mod(L - f + 6, 7);
    let s = spec_weekday_offsets(start, L, w);
    if s.contains(o) {
        let i = choose|i: int| 0 <= i < s.len() && s[i] == o;
        assert(o == f + 7 * i);
        assert(o % 7 == f) by {
            lemma_mod_add_multiples_7(f, i);
        }
        lemma_weekday_match(start, o as int, w);
        assert(7 * i <= 7 * (count - 1)) by (nonlinear_arith)
            requires
                i <= count - 1,
        ;
    }
    if 0 <= o < L && weekday_index_of_day(start + o) == w {
        lemma_weekday_match(start, o as int, w);
        assert(o % 7 == f);
        lemma_fundamental_div_mod(o as int, 7);
        let i = (o - f) / 7;
        assert(o == f + 7 * i) by {
            assert(o == 7 * (o as int / 7) + o % 7);
            assert(o - f == 7 * (o as int / 7));
            lemma_div_multiples_7(o as int / 7);
        }
        assert(0 <= i);
        assert(i < count) by {
            assert(f + 7 * i < L);
        }
        assert(s[i] == o);
    }
}

/// A weekday-range policy preallocates nothing and marks exactly the
/// offsets that no weekday of the cyclic range resolves to: the complement
/// of the resolved work days, each carrying a zero quota.
pub proof fn lemma_weekday_range_complement(
    start: int,
    L: int,
    from: Weekday,
    to: Weekday,
    o: int,
)
    requires
        0 <= L <= MAX_PERIOD_DAYS,
    ensures
        spec_prealloc_total((WorkDaysInput::FromToWeekdays { from, to }), start, L) == 0,
        spec_prealloc_map((WorkDaysInput::FromToWeekdays { from, to }), start, L).dom().contains(
            o,
        ) <==> (0 <= o < L && !(exists|w: int|
            0 <= w < 7 && spec_weekday_in_range(
                w,
                from.spec_index_from_sunday(),
                to.spec_index_from_sunday(),
            ) && #[trigger] spec_weekday_offsets(start, L, w).contains(o as i64))),
        spec_prealloc_map((WorkDaysInput::FromToWeekdays { from, to }), start, L).dom().contains(
            o,
        ) ==> spec_prealloc_map((WorkDaysInput::FromToWeekdays { from, to }), start, L)[o] == 0,
{
    let fi = from.spec_index_from_sunday();
    let ti = to.spec_index_from_sunday();
    let M = spec_prealloc_map((WorkDaysInput::FromToWeekdays { from, to }), start, L);
    if 0 <= o < L {
        let wd = weekday_index_of_day(start + o);
        assert(0 <= wd < 7) by {
            lemma_mod_bound_7(start + o + 4);
        }
        lemma_weekday_offsets_membership(start, L, wd, o as i64);
        if spec_weekday_in_range(wd, fi, ti) {
            assert(spec_weekday_offsets(start, L, wd).contains(o as i64));
        }
        if exists|w: int|
            0 <= w < 7 && spec_weekday_in_range(w, fi, ti)
                && #[trigger] spec_weekday_offsets(start, L, w).contains(o as i64) {
            let w = choose|w: int|
                0 <= w < 7 && spec_weekday_in_range(w, fi, ti)
                    && #[trigger] spec_weekday_offsets(start, L, w).contains(o as i64);
            lemma_weekday_offsets_membership(start, L, w, o as i64);
            assert(w == wd);
        }
    }
}


/// The last working day offset lies in `[0, n)`, or is 0 for an empty
/// range.
pub proof fn lemma_last_work_offset_range(M: Map<int, int>, P: int, T: int, L: int, n: int)
    ensures
        0 <= spec_last_work_offset(M, P, T, L, n),
        n >= 1 ==> spec_last_work_offset(M, P, T, L, n) < n,
        n <= 0 ==> spec_last_work_offset(M, P, T, L, n) == 0,
    decreases n,
{
    if n > 0 {
        lemma_last_work_offset_range(M, P, T, L, n - 1);
    }
}

/// Every record a client commitment yields is well-formed with
/// non-negative tallies.
proof fn lemma_client_rows_wf(
    start: Date,
    plen: i64,
    last: i64,
    frac: Fraction,
    name: String,
    c: ClientInput,
)
    requires
        start.wf(),
        0 <= plen <= MAX_PERIOD_DAYS,
        0 <= last <= MAX_PERIOD_DAYS,
        spec_client_wf(c),
    ensures
        forall|j: int|
            0 <= j < spec_client_rows(start, plen, last, frac, name, c).len() ==> ((
            #[trigger] spec_client_rows(start, plen, last, frac, name, c)[j]).wf()
                && crate::totals::spec_durations_nonneg(
                spec_client_rows(start, plen, last, frac, name, c)[j].durations,
            )),
{
    let rows = spec_client_rows(start, plen, last, frac, name, c);
    assert forall|j: int| 0 <= j < rows.len() implies ((#[trigger] rows[j]).wf()
        && crate::totals::spec_durations_nonneg(rows[j].durations)) by {
        let d = rows[j].durations;
        assert(d.partial_expected >= 0) by {
            let v = spec_round_ratio(d.expected * frac.num, frac.den as int);
            assert(crate::types::spec_clamp_partial(v) >= 0);
        }
    }
}

/// Every record the first `n` periods yield is well-formed with
/// non-negative tallies.
proof fn lemma_initial_rows_wf(now: int, d: DefaultsInput, ps: Seq<PeriodInput>, n: int)
    requires
        spec_defaults_wf(d),
        0 <= n <= ps.len(),
        forall|pi: int| 0 <= pi < ps.len() ==> #[trigger] spec_period_input_wf(ps[pi]),
    ensures
        forall|j: int|
            0 <= j < spec_initial_rows(now, d, ps, n).len() ==> ((#[trigger] spec_initial_rows(
                now,
                d,
                ps,
                n,
            )[j]).wf() && crate::totals::spec_durations_nonneg(
                spec_initial_rows(now, d, ps, n)[j].durations,
            )),
    decreases n,
{
    if n > 0 {
        lemma_initial_rows_wf(now, d, ps, n - 1);
        let p = ps[n - 1];
        assert(spec_period_input_wf(ps[n - 1]));
        assert(p.start.wf());
        let plen = spec_period_length_of(p, d);
        let last = spec_period_last_offset(p, d);
        let frac = spec_period_fraction(now, p, d);
        assert(0 <= plen <= MAX_PERIOD_DAYS);
        assert(0 <= last <= MAX_PERIOD_DAYS) by {
            let policy = spec_period_policy_of(p, d);
            lemma_last_work_offset_range(
                spec_prealloc_map(policy, p.start.day as int, plen as int),
                spec_prealloc_total(policy, p.start.day as int, plen as int),
                spec_total_expected(p.clients@),
                plen as int,
                plen as int,
            );
        }
        let period = spec_period_rows(now, d, p);
        assert forall|j: int| 0 <= j < period.len() implies ((#[trigger] period[j]).wf()
            && crate::totals::spec_durations_nonneg(period[j].durations)) by {
            lemma_rows_for_clients_wf(p.start, plen, last, frac, p.clients@, p.clients@.len() as int);
        }
        assert(forall|j: int|
            0 <= j < spec_initial_rows(now, d, ps, n).len() ==> spec_initial_rows(
                now,
                d,
                ps,
                n,
            )[j] == (if j < spec_initial_rows(now, d, ps, n - 1).len() {
                spec_initial_rows(now, d, ps, n - 1)[j]
            } else {
                period[j - spec_initial_rows(now, d, ps, n - 1).len()]
            }));
    }
}

/// Every record the first `n` clients yield is well-formed with
/// non-negative tallies.
proof fn lemma_rows_for_clients_wf(
    start: Date,
    plen: i64,
    last: i64,
    frac: Fraction,
    cs: Seq<(String, ClientInput)>,
    n: int,
)
    requires
        start.wf(),
        0 <= plen <= MAX_PERIOD_DAYS,
        0 <= last <= MAX_PERIOD_DAYS,
        0 <= n <= cs.len(),
        forall|i: int| 0 <= i < cs.len() ==> #[trigger] spec_client_wf(cs[i].1),
    ensures
        forall|j: int|
            0 <= j < spec_rows_for_clients(start, plen, last, frac, cs, n).len() ==> ((
            #[trigger] spec_rows_for_clients(start, plen, last, frac, cs, n)[j]).wf()
                && crate::totals::spec_durations_nonneg(
                spec_rows_for_clients(start, plen, last, frac, cs, n)[j].durations,
            )),
    decreases n,
{
    if n > 0 {
        lemma_rows_for_clients_wf(start, plen, last, frac, cs, n - 1);
        lemma_client_rows_wf(start, plen, last, frac, cs[n - 1].0, cs[n - 1].1);
        let prev = spec_rows_for_clients(start, plen, last, frac, cs, n - 1);
        let client = spec_client_rows(start, plen, last, frac, cs[n - 1].0, cs[n - 1].1);
        assert(forall|j: int|
            0 <= j < spec_rows_for_clients(start, plen, last, frac, cs, n).len()
                ==> spec_rows_for_clients(start, plen, last, frac, cs, n)[j] == (if j
                < prev.len() {
                prev[j]
            } else {
                client[j - prev.len()]
            }));
    }
}

} // verus!
