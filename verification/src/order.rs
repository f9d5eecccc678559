//! Ordering of buckets and period records, and a verified sort.
//!
//! Buckets are ordered by client name, and within one client a bucket with a
//! project sorts before the client's own project-less bucket; projects are
//! ordered by name.  Period records are ordered by period start first, then
//! by bucket.  Names compare lexicographically by Unicode scalar value.

use vstd::prelude::*;
use vstd::string::StrSliceExecFns;
use crate::types::{Bucket, PeriodBucketDurations};

verus! {

/// Three-way lexicographic comparison of two character sequences by scalar
/// value: negative, zero or positive as `a` sorts before, with or after `b`.
pub open spec fn spec_str_cmp(a: Seq<char>, b: Seq<char>) -> int
    decreases a.len(),
{
    if a.len() == 0 && b.len() == 0 {
        0
    } else if a.len() == 0 {
        -1
    } else if b.len() == 0 {
        1
    } else if (a[0] as u32) < (b[0] as u32) {
        -1
    } else if (b[0] as u32) < (a[0] as u32) {
        1
    } else {
        spec_str_cmp(a.skip(1), b.skip(1))
    }
}

/// Comparing in the other direction flips the sign.
pub proof fn lemma_str_cmp_antisym(a: Seq<char>, b: Seq<char>)
    ensures
        spec_str_cmp(a, b) == -spec_str_cmp(b, a),
    decreases a.len(),
{
    if a.len() > 0 && b.len() > 0 && (a[0] as u32) == (b[0] as u32) {
        lemma_str_cmp_antisym(a.skip(1), b.skip(1));
    }
}

/// The comparison is transitive, and strict on either side keeps it strict.
pub proof fn lemma_str_cmp_trans(a: Seq<char>, b: Seq<char>, c: Seq<char>)
    requires
        spec_str_cmp(a, b) <= 0,
        spec_str_cmp(b, c) <= 0,
    ensures
        spec_str_cmp(a, c) <= 0,
        spec_str_cmp(a, b) < 0 || spec_str_cmp(b, c) < 0 ==> spec_str_cmp(a, c) < 0,
    decreases a.len() + b.len() + c.len(),
{
    if a.len() > 0 && b.len() > 0 && c.len() > 0 && (a[0] as u32) == (c[0] as u32) {
        assert((a[0] as u32) == (b[0] as u32));
        lemma_str_cmp_trans(a.skip(1), b.skip(1), c.skip(1));
    }
}

/// Three-way comparison of bucket identities.
pub open spec fn spec_bucket_cmp(a: Bucket, b: Bucket) -> int {
    let c = spec_str_cmp(a.client@, b.client@);
    if c != 0 {
        c
    } else {
        match (a.project, b.project) {
            (Some(p), Some(q)) => spec_str_cmp(p@, q@),
            (Some(p), None) => -1,
            (None, Some(q)) => 1,
            (None, None) => 0,
        }
    }
}

/// Comparing buckets in the other direction flips the sign.
pub proof fn lemma_bucket_cmp_antisym(a: Bucket, b: Bucket)
    ensures
        spec_bucket_cmp(a, b) == -spec_bucket_cmp(b, a),
{
    lemma_str_cmp_antisym(a.client@, b.client@);
    match (a.project, b.project) {
        (Some(p), Some(q)) => lemma_str_cmp_antisym(p@, q@),
        _ => (),
    }
}

/// Bucket comparison is transitive, and strict on either side keeps it
/// strict.
pub proof fn lemma_bucket_cmp_trans(a: Bucket, b: Bucket, c: Bucket)
    requires
        spec_bucket_cmp(a, b) <= 0,
        spec_bucket_cmp(b, c) <= 0,
    ensures
        spec_bucket_cmp(a, c) <= 0,
        spec_bucket_cmp(a, b) < 0 || spec_bucket_cmp(b, c) < 0 ==> spec_bucket_cmp(a, c) < 0,
{
    lemma_str_cmp_antisym(a.client@, b.client@);
    lemma_str_cmp_antisym(b.client@, c.client@);
    lemma_str_cmp_trans(a.client@, b.client@, c.client@);
    if spec_str_cmp(a.client@, c.client@) == 0 {
        match (a.project, b.project, c.project) {
            (Some(p), Some(q), Some(r)) => lemma_str_cmp_trans(p@, q@, r@),
            _ => (),
        }
    }
}

/// Three-way comparison of period records: period start first, then bucket.
pub open spec fn spec_pbd_cmp(x: PeriodBucketDurations, y: PeriodBucketDurations) -> int {
    if x.period_start.day < y.period_start.day {
        -1
    } else if y.period_start.day < x.period_start.day {
        1
    } else {
        spec_bucket_cmp(x.bucket, y.bucket)
    }
}

/// Comparing period records in the other direction flips the sign.
pub proof fn lemma_pbd_cmp_antisym(x: PeriodBucketDurations, y: PeriodBucketDurations)
    ensures
        spec_pbd_cmp(x, y) == -spec_pbd_cmp(y, x),
{
    lemma_bucket_cmp_antisym(x.bucket, y.bucket);
}

/// Period-record comparison is transitive, and strict on either side keeps
/// it strict.
pub proof fn lemma_pbd_cmp_trans(
    x: PeriodBucketDurations,
    y: PeriodBucketDurations,
    z: PeriodBucketDurations,
)
    requires
        spec_pbd_cmp(x, y) <= 0,
        spec_pbd_cmp(y, z) <= 0,
    ensures
        spec_pbd_cmp(x, z) <= 0,
        spec_pbd_cmp(x, y) < 0 || spec_pbd_cmp(y, z) < 0 ==> spec_pbd_cmp(x, z) < 0,
{
    if x.period_start.day == y.period_start.day && y.period_start.day == z.period_start.day {
        lemma_bucket_cmp_trans(x.bucket, y.bucket, z.bucket);
    }
}

/// No later record sorts strictly before an earlier one.
pub open spec fn spec_sorted_buckets(s: Seq<PeriodBucketDurations>) -> bool {
    forall|i: int, j: int|
        0 <= i <= j < s.len() ==> #[trigger] spec_pbd_cmp(s[i], s[j]) <= 0
}

/// Lexicographic comparison of two names: -1, 0 or 1.
pub fn str_cmp(a: &String, b: &String) -> (r: i8)
    ensures
        r as int == spec_str_cmp(a@, b@),
{
    let la = a.as_str().unicode_len();
    let lb = b.as_str().unicode_len();
    let n = if la < lb { la } else { lb };
    let mut i: usize = 0;
    proof {
        assert(a@.skip(0) =~= a@);
        assert(b@.skip(0) =~= b@);
    }
    while i < n
        invariant
            i <= n,
            la == a@.len(),
            lb == b@.len(),
            n == if la < lb { la } else { lb },
            spec_str_cmp(a@, b@) == spec_str_cmp(a@.skip(i as int), b@.skip(i as int)),
        decreases n - i,
    {
        let ca = a.as_str().get_char(i) as u32;
        let cb = b.as_str().get_char(i) as u32;
        if ca < cb {
            return -1;
        } else if cb < ca {
            return 1;
        }
        proof {
            assert(a@.skip(i as int).skip(1) =~= a@.skip(i as int + 1));
            assert(b@.skip(i as int).skip(1) =~= b@.skip(i as int + 1));
        }
        i = i + 1;
    }
    proof {
        assert(a@.skip(i as int).len() == la - i);
        assert(b@.skip(i as int).len() == lb - i);
    }
    if la == lb {
        0
    } else if la < lb {
        -1
    } else {
        1
    }
}

/// Three-way comparison of bucket identities: -1, 0 or 1.
pub fn bucket_cmp(a: &Bucket, b: &Bucket) -> (r: i8)
    ensures
        r as int == spec_bucket_cmp(*a, *b),
{
    let c = str_cmp(&a.client, &b.client);
    if c != 0 {
        c
    } else {
        match (&a.project, &b.project) {
            (Some(p), Some(q)) => str_cmp(p, q),
            (Some(_), None) => -1,
            (None, Some(_)) => 1,
            (None, None) => 0,
        }
    }
}

/// Whether record `x` sorts strictly before record `y`.
pub fn pbd_lt(x: &PeriodBucketDurations, y: &PeriodBucketDurations) -> (r: bool)
    ensures
        r == (spec_pbd_cmp(*x, *y) < 0),
{
    if x.period_start.day < y.period_start.day {
        true
    } else if y.period_start.day < x.period_start.day {
        false
    } else {
        bucket_cmp(&x.bucket, &y.bucket) < 0
    }
}

/// Inserting an element anywhere adds exactly it to the sequence's multiset.
proof fn lemma_insert_to_multiset(s: Seq<PeriodBucketDurations>, j: int, x: PeriodBucketDurations)
    requires
        0 <= j <= s.len(),
    ensures
        s.insert(j, x).to_multiset() == s.to_multiset().insert(x),
{
    let t = s.insert(j, x);
    s.insert_ensures(j, x);
    assert(t.remove(j) =~= s);
    t.to_multiset_ensures();
    assert(t.remove(j).to_multiset() == t.to_multiset().remove(t[j]));
    assert(t[j] == x);
    assert(t.contains(x));
    assert(t.to_multiset().count(x) > 0);
    assert(t.to_multiset() =~= s.to_multiset().insert(x)) by {
        assert(forall|e: PeriodBucketDurations|
            t.to_multiset().count(e) == s.to_multiset().insert(x).count(e)) by {
            assert(forall|e: PeriodBucketDurations|
                s.to_multiset().count(e) == t.to_multiset().remove(x).count(e));
        }
    }
}

/// Sorts the records by period start, then bucket, keeping exactly the same
/// records.
pub fn sort_period_buckets(v: Vec<PeriodBucketDurations>) -> (r: Vec<PeriodBucketDurations>)
    ensures
        spec_sorted_buckets(r@),
        r@.to_multiset() == v@.to_multiset(),
{
    let ghost orig = v@;
    let mut inp = v;
    let mut out: Vec<PeriodBucketDurations> = Vec::new();
    proof {
        broadcast use vstd::seq_lib::group_to_multiset_ensures;

        assert(forall|e: PeriodBucketDurations| !out@.contains(e));
        assert(forall|e: PeriodBucketDurations| out@.to_multiset().count(e) == 0);
        assert(out@.to_multiset().add(inp@.to_multiset()) =~= orig.to_multiset());
    }
    while inp.len() > 0
        invariant
            spec_sorted_buckets(out@),
            out@.to_multiset().add(inp@.to_multiset()) == orig.to_multiset(),
        decreases inp.len(),
    {
        let ghost inp0 = inp@;
        let ghost out0 = out@;
        let x = inp.remove(0);
        proof {
            broadcast use vstd::seq_lib::group_to_multiset_ensures;

            assert(inp@.to_multiset() == inp0.to_multiset().remove(x));
        }
        let mut j: usize = 0;
        while j < out.len() && !pbd_lt(&x, &out[j])
            invariant
                j <= out.len(),
                forall|k: int| 0 <= k < j ==> #[trigger] spec_pbd_cmp(x, out@[k]) >= 0,
            decreases out.len() - j,
        {
            j = j + 1;
        }
        let ghost jj = j as int;
        out.insert(j, x);
        proof {
            out0.insert_ensures(jj, x);
            lemma_insert_to_multiset(out0, jj, x);
            // the new prefix and suffix keep their order; `x` fits between
            assert forall|p: int, q: int| 0 <= p <= q < out@.len() implies #[trigger]
                spec_pbd_cmp(out@[p], out@[q]) <= 0 by {
                if p == q {
                    lemma_pbd_cmp_antisym(out@[p], out@[p]);
                } else if q < jj {
                    assert(spec_pbd_cmp(out0[p], out0[q]) <= 0);
                } else if p > jj {
                    assert(spec_pbd_cmp(out0[p - 1], out0[q - 1]) <= 0);
                } else if p < jj && q == jj {
                    assert(spec_pbd_cmp(x, out0[p]) >= 0);
                    lemma_pbd_cmp_antisym(x, out0[p]);
                } else if p == jj && q > jj {
                    if jj < out0.len() {
                        assert(spec_pbd_cmp(x, out0[jj]) < 0);
                        assert(spec_pbd_cmp(out0[jj], out0[q - 1]) <= 0);
                        lemma_pbd_cmp_trans(x, out0[jj], out0[q - 1]);
                    }
                } else {
                    assert(p < jj && q > jj);
                    assert(spec_pbd_cmp(out0[p], out0[q - 1]) <= 0);
                }
            }
            assert(out@.to_multiset().add(inp@.to_multiset()) =~= orig.to_multiset()) by {
                broadcast use vstd::seq_lib::group_to_multiset_ensures;

                assert(out@.to_multiset() == out0.to_multiset().insert(x));
                assert(inp0.to_multiset().count(x) > 0) by {
                    assert(inp0.contains(x)) by {
                        assert(inp0[0] == x);
                    }
                }
            }
        }
    }
    out
}

} // verus!
