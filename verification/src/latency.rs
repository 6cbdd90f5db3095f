//! The latency report of the echo ring's `test` command.
//!
//! Every client measures the response time of each of its requests; the
//! samples of all clients are pooled, sorted, and summarised by their count,
//! extremes and the 50th, 75th, 90th and 99th percentiles. A percentile is
//! read at a position of the sorted samples:
//!
//! - p50 at `count / 2`,
//! - p75 at `count / 2 + count / 4`,
//! - p90 at `count - ceil(count / 10)`,
//! - p99 at `count - ceil(count / 100)`.
//!
//! Samples are durations in nanoseconds.
use vstd::prelude::*;
use vstd::relations::{sorted_by, total_ordering};

verus! {

broadcast use {vstd::seq_lib::group_to_multiset_ensures, vstd::multiset::group_multiset_axioms};

/// The order in which samples are reported: ascending.
pub open spec fn ascending() -> spec_fn(u64, u64) -> bool {
    |a: u64, b: u64| a <= b
}

/// Whether `s` is in ascending order.
pub open spec fn is_ascending(s: Seq<u64>) -> bool {
    forall|i: int, j: int| 0 <= i < j < s.len() ==> s[i] <= s[j]
}

/// The samples in ascending order.
pub open spec fn sorted_samples(s: Seq<u64>) -> Seq<u64> {
    s.sort_by(ascending())
}

/// The element at position `i`, if there is one.
pub open spec fn sample_at(s: Seq<u64>, i: int) -> Option<u64> {
    if 0 <= i < s.len() {
        Some(s[i])
    } else {
        None
    }
}

pub open spec fn ceil_div(n: int, d: int) -> int {
    (n + d - 1) / d
}

pub open spec fn p50_position(n: int) -> int {
    n / 2
}

pub open spec fn p75_position(n: int) -> int {
    n / 2 + n / 4
}

pub open spec fn p90_position(n: int) -> int {
    n - ceil_div(n, 10)
}

pub open spec fn p99_position(n: int) -> int {
    n - ceil_div(n, 100)
}

/// Count, extremes and percentiles of a set of samples.
#[derive(PartialEq, Eq, Structural, Debug, Clone, Copy)]
pub struct LatencySummary {
    pub count: usize,
    pub min: Option<u64>,
    pub p50: Option<u64>,
    pub p75: Option<u64>,
    pub p90: Option<u64>,
    pub p99: Option<u64>,
    pub max: Option<u64>,
}

/// The summary that the report gives of the samples `s`.
pub open spec fn summary_of(s: Seq<u64>) -> LatencySummary {
    let t = sorted_samples(s);
    let n = t.len() as int;
    LatencySummary {
        count: s.len() as usize,
        min: sample_at(t, 0),
        p50: sample_at(t, p50_position(n)),
        p75: sample_at(t, p75_position(n)),
        p90: sample_at(t, p90_position(n)),
        p99: sample_at(t, p99_position(n)),
        max: sample_at(t, n - 1),
    }
}

/// The concatenation of the batches, in order.
pub open spec fn pooled(batches: Seq<Vec<u64>>) -> Seq<u64>
    decreases batches.len(),
{
    if batches.len() == 0 {
        seq![]
    } else {
        pooled(batches.drop_last()) + batches.last()@
    }
}

pub proof fn lemma_ascending_is_total()
    ensures
        total_ordering(ascending()),
{
}

proof fn lemma_sorted_samples(s: Seq<u64>)
    ensures
        is_ascending(sorted_samples(s)),
        sorted_samples(s).to_multiset() == s.to_multiset(),
        sorted_samples(s).len() == s.len(),
{
    s.lemma_sort_by_ensures(ascending());
    let t = sorted_samples(s);
    assert forall|i: int, j: int| 0 <= i < j < t.len() implies t[i] <= t[j] by {
        assert(ascending()(t[i], t[j]));
    }
    t.to_multiset_ensures();
    s.to_multiset_ensures();
}

/// The ascending permutation of a sequence is `sorted_samples` of it.
proof fn lemma_sorted_is_sorted_samples(t: Seq<u64>, s: Seq<u64>)
    requires
        is_ascending(t),
        t.to_multiset() == s.to_multiset(),
    ensures
        t == sorted_samples(s),
{
    lemma_sorted_samples(s);
    lemma_ascending_is_total();
    assert(sorted_by(t, ascending())) by {
        assert forall|i: int, j: int| 0 <= i < j < t.len() implies #[trigger] ascending()(
            t[i],
            t[j],
        ) by {}
    }
    s.lemma_sort_by_ensures(ascending());
    vstd::seq_lib::lemma_sorted_unique(t, sorted_samples(s), ascending());
}

/// The report's figures are ordered: when there is at least one sample, every
/// figure is present and `min <= p50 <= p75 <= p90 <= p99 <= max`; `min` is
/// no greater and `max` no smaller than any sample, and each is a sample.
pub proof fn lemma_summary_ordered(s: Seq<u64>)
    requires
        0 < s.len() <= usize::MAX,
    ensures
        ({
            let r = summary_of(s);
            &&& r.count == s.len()
            &&& r.min is Some && r.p50 is Some && r.p75 is Some
            &&& r.p90 is Some && r.p99 is Some && r.max is Some
            &&& r.min->0 <= r.p50->0 <= r.p75->0 <= r.p90->0 <= r.p99->0 <= r.max->0
            &&& forall|i: int| 0 <= i < s.len() ==> r.min->0 <= #[trigger] s[i] <= r.max->0
            &&& s.contains(r.min->0) && s.contains(r.max->0)
        }),
{
    lemma_sorted_samples(s);
    let t = sorted_samples(s);
    let n = t.len() as int;
    assert(0 <= p50_position(n) <= p75_position(n) <= p90_position(n) <= p99_position(n) < n);
    assert forall|i: int| 0 <= i < s.len() implies t[0] <= #[trigger] s[i] <= t[n - 1] by {
        assert(s.to_multiset().count(s[i]) > 0);
        assert(t.to_multiset().count(s[i]) > 0);
        assert(t.contains(s[i]));
        let k = choose|k: int| 0 <= k < t.len() && t[k] == s[i];
        assert(t[0] <= t[k]);
    }
    assert(t.contains(t[0]));
    assert(t.contains(t[n - 1]));
    assert(t.to_multiset().count(t[0]) > 0);
    assert(t.to_multiset().count(t[n - 1]) > 0);
    assert(s.contains(t[0]));
    assert(s.contains(t[n - 1]));
    let r = summary_of(s);
    assert(r.count == s.len());
    assert(r.min->0 <= r.p50->0 <= r.p75->0 <= r.p90->0 <= r.p99->0 <= r.max->0);
}

/// The report depends on the samples only, not on their order: two runs that
/// measured the same samples, in any order, give the same summary.
pub proof fn lemma_summary_ignores_order(s1: Seq<u64>, s2: Seq<u64>)
    requires
        s1.to_multiset() == s2.to_multiset(),
    ensures
        summary_of(s1) == summary_of(s2),
{
    lemma_sorted_samples(s1);
    lemma_sorted_samples(s2);
    lemma_sorted_is_sorted_samples(sorted_samples(s1), s2);
}

/// Where each figure of the report is read: for any ascending arrangement
/// `t` of the samples `s` (there is exactly one), with `n` samples, min at 0,
/// p50 at `n / 2`, p75 at `n / 2 + n / 4`, p90 at `n` less `n / 10` rounded
/// up, p99 at `n` less `n / 100` rounded up, and max at `n - 1`, whatever
/// `n` is.
pub proof fn lemma_summary_positions(s: Seq<u64>, t: Seq<u64>)
    requires
        0 < s.len() <= usize::MAX,
        forall|i: int, j: int| 0 <= i < j < t.len() ==> t[i] <= t[j],
        t.to_multiset() == s.to_multiset(),
    ensures
        ({
            let n = s.len() as int;
            let r = summary_of(s);
            &&& t.len() == n
            &&& r.count == n
            &&& r.min == Some(t[0])
            &&& r.p50 == Some(t[n / 2])
            &&& r.p75 == Some(t[n / 2 + n / 4])
            &&& r.p90 == Some(t[n - (n + 9) / 10])
            &&& r.p99 == Some(t[n - (n + 99) / 100])
            &&& r.max == Some(t[n - 1])
        }),
{
    lemma_sorted_is_sorted_samples(t, s);
    lemma_sorted_samples(s);
}

/// Pooling takes every sample of every batch, batch after batch: no batches
/// pool to no samples, and one more batch adds its samples at the end,
/// however many batches came before.
pub proof fn lemma_pooling_appends(batches: Seq<Vec<u64>>, batch: Vec<u64>)
    ensures
        pooled(Seq::<Vec<u64>>::empty()) == Seq::<u64>::empty(),
        pooled(batches.push(batch)) == pooled(batches) + batch@,
        pooled(batches.push(batch)).len() == pooled(batches).len() + batch@.len(),
{
    assert(batches.push(batch).drop_last() =~= batches);
}

/// Pooling keeps every sample: the pooled count is the sum of the batch
/// sizes.
pub proof fn lemma_pooled_len(batches: Seq<Vec<u64>>)
    ensures
        pooled(batches).len() == batches.fold_left(0nat, |acc: nat, b: Vec<u64>| acc + b@.len()),
    decreases batches.len(),
{
    if batches.len() > 0 {
        lemma_pooled_len(batches.drop_last());
    }
}

/// Merges two ascending vectors into one.
fn merge(left: &Vec<u64>, right: &Vec<u64>) -> (out: Vec<u64>)
    requires
        is_ascending(left@),
        is_ascending(right@),
    ensures
        is_ascending(out@),
        out@.to_multiset() == left@.to_multiset().add(right@.to_multiset()),
{
    let mut out: Vec<u64> = Vec::new();
    let mut i: usize = 0;
    let mut j: usize = 0;
    while i < left.len() || j < right.len()
        invariant
            is_ascending(left@),
            is_ascending(right@),
            i <= left.len(),
            j <= right.len(),
            is_ascending(out@),
            out@.to_multiset() == left@.take(i as int).to_multiset().add(
                right@.take(j as int).to_multiset(),
            ),
            forall|k: int| 0 <= k < out.len() && i < left.len() ==> out[k] <= left[i as int],
            forall|k: int| 0 <= k < out.len() && j < right.len() ==> out[k] <= right[j as int],
        decreases left.len() + right.len() - i - j,
    {
        if j == right.len() || (i < left.len() && left[i] <= right[j]) {
            let x = left[i];
            proof {
                assert(left@.take(i + 1) =~= left@.take(i as int).push(x));
            }
            out.push(x);
            i = i + 1;
        } else {
            let x = right[j];
            proof {
                assert(right@.take(j + 1) =~= right@.take(j as int).push(x));
            }
            out.push(x);
            j = j + 1;
        }
    }
    proof {
        assert(left@.take(i as int) =~= left@);
        assert(right@.take(j as int) =~= right@);
    }
    out
}

/// Sorts the samples at positions `lo .. hi` of `v`.
fn sort_range(v: &Vec<u64>, lo: usize, hi: usize) -> (out: Vec<u64>)
    requires
        lo <= hi <= v.len(),
    ensures
        is_ascending(out@),
        out@.to_multiset() == v@.subrange(lo as int, hi as int).to_multiset(),
    decreases hi - lo,
{
    if hi - lo <= 1 {
        let mut out: Vec<u64> = Vec::new();
        if lo < hi {
            out.push(v[lo]);
        }
        proof {
            assert(out@ =~= v@.subrange(lo as int, hi as int));
        }
        return out;
    }
    let mid = lo + (hi - lo) / 2;
    let left = sort_range(v, lo, mid);
    let right = sort_range(v, mid, hi);
    let out = merge(&left, &right);
    proof {
        assert(v@.subrange(lo as int, hi as int) =~= v@.subrange(lo as int, mid as int)
            + v@.subrange(mid as int, hi as int));
        vstd::seq_lib::lemma_multiset_commutative(
            v@.subrange(lo as int, mid as int),
            v@.subrange(mid as int, hi as int),
        );
    }
    out
}

/// The samples in ascending order.
pub fn sort_samples(samples: &Vec<u64>) -> (sorted: Vec<u64>)
    ensures
        sorted@ == sorted_samples(samples@),
{
    let sorted = sort_range(samples, 0, samples.len());
    proof {
        assert(samples@.subrange(0, samples.len() as int) =~= samples@);
        lemma_sorted_is_sorted_samples(sorted@, samples@);
    }
    sorted
}

/// The samples of all batches in one vector, batch after batch.
pub fn pool_samples(batches: Vec<Vec<u64>>) -> (all: Vec<u64>)
    requires
        pooled(batches@).len() <= usize::MAX,
    ensures
        all@ == pooled(batches@),
{
    let mut all: Vec<u64> = Vec::new();
    let mut b: usize = 0;
    while b < batches.len()
        invariant
            b <= batches.len(),
            all@ == pooled(batches@.take(b as int)),
            pooled(batches@).len() <= usize::MAX,
        decreases batches.len() - b,
    {
        let batch = &batches[b];
        proof {
            assert(batches@.take(b + 1).drop_last() =~= batches@.take(b as int));
            lemma_pooled_prefix_len(batches@, b + 1);
        }
        let mut k: usize = 0;
        let ghost before = all@;
        while k < batch.len()
            invariant
                k <= batch.len(),
                all@ == before + batch@.take(k as int),
                before.len() + batch.len() <= usize::MAX,
            decreases batch.len() - k,
        {
            all.push(batch[k]);
            k = k + 1;
            proof {
                assert(all@ =~= before + batch@.take(k as int));
            }
        }
        proof {
            assert(batch@.take(k as int) =~= batch@);
        }
        b = b + 1;
    }
    proof {
        assert(batches@.take(b as int) =~= batches@);
    }
    all
}

proof fn lemma_pooled_prefix_len(batches: Seq<Vec<u64>>, k: int)
    requires
        0 <= k <= batches.len(),
    ensures
        pooled(batches.take(k)).len() <= pooled(batches).len(),
    decreases batches.len(),
{
    if k < batches.len() {
        assert(batches.drop_last().take(k) =~= batches.take(k));
        lemma_pooled_prefix_len(batches.drop_last(), k);
    } else {
        assert(batches.take(k) =~= batches);
    }
}

fn sample_at_exec(s: &Vec<u64>, i: usize) -> (r: Option<u64>)
    ensures
        r == sample_at(s@, i as int),
{
    if i < s.len() {
        Some(s[i])
    } else {
        None
    }
}

/// Summarises the response times of a test run.
pub fn summarize(samples: &Vec<u64>) -> (summary: LatencySummary)
    ensures
        summary == summary_of(samples@),
{
    let sorted = sort_samples(samples);
    proof {
        lemma_sorted_samples(samples@);
    }
    let count = sorted.len();
    let tenths = count / 10 + if count % 10 != 0 { 1 } else { 0 };
    let hundredths = count / 100 + if count % 100 != 0 { 1 } else { 0 };
    proof {
        assert(tenths == ceil_div(count as int, 10));
        assert(hundredths == ceil_div(count as int, 100));
    }
    LatencySummary {
        count,
        min: sample_at_exec(&sorted, 0),
        p50: sample_at_exec(&sorted, count / 2),
        p75: sample_at_exec(&sorted, count / 2 + count / 4),
        p90: sample_at_exec(&sorted, count - tenths),
        p99: sample_at_exec(&sorted, count - hundredths),
        max: if count > 0 {
            sample_at_exec(&sorted, count - 1)
        } else {
            None
        },
    }
}

} // verus!
