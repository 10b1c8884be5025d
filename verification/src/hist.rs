//! The streaming histogram sketch.

use crate::bins::{spec_combined_mean, Bin};
use crate::{sorted_by_mean, COUNT_LIMIT, VALUE_LIMIT};
use vstd::prelude::*;

verus! {

/// The streaming histogram: a bounded, sorted sequence of bins plus the
/// smallest and largest raw sample ever observed and the target number of
/// bins.
///
/// `min` and `max` are `None` exactly while no sample has been observed.
#[derive(Clone, Debug)]
pub struct StreamHist {
    /// Sorted bins of the histogram.
    pub bins: Vec<Bin>,
    /// Smallest observed value, `None` when the histogram holds no data.
    pub min: Option<i64>,
    /// Largest observed value, `None` when the histogram holds no data.
    pub max: Option<i64>,
    /// Upper bound for the number of bins.
    pub size: usize,
}

/// Total number of samples aggregated over a sequence of bins.
pub open spec fn total_count(bins: Seq<Bin>) -> int
    decreases bins.len(),
{
    if bins.len() == 0 {
        0
    } else {
        total_count(bins.drop_last()) + bins.last().count
    }
}

/// Every bin has a mean on the value grid and aggregates at least one sample.
pub open spec fn bins_ok(bins: Seq<Bin>) -> bool {
    forall|i: int|
        0 <= i < bins.len() ==> (#[trigger] bins[i]).in_range() && bins[i].count >= 1
}

/// The bins are in strictly increasing order of mean: no two bins share one.
pub open spec fn strictly_sorted_by_mean(bins: Seq<Bin>) -> bool {
    forall|i: int, j: int|
        0 <= i < j < bins.len() ==> #[trigger] bins[i].mean < #[trigger] bins[j].mean
}

/// The bin obtained by merging two bins, as a value: count-weighted average
/// mean rounded down, counts added.
pub open spec fn spec_combine(a: Bin, b: Bin) -> Bin {
    Bin { mean: spec_combined_mean(a, b) as i64, count: (a.count + b.count) as u64 }
}

/// Concatenation splits a total count.
pub proof fn lemma_total_count_app(a: Seq<Bin>, b: Seq<Bin>)
    ensures
        total_count(a + b) == total_count(a) + total_count(b),
    decreases b.len(),
{
    if b.len() == 0 {
        assert(a + b =~= a);
    } else {
        assert((a + b).drop_last() =~= a + b.drop_last());
        lemma_total_count_app(a, b.drop_last());
    }
}

/// A total count is never negative.
pub proof fn lemma_total_count_nonneg(bins: Seq<Bin>)
    ensures
        total_count(bins) >= 0,
    decreases bins.len(),
{
    if bins.len() > 0 {
        lemma_total_count_nonneg(bins.drop_last());
    }
}

/// The total count of a prefix, one element longer.
pub proof fn lemma_total_count_take_step(bins: Seq<Bin>, i: int)
    requires
        0 <= i < bins.len(),
    ensures
        total_count(bins.take(i + 1)) == total_count(bins.take(i)) + bins[i].count,
{
    assert(bins.take(i + 1).drop_last() =~= bins.take(i));
    assert(bins.take(i + 1).last() == bins[i]);
}

/// A prefix never counts more samples than the whole sequence.
pub proof fn lemma_total_count_take_le(bins: Seq<Bin>, i: int)
    requires
        0 <= i <= bins.len(),
    ensures
        total_count(bins.take(i)) <= total_count(bins),
        total_count(bins) == total_count(bins.take(i)) + total_count(bins.skip(i)),
{
    assert(bins =~= bins.take(i) + bins.skip(i));
    lemma_total_count_app(bins.take(i), bins.skip(i));
    lemma_total_count_nonneg(bins.skip(i));
}

/// The gap between two adjacent bin means.
pub open spec fn spec_gap(bins: Seq<Bin>, i: int) -> int {
    bins[i + 1].mean - bins[i].mean
}

/// The leftmost index of the smallest gap among the gap indices `0 .. k`.
pub open spec fn min_gap_upto(bins: Seq<Bin>, k: int) -> int
    decreases k,
{
    if k <= 1 {
        0
    } else {
        let prev = min_gap_upto(bins, k - 1);
        if spec_gap(bins, k - 1) < spec_gap(bins, prev) {
            k - 1
        } else {
            prev
        }
    }
}

/// The leftmost index of the smallest gap between adjacent bin means.
pub open spec fn min_gap_index(bins: Seq<Bin>) -> int {
    min_gap_upto(bins, bins.len() - 1)
}

/// The sequence after merging the adjacent pair at `i` into one bin.
pub open spec fn spec_merge_at(bins: Seq<Bin>, i: int) -> Seq<Bin> {
    bins.update(i, spec_combine(bins[i], bins[i + 1])).remove(i + 1)
}

/// The result of trimming: while the sequence is longer than `size`, merge
/// the adjacent pair with the leftmost smallest mean gap; a `size` of zero
/// clears the sequence.
pub open spec fn spec_trim(bins: Seq<Bin>, size: int) -> Seq<Bin>
    decreases bins.len(),
    via spec_trim_decreases
{
    if size <= 0 {
        Seq::<Bin>::empty()
    } else if bins.len() <= size {
        bins
    } else {
        spec_trim(spec_merge_at(bins, min_gap_index(bins)), size)
    }
}

#[via_fn]
proof fn spec_trim_decreases(bins: Seq<Bin>, size: int) {
    if size > 0 && bins.len() > size {
        lemma_min_gap_upto_range(bins, bins.len() - 1);
        assert(spec_merge_at(bins, min_gap_index(bins)).len() == bins.len() - 1);
    }
}

/// The result index of a leftmost-smallest-gap scan stays in range.
pub proof fn lemma_min_gap_upto_range(bins: Seq<Bin>, k: int)
    requires
        k >= 1,
    ensures
        0 <= min_gap_upto(bins, k) < k,
    decreases k,
{
    if k > 1 {
        lemma_min_gap_upto_range(bins, k - 1);
    }
}

/// The total count of a two-bin sequence.
pub proof fn lemma_total_count_two(a: Bin, b: Bin)
    ensures
        total_count(seq![a, b]) == a.count + b.count,
{
    lemma_total_count_one(a);
    assert(seq![a, b].drop_last() =~= seq![a]);
    assert(seq![a, b].last() == b);
    assert(total_count(seq![a, b]) == total_count(seq![a]) + b.count);
}

/// The total count of a one-bin sequence.
pub proof fn lemma_total_count_one(a: Bin)
    ensures
        total_count(seq![a]) == a.count,
{
    assert(seq![a].drop_last() =~= Seq::<Bin>::empty());
    assert(total_count(Seq::<Bin>::empty()) == 0);
    assert(total_count(seq![a]) == total_count(seq![a].drop_last()) + seq![a].last().count);
}

/// Two adjacent bins never aggregate more samples than the whole sequence.
pub proof fn lemma_pair_le_total(bins: Seq<Bin>, i: int)
    requires
        0 <= i,
        i + 1 < bins.len(),
        bins_ok(bins),
    ensures
        bins[i].count + bins[i + 1].count <= total_count(bins),
{
    assert(bins =~= bins.take(i) + seq![bins[i], bins[i + 1]] + bins.skip(i + 2));
    lemma_total_count_app(bins.take(i) + seq![bins[i], bins[i + 1]], bins.skip(i + 2));
    lemma_total_count_app(bins.take(i), seq![bins[i], bins[i + 1]]);
    lemma_total_count_two(bins[i], bins[i + 1]);
    lemma_total_count_nonneg(bins.take(i));
    lemma_total_count_nonneg(bins.skip(i + 2));
}

/// The merged mean of two bins lies between their means.
pub proof fn lemma_combined_mean_bounds(a: Bin, b: Bin)
    requires
        a.in_range(),
        b.in_range(),
        a.count + b.count >= 1,
    ensures
        a.mean <= b.mean ==> a.mean <= spec_combined_mean(a, b) <= b.mean,
        b.mean <= a.mean ==> b.mean <= spec_combined_mean(a, b) <= a.mean,
{
    let t = a.count + b.count;
    let lo = if a.mean <= b.mean {
        a.mean as int
    } else {
        b.mean as int
    };
    let hi = if a.mean <= b.mean {
        b.mean as int
    } else {
        a.mean as int
    };
    assert(lo * t <= a.mean * a.count + b.mean * b.count <= hi * t) by (nonlinear_arith)
        requires
            t == a.count + b.count,
            a.count >= 0,
            b.count >= 0,
            lo <= a.mean <= hi,
            lo <= b.mean <= hi,
    ;
    vstd::arithmetic::div_mod::lemma_div_is_ordered(lo * t, a.mean * a.count + b.mean * b.count, t);
    vstd::arithmetic::div_mod::lemma_div_is_ordered(a.mean * a.count + b.mean * b.count, hi * t, t);
    vstd::arithmetic::div_mod::lemma_div_multiples_vanish(lo, t);
    vstd::arithmetic::div_mod::lemma_div_multiples_vanish(hi, t);
    assert(lo * t == t * lo && hi * t == t * hi) by (nonlinear_arith);
}

/// What merging one adjacent pair does to a sorted sequence of bins: one bin
/// fewer, still sorted (strictly, if it was), the same total, and first and
/// last mean moving only inward.
pub proof fn lemma_merge_at_properties(bins: Seq<Bin>, i: int)
    requires
        sorted_by_mean(bins),
        bins_ok(bins),
        total_count(bins) <= COUNT_LIMIT,
        0 <= i,
        i + 1 < bins.len(),
    ensures
        spec_merge_at(bins, i).len() == bins.len() - 1,
        sorted_by_mean(spec_merge_at(bins, i)),
        bins_ok(spec_merge_at(bins, i)),
        total_count(spec_merge_at(bins, i)) == total_count(bins),
        strictly_sorted_by_mean(bins) ==> strictly_sorted_by_mean(spec_merge_at(bins, i)),
        spec_merge_at(bins, i)[0].mean >= bins[0].mean,
        spec_merge_at(bins, i).last().mean <= bins.last().mean,
{
    let c = spec_combine(bins[i], bins[i + 1]);
    let m = spec_merge_at(bins, i);
    lemma_pair_le_total(bins, i);
    lemma_total_count_nonneg(bins);
    lemma_combined_mean_bounds(bins[i], bins[i + 1]);
    assert(bins[i].mean <= c.mean <= bins[i + 1].mean);
    assert(m =~= bins.take(i) + seq![c] + bins.skip(i + 2));
    assert(forall|j: int| 0 <= j < i ==> m[j] == bins[j]);
    assert(forall|j: int| i < j < m.len() ==> m[j] == bins[j + 1]);
    assert(m[i] == c);
    lemma_total_count_app(bins.take(i) + seq![c], bins.skip(i + 2));
    lemma_total_count_app(bins.take(i), seq![c]);
    lemma_total_count_one(c);
    assert(bins =~= bins.take(i) + seq![bins[i], bins[i + 1]] + bins.skip(i + 2));
    lemma_total_count_app(bins.take(i) + seq![bins[i], bins[i + 1]], bins.skip(i + 2));
    lemma_total_count_app(bins.take(i), seq![bins[i], bins[i + 1]]);
    lemma_total_count_two(bins[i], bins[i + 1]);
}

/// The number of bins whose mean lies strictly below `value`.
pub open spec fn spec_partition_point(bins: Seq<Bin>, value: int) -> int
    decreases bins.len(),
{
    if bins.len() == 0 {
        0
    } else if bins[0].mean < value {
        1 + spec_partition_point(bins.drop_first(), value)
    } else {
        0
    }
}

/// What inserting one sample does to the bins: a bin of the same mean gets
/// one more sample, otherwise a fresh one-sample bin enters at its sorted
/// position and the sequence is trimmed back to `size`.
pub open spec fn spec_insert_bins(bins: Seq<Bin>, value: i64, size: int) -> Seq<Bin> {
    let idx = spec_partition_point(bins, value as int);
    if idx < bins.len() && bins[idx].mean == value {
        bins.update(idx, Bin { mean: bins[idx].mean, count: (bins[idx].count + 1) as u64 })
    } else {
        spec_trim(bins.insert(idx, Bin { mean: value, count: 1 }), size)
    }
}

/// In a sorted sequence, any index that splits the means below `value` from
/// those at or above it is the partition point.
pub proof fn lemma_partition_point_unique(bins: Seq<Bin>, value: int, r: int)
    requires
        sorted_by_mean(bins),
        0 <= r <= bins.len(),
        forall|i: int| 0 <= i < r ==> #[trigger] bins[i].mean < value,
        forall|i: int| r <= i < bins.len() ==> #[trigger] bins[i].mean >= value,
    ensures
        r == spec_partition_point(bins, value),
    decreases bins.len(),
{
    if bins.len() == 0 {
    } else if bins[0].mean < value {
        assert(r >= 1);
        lemma_partition_point_unique(bins.drop_first(), value, r - 1);
    } else {
        assert(r == 0);
    }
}

/// One bin never aggregates more samples than the whole sequence.
pub proof fn lemma_single_le_total(bins: Seq<Bin>, i: int)
    requires
        0 <= i < bins.len(),
    ensures
        bins[i].count <= total_count(bins),
{
    assert(bins =~= bins.take(i) + seq![bins[i]] + bins.skip(i + 1));
    lemma_total_count_app(bins.take(i) + seq![bins[i]], bins.skip(i + 1));
    lemma_total_count_app(bins.take(i), seq![bins[i]]);
    lemma_total_count_one(bins[i]);
    lemma_total_count_nonneg(bins.take(i));
    lemma_total_count_nonneg(bins.skip(i + 1));
}

/// Replacing one bin changes the total by the difference of the counts.
pub proof fn lemma_total_count_update(bins: Seq<Bin>, i: int, b: Bin)
    requires
        0 <= i < bins.len(),
    ensures
        total_count(bins.update(i, b)) == total_count(bins) - bins[i].count + b.count,
{
    assert(bins =~= bins.take(i) + seq![bins[i]] + bins.skip(i + 1));
    assert(bins.update(i, b) =~= bins.take(i) + seq![b] + bins.skip(i + 1));
    lemma_total_count_app(bins.take(i) + seq![bins[i]], bins.skip(i + 1));
    lemma_total_count_app(bins.take(i), seq![bins[i]]);
    lemma_total_count_app(bins.take(i) + seq![b], bins.skip(i + 1));
    lemma_total_count_app(bins.take(i), seq![b]);
    lemma_total_count_one(bins[i]);
    lemma_total_count_one(b);
}

/// Inserting one bin adds its count to the total.
pub proof fn lemma_total_count_insert(bins: Seq<Bin>, i: int, b: Bin)
    requires
        0 <= i <= bins.len(),
    ensures
        total_count(bins.insert(i, b)) == total_count(bins) + b.count,
{
    assert(bins =~= bins.take(i) + bins.skip(i));
    assert(bins.insert(i, b) =~= bins.take(i) + seq![b] + bins.skip(i));
    lemma_total_count_app(bins.take(i), bins.skip(i));
    lemma_total_count_app(bins.take(i) + seq![b], bins.skip(i));
    lemma_total_count_app(bins.take(i), seq![b]);
    lemma_total_count_one(b);
}

/// The number of bins whose mean lies at or below `value`.
pub open spec fn spec_upper_partition(bins: Seq<Bin>, value: int) -> int
    decreases bins.len(),
{
    if bins.len() == 0 {
        0
    } else if bins[0].mean <= value {
        1 + spec_upper_partition(bins.drop_first(), value)
    } else {
        0
    }
}

/// In a sorted sequence, any index that splits the means at or below `value`
/// from those above it counts the means at or below `value`.
pub proof fn lemma_upper_partition_unique(bins: Seq<Bin>, value: int, r: int)
    requires
        sorted_by_mean(bins),
        0 <= r <= bins.len(),
        forall|i: int| 0 <= i < r ==> #[trigger] bins[i].mean <= value,
        forall|i: int| r <= i < bins.len() ==> #[trigger] bins[i].mean > value,
    ensures
        r == spec_upper_partition(bins, value),
    decreases bins.len(),
{
    if bins.len() == 0 {
    } else if bins[0].mean <= value {
        assert(r >= 1);
        lemma_upper_partition_unique(bins.drop_first(), value, r - 1);
    } else {
        assert(r == 0);
    }
}

/// On a sorted sequence, the upper partition point splits the means at or
/// below `value` from those above it.
pub proof fn lemma_upper_partition_props(bins: Seq<Bin>, value: int)
    requires
        sorted_by_mean(bins),
    ensures
        0 <= spec_upper_partition(bins, value) <= bins.len(),
        forall|i: int|
            0 <= i < spec_upper_partition(bins, value) ==> #[trigger] bins[i].mean <= value,
        forall|i: int|
            spec_upper_partition(bins, value) <= i < bins.len() ==> #[trigger] bins[i].mean
                > value,
    decreases bins.len(),
{
    if bins.len() == 0 {
    } else if bins[0].mean <= value {
        let tail = bins.drop_first();
        let u = spec_upper_partition(bins, value);
        assert(sorted_by_mean(tail));
        lemma_upper_partition_props(tail, value);
        assert(forall|i: int| 0 <= i < tail.len() ==> tail[i] == bins[i + 1]);
        assert forall|i: int| 0 <= i < u implies #[trigger] bins[i].mean <= value by {
            if i > 0 {
                assert(tail[i - 1].mean <= value);
            }
        }
        assert forall|i: int| u <= i < bins.len() implies #[trigger] bins[i].mean > value by {
            assert(tail[i - 1].mean > value);
        }
    } else {
    }
}

/// Insert a bin into a sorted sequence, after every bin whose mean is at or
/// below its own: the placement of a stable sort.
pub open spec fn stable_insert(sorted: Seq<Bin>, b: Bin) -> Seq<Bin>
    decreases sorted.len(),
{
    if sorted.len() == 0 {
        seq![b]
    } else if sorted.last().mean <= b.mean {
        sorted.push(b)
    } else {
        stable_insert(sorted.drop_last(), b).push(sorted.last())
    }
}

/// Sort a sequence of bins by mean, stably: bins of equal mean keep their
/// relative order.
pub open spec fn stable_sort(s: Seq<Bin>) -> Seq<Bin>
    decreases s.len(),
{
    if s.len() == 0 {
        Seq::<Bin>::empty()
    } else {
        stable_insert(stable_sort(s.drop_last()), s.last())
    }
}

/// A stable insertion into a sorted sequence lands at the upper partition
/// point and keeps the sequence sorted, its total, and its length plus one.
#[verifier::rlimit(50)]
#[verifier::spinoff_prover]
pub proof fn lemma_stable_insert_props(sorted: Seq<Bin>, b: Bin)
    requires
        sorted_by_mean(sorted),
    ensures
        stable_insert(sorted, b) == sorted.insert(
            spec_upper_partition(sorted, b.mean as int),
            b,
        ),
        sorted_by_mean(stable_insert(sorted, b)),
        stable_insert(sorted, b).len() == sorted.len() + 1,
        total_count(stable_insert(sorted, b)) == total_count(sorted) + b.count,
        forall|k: int|
            0 <= k < stable_insert(sorted, b).len() ==> (#[trigger] stable_insert(sorted, b)[k]
                == b || sorted.contains(stable_insert(sorted, b)[k])),
    decreases sorted.len(),
{
    let r = stable_insert(sorted, b);
    let u = spec_upper_partition(sorted, b.mean as int);
    if sorted.len() == 0 {
        assert(r =~= sorted.insert(0, b));
        lemma_total_count_one(b);
    } else if sorted.last().mean <= b.mean {
        lemma_upper_partition_unique(sorted, b.mean as int, sorted.len() as int);
        assert(r =~= sorted.insert(sorted.len() as int, b));
        assert(r.drop_last() =~= sorted);
        assert(forall|k: int| 0 <= k < sorted.len() ==> sorted.contains(#[trigger] sorted[k]));
    } else {
        let head = sorted.drop_last();
        assert(sorted_by_mean(head));
        lemma_stable_insert_props(head, b);
        let uh = spec_upper_partition(head, b.mean as int);
        lemma_upper_partition_props(head, b.mean as int);
        assert forall|i: int| uh <= i < sorted.len() implies #[trigger] sorted[i].mean > b.mean by {
            if i < head.len() {
                assert(head[i] == sorted[i]);
            }
        }
        assert forall|i: int| 0 <= i < uh implies #[trigger] sorted[i].mean <= b.mean by {
            assert(head[i] == sorted[i]);
        }
        lemma_upper_partition_unique(sorted, b.mean as int, uh);
        assert(r =~= sorted.insert(uh, b));
        assert(r.drop_last() =~= stable_insert(head, b));
        assert(r.last() == sorted.last());
        assert(total_count(r) == total_count(stable_insert(head, b)) + sorted.last().count);
        assert(total_count(sorted) == total_count(head) + sorted.last().count);
        assert forall|k: int| 0 <= k < r.len() implies (#[trigger] r[k] == b || sorted.contains(
            r[k],
        )) by {
            if k < r.len() - 1 {
                assert(r[k] == stable_insert(head, b)[k]);
                if r[k] != b {
                    assert(head.contains(r[k]));
                    let j = choose|j: int| 0 <= j < head.len() && head[j] == r[k];
                    assert(sorted[j] == r[k]);
                }
            } else {
                assert(r[k] == sorted.last());
            }
        }
    }
}

/// A stable sort yields a sorted sequence of the same length and total whose
/// bins all come from the input.
pub proof fn lemma_stable_sort_props(s: Seq<Bin>)
    ensures
        sorted_by_mean(stable_sort(s)),
        stable_sort(s).len() == s.len(),
        total_count(stable_sort(s)) == total_count(s),
        forall|k: int|
            0 <= k < stable_sort(s).len() ==> s.contains(#[trigger] stable_sort(s)[k]),
    decreases s.len(),
{
    if s.len() > 0 {
        lemma_stable_sort_props(s.drop_last());
        lemma_stable_insert_props(stable_sort(s.drop_last()), s.last());
        assert forall|k: int| 0 <= k < stable_sort(s).len() implies s.contains(
            #[trigger] stable_sort(s)[k],
        ) by {
            let e = stable_sort(s)[k];
            if e == s.last() {
                assert(s[s.len() - 1] == e);
            } else {
                assert(s.drop_last().contains(e) || e == s.last());
                if s.drop_last().contains(e) {
                    let j = choose|j: int| 0 <= j < s.drop_last().len() && s.drop_last()[j] == e;
                    assert(s[j] == e);
                }
            }
        }
    }
}

/// The number of bins whose mean lies at or below `value`, located by
/// binary search.
pub(crate) fn upper_partition(bins: &Vec<Bin>, value: i64) -> (r: usize)
    requires
        sorted_by_mean(bins@),
    ensures
        r <= bins@.len(),
        r == spec_upper_partition(bins@, value as int),
{
    let mut lo: usize = 0;
    let mut hi: usize = bins.len();
    while lo < hi
        invariant
            0 <= lo <= hi <= bins@.len(),
            sorted_by_mean(bins@),
            forall|i: int| 0 <= i < lo ==> #[trigger] bins@[i].mean <= value,
            forall|i: int| hi <= i < bins@.len() ==> #[trigger] bins@[i].mean > value,
        decreases hi - lo,
    {
        let mid = lo + (hi - lo) / 2;
        if bins[mid].mean <= value {
            lo = mid + 1;
        } else {
            hi = mid;
        }
    }
    proof {
        lemma_upper_partition_unique(bins@, value as int, lo as int);
    }
    lo
}

/// A stably sorted copy of a sequence of bins.
fn sorted_copy(input: &Vec<Bin>) -> (r: Vec<Bin>)
    ensures
        r@ == stable_sort(input@),
        sorted_by_mean(r@),
{
    let mut out: Vec<Bin> = Vec::new();
    let mut i: usize = 0;
    proof {
        assert(input@.take(0) =~= Seq::<Bin>::empty());
    }
    while i < input.len()
        invariant
            0 <= i <= input@.len(),
            out@ == stable_sort(input@.take(i as int)),
            sorted_by_mean(out@),
        decreases input@.len() - i,
    {
        let b = input[i];
        proof {
            lemma_stable_insert_props(out@, b);
            assert(input@.take(i + 1).drop_last() =~= input@.take(i as int));
            assert(input@.take(i + 1).last() == input@[i as int]);
        }
        let pos = upper_partition(&out, b.mean);
        out.insert(pos, b);
        i = i + 1;
    }
    proof {
        assert(input@.take(input@.len() as int) =~= input@);
    }
    out
}

/// The smaller of two optional values; `None` acts as the neutral element.
pub open spec fn opt_min(a: Option<i64>, b: Option<i64>) -> Option<i64> {
    match (a, b) {
        (None, x) => x,
        (x, None) => x,
        (Some(p), Some(q)) => if p <= q {
            Some(p)
        } else {
            Some(q)
        },
    }
}

/// The larger of two optional values; `None` acts as the neutral element.
pub open spec fn opt_max(a: Option<i64>, b: Option<i64>) -> Option<i64> {
    match (a, b) {
        (None, x) => x,
        (x, None) => x,
        (Some(p), Some(q)) => if p >= q {
            Some(p)
        } else {
            Some(q)
        },
    }
}

impl StreamHist {
    /// Well-formedness of a sketch: the bins are sorted by mean, on the value
    /// grid, each aggregating at least one sample; the total stays below the
    /// count bound; the number of bins respects the target size (a lone bin
    /// is tolerated at size zero, until the next trim); and `min`/`max` are
    /// present exactly when there is data, bracketing the bin means.
    pub open spec fn wf(self) -> bool {
        &&& sorted_by_mean(self.bins@)
        &&& bins_ok(self.bins@)
        &&& total_count(self.bins@) <= COUNT_LIMIT
        &&& (self.bins@.len() <= self.size || (self.size == 0 && self.bins@.len() <= 1))
        &&& (self.min is Some <==> self.max is Some)
        &&& self.bins@.len() > 0 ==> self.min is Some
        &&& self.min is Some ==> {
            &&& -VALUE_LIMIT <= self.min.unwrap() <= VALUE_LIMIT
            &&& -VALUE_LIMIT <= self.max.unwrap() <= VALUE_LIMIT
            &&& self.min.unwrap() <= self.max.unwrap()
        }
        &&& self.bins@.len() > 0 ==> {
            &&& self.min.unwrap() <= self.bins@[0].mean
            &&& self.max.unwrap() >= self.bins@[self.bins@.len() - 1].mean
        }
    }

    /// Total number of samples the sketch has absorbed.
    pub open spec fn total(self) -> int {
        total_count(self.bins@)
    }

    /// Initialize an empty histogram with the number of bins bounded by `size`.
    pub fn with_capacity(size: usize) -> (r: StreamHist)
        ensures
            r.bins@ =~= Seq::<Bin>::empty(),
            r.min is None,
            r.max is None,
            r.size == size,
            r.wf(),
            r.total() == 0,
    {
        StreamHist { bins: Vec::new(), min: None, max: None, size }
    }

    /// Returns `true` if the histogram contains no data.
    pub fn is_empty(&self) -> (r: bool)
        ensures
            r == (self.bins@.len() == 0),
    {
        self.bins.len() == 0
    }

    /// The total count of all the values used to create the histogram.
    pub fn count(&self) -> (r: u64)
        requires
            self.wf(),
        ensures
            r == self.total(),
    {
        let n = self.bins.len();
        let mut acc: u64 = 0;
        let mut i: usize = 0;
        proof {
            assert(self.bins@.take(0) =~= Seq::<Bin>::empty());
        }
        while i < n
            invariant
                0 <= i <= n,
                n == self.bins@.len(),
                self.wf(),
                acc == total_count(self.bins@.take(i as int)),
                acc <= COUNT_LIMIT,
            decreases n - i,
        {
            proof {
                lemma_total_count_take_step(self.bins@, i as int);
                lemma_total_count_take_le(self.bins@, i + 1);
            }
            acc = acc + self.bins[i].count;
            i = i + 1;
        }
        proof {
            assert(self.bins@.take(n as int) =~= self.bins@);
        }
        acc
    }

    /// The bins of the histogram, in ascending order of mean.
    pub fn iter(&self) -> (r: Vec<Bin>)
        ensures
            r@ == self.bins@,
    {
        let mut out: Vec<Bin> = Vec::new();
        let mut i: usize = 0;
        while i < self.bins.len()
            invariant
                0 <= i <= self.bins@.len(),
                out@ =~= self.bins@.take(i as int),
            decreases self.bins@.len() - i,
        {
            out.push(self.bins[i]);
            i = i + 1;
        }
        proof {
            assert(self.bins@.take(self.bins@.len() as int) =~= self.bins@);
        }
        out
    }

    /// Insert a new sample into the histogram.
    ///
    /// An empty histogram starts with a one-sample bin and records the sample
    /// as both `min` and `max`. Otherwise the range is widened if needed and
    /// the sample joins the bin sharing its mean, or enters as a fresh bin at
    /// its sorted position followed by a trim back to the target size.
    #[verifier::rlimit(50)]
    pub fn insert(&mut self, value: i64)
        requires
            old(self).wf(),
            -VALUE_LIMIT <= value <= VALUE_LIMIT,
            old(self).total() < COUNT_LIMIT,
        ensures
            final(self).wf(),
            final(self).size == old(self).size,
            old(self).size > 0 ==> final(self).total() == old(self).total() + 1,
            strictly_sorted_by_mean(old(self).bins@) ==> strictly_sorted_by_mean(
                final(self).bins@,
            ),
            old(self).bins@.len() == 0 ==> {
                &&& final(self).bins@ =~= seq![Bin { mean: value, count: 1 }]
                &&& final(self).min == Some(value)
                &&& final(self).max == Some(value)
            },
            old(self).bins@.len() > 0 ==> {
                &&& final(self).bins@ == spec_insert_bins(
                    old(self).bins@,
                    value,
                    old(self).size as int,
                )
                &&& final(self).min == (if value < old(self).min.unwrap() {
                    Some(value)
                } else {
                    old(self).min
                })
                &&& final(self).max == (if value > old(self).max.unwrap() {
                    Some(value)
                } else {
                    old(self).max
                })
            },
    {
        proof {
            lemma_total_count_nonneg(self.bins@);
        }
        if self.is_empty() {
            self.min = Some(value);
            self.max = Some(value);
            self.bins.insert(0, Bin { mean: value, count: 1 });
            proof {
                assert(self.bins@ =~= seq![Bin { mean: value, count: 1 }]);
                lemma_total_count_one(Bin { mean: value, count: 1 });
            }
            return ;
        }

        match self.min {
            Some(m) => if value < m {
                self.min = Some(value);
            },
            None => (),
        }
        match self.max {
            Some(m) => if value > m {
                self.max = Some(value);
            },
            None => (),
        }

        let idx = self.partition_point(value);
        proof {
            lemma_partition_point_unique(self.bins@, value as int, idx as int);
        }
        if idx < self.bins.len() && self.bins[idx].mean == value {
            proof {
                lemma_single_le_total(self.bins@, idx as int);
                lemma_total_count_update(
                    self.bins@,
                    idx as int,
                    Bin { mean: value, count: (self.bins@[idx as int].count + 1) as u64 },
                );
            }
            let c = self.bins[idx].count;
            self.bins[idx] = Bin { mean: value, count: c + 1 };
        } else {
            proof {
                lemma_total_count_insert(self.bins@, idx as int, Bin { mean: value, count: 1 });
                assert(forall|i: int|
                    0 <= i < idx ==> #[trigger] old(self).bins@[i].mean < value);
            }
            self.bins.insert(idx, Bin { mean: value, count: 1 });
            proof {
                let b = self.bins@;
                assert forall|i: int, j: int| 0 <= i < j < b.len() implies #[trigger] b[i].mean
                    <= #[trigger] b[j].mean by {
                    if i < idx {
                        assert(b[i] == old(self).bins@[i]);
                    }
                    if j > idx {
                        assert(b[j] == old(self).bins@[j - 1]);
                    }
                }
                if strictly_sorted_by_mean(old(self).bins@) {
                    assert forall|i: int, j: int| 0 <= i < j < b.len() implies #[trigger] b[i].mean
                        < #[trigger] b[j].mean by {
                        if i < idx {
                            assert(b[i] == old(self).bins@[i]);
                        }
                        if j > idx {
                            assert(b[j] == old(self).bins@[j - 1]);
                        }
                    }
                }
            }
            self.trim();
        }
        proof {
            if self.bins@.len() > 0 && old(self).size > 0 {
                lemma_total_count_nonneg(self.bins@);
            }
        }
    }

    /// The leftmost index of the smallest difference of means between
    /// adjacent bins.
    fn min_diff_index(&self) -> (r: usize)
        requires
            self.bins@.len() >= 2,
            bins_ok(self.bins@),
        ensures
            r == min_gap_index(self.bins@),
            0 <= r < self.bins@.len() - 1,
    {
        let n = self.bins.len();
        let mut best: usize = 0;
        let mut best_gap: i64 = self.bins[1].mean - self.bins[0].mean;
        let mut i: usize = 1;
        while i < n - 1
            invariant
                1 <= i <= n - 1,
                n == self.bins@.len(),
                n >= 2,
                bins_ok(self.bins@),
                0 <= best < i,
                best == min_gap_upto(self.bins@, i as int),
                best_gap == spec_gap(self.bins@, best as int),
            decreases n - 1 - i,
        {
            let gap = self.bins[i + 1].mean - self.bins[i].mean;
            if gap < best_gap {
                best = i;
                best_gap = gap;
            }
            i = i + 1;
        }
        best
    }

    /// Merge the adjacent pair of bins at `idx` into one bin.
    fn merge_at(&mut self, idx: usize)
        requires
            sorted_by_mean(old(self).bins@),
            bins_ok(old(self).bins@),
            total_count(old(self).bins@) <= COUNT_LIMIT,
            idx + 1 < old(self).bins@.len(),
        ensures
            final(self).bins@ == spec_merge_at(old(self).bins@, idx as int),
            final(self).min == old(self).min,
            final(self).max == old(self).max,
            final(self).size == old(self).size,
    {
        proof {
            lemma_pair_le_total(old(self).bins@, idx as int);
            lemma_total_count_nonneg(old(self).bins@);
        }
        let n = self.bins.len();
        assert(idx + 1 < n);
        let removed = self.bins.remove(idx + 1);
        let merged = Bin::combine(self.bins[idx], removed);
        self.bins[idx] = merged;
        proof {
            let b = old(self).bins@;
            lemma_combined_mean_bounds(b[idx as int], b[idx as int + 1]);
            assert(merged == spec_combine(b[idx as int], b[idx as int + 1]));
            assert(self.bins@ =~= spec_merge_at(b, idx as int));
        }
    }

    /// Trim the histogram until it has no more bins than its target size,
    /// repeatedly merging the closest adjacent pair.
    fn trim(&mut self)
        requires
            sorted_by_mean(old(self).bins@),
            bins_ok(old(self).bins@),
            total_count(old(self).bins@) <= COUNT_LIMIT,
        ensures
            final(self).bins@ == spec_trim(old(self).bins@, old(self).size as int),
            final(self).min == old(self).min,
            final(self).max == old(self).max,
            final(self).size == old(self).size,
            sorted_by_mean(final(self).bins@),
            bins_ok(final(self).bins@),
            total_count(final(self).bins@) <= total_count(old(self).bins@),
            old(self).size > 0 ==> total_count(final(self).bins@) == total_count(
                old(self).bins@,
            ),
            old(self).size > 0 ==> final(self).bins@.len() <= old(self).size,
            old(self).size == 0 ==> final(self).bins@.len() == 0,
            strictly_sorted_by_mean(old(self).bins@) ==> strictly_sorted_by_mean(
                final(self).bins@,
            ),
            old(self).size > 0 && old(self).bins@.len() > 0 ==> {
                &&& final(self).bins@.len() > 0
                &&& final(self).bins@[0].mean >= old(self).bins@[0].mean
                &&& final(self).bins@.last().mean <= old(self).bins@.last().mean
            },
    {
        proof {
            lemma_total_count_nonneg(old(self).bins@);
        }
        if self.size == 0 {
            self.bins.clear();
            return ;
        }
        while self.bins.len() > self.size
            invariant
                self.size == old(self).size,
                self.min == old(self).min,
                self.max == old(self).max,
                self.size > 0,
                sorted_by_mean(self.bins@),
                bins_ok(self.bins@),
                total_count(self.bins@) == total_count(old(self).bins@),
                total_count(self.bins@) <= COUNT_LIMIT,
                spec_trim(self.bins@, self.size as int) == spec_trim(
                    old(self).bins@,
                    old(self).size as int,
                ),
                strictly_sorted_by_mean(old(self).bins@) ==> strictly_sorted_by_mean(self.bins@),
                old(self).bins@.len() > 0 ==> {
                    &&& self.bins@.len() > 0
                    &&& self.bins@[0].mean >= old(self).bins@[0].mean
                    &&& self.bins@.last().mean <= old(self).bins@.last().mean
                },
            decreases self.bins@.len(),
        {
            let ghost pre = self.bins@;
            proof {
                lemma_min_gap_upto_range(pre, pre.len() - 1);
                lemma_merge_at_properties(pre, min_gap_index(pre));
            }
            let idx = self.min_diff_index();
            self.merge_at(idx);
            proof {
                assert(spec_trim(pre, self.size as int) == spec_trim(
                    self.bins@,
                    self.size as int,
                ));
            }
        }
        proof {
            assert(spec_trim(self.bins@, self.size as int) == self.bins@);
        }
    }

    /// Adjust the target number of bins of the histogram, trimming down to
    /// the new size where it shrinks below the number of bins held.
    pub fn resize(&mut self, size: usize)
        requires
            old(self).wf(),
        ensures
            final(self).size == size,
            final(self).min == old(self).min,
            final(self).max == old(self).max,
            final(self).bins@ == spec_trim(old(self).bins@, size as int),
            final(self).wf(),
            size > 0 ==> final(self).total() == old(self).total(),
            strictly_sorted_by_mean(old(self).bins@) ==> strictly_sorted_by_mean(
                final(self).bins@,
            ),
    {
        self.size = size;
        self.trim();
        proof {
            if self.bins@.len() > 0 {
                assert(old(self).bins@.len() > 0);
            }
        }
    }

    /// Merge another histogram into this one.
    ///
    /// The bins of both histograms are combined into one stably sorted
    /// sequence which is then trimmed to this histogram's own target size;
    /// the other histogram's size is discarded. The observed range becomes
    /// the union of the two ranges.
    pub fn merge(&mut self, other: StreamHist)
        requires
            old(self).wf(),
            other.wf(),
            old(self).total() + other.total() <= COUNT_LIMIT,
        ensures
            final(self).wf(),
            final(self).size == old(self).size,
            final(self).bins@ == spec_trim(
                stable_sort(old(self).bins@ + other.bins@),
                old(self).size as int,
            ),
            final(self).min == opt_min(old(self).min, other.min),
            final(self).max == opt_max(old(self).max, other.max),
            old(self).size > 0 ==> final(self).total() == old(self).total() + other.total(),
    {
        let ghost concat = old(self).bins@ + other.bins@;
        proof {
            lemma_total_count_app(old(self).bins@, other.bins@);
            lemma_total_count_nonneg(old(self).bins@);
            lemma_total_count_nonneg(other.bins@);
        }
        let mut other_bins = other.bins;
        self.bins.append(&mut other_bins);
        let sorted = sorted_copy(&self.bins);
        self.bins = sorted;
        proof {
            lemma_stable_sort_props(concat);
            assert forall|k: int| 0 <= k < self.bins@.len() implies (
            #[trigger] self.bins@[k]).in_range() && self.bins@[k].count >= 1 by {
                assert(concat.contains(self.bins@[k]));
                let j = choose|j: int| 0 <= j < concat.len() && concat[j] == self.bins@[k];
                if j < old(self).bins@.len() {
                    assert(old(self).bins@[j] == concat[j]);
                } else {
                    assert(other.bins@[j - old(self).bins@.len()] == concat[j]);
                }
            }
        }
        self.min = match (self.min, other.min) {
            (None, x) => x,
            (x, None) => x,
            (Some(p), Some(q)) => if p <= q {
                Some(p)
            } else {
                Some(q)
            },
        };
        self.max = match (self.max, other.max) {
            (None, x) => x,
            (x, None) => x,
            (Some(p), Some(q)) => if p >= q {
                Some(p)
            } else {
                Some(q)
            },
        };
        proof {
            if self.bins@.len() > 0 {
                assert(self.min is Some && self.max is Some);
                assert forall|k: int| 0 <= k < self.bins@.len() implies self.min.unwrap() <= (
                #[trigger] self.bins@[k]).mean && self.max.unwrap() >= self.bins@[k].mean by {
                    assert(concat.contains(self.bins@[k]));
                    let j = choose|j: int| 0 <= j < concat.len() && concat[j] == self.bins@[k];
                    if j < old(self).bins@.len() {
                        assert(old(self).bins@[j] == concat[j]);
                        assert(old(self).bins@[0].mean <= concat[j].mean);
                        assert(old(self).bins@.last().mean >= concat[j].mean);
                    } else {
                        assert(other.bins@[j - old(self).bins@.len()] == concat[j]);
                        assert(other.bins@[0].mean <= concat[j].mean);
                        assert(other.bins@.last().mean >= concat[j].mean);
                    }
                }
            }
        }
        self.trim();
    }

    /// Initialize a histogram from a vector of sample values.
    ///
    /// The target size becomes the number of values given, so no trimming
    /// takes place; the range is the span of the values.
    pub fn from_values(values: Vec<i64>) -> (r: StreamHist)
        requires
            forall|i: int|
                0 <= i < values@.len() ==> -VALUE_LIMIT <= #[trigger] values@[i] <= VALUE_LIMIT,
            values@.len() <= COUNT_LIMIT,
        ensures
            r.wf(),
            r.bins@ == stable_sort(values@.map_values(|v: i64| Bin { mean: v, count: 1 })),
            r.size == values@.len(),
            r.total() == values@.len(),
            values@.len() == 0 ==> (r.min is None && r.max is None),
            values@.len() > 0 ==> r.min == Some(r.bins@[0].mean) && r.max == Some(
                r.bins@.last().mean,
            ),
    {
        let ghost mapped = values@.map_values(|v: i64| Bin { mean: v, count: 1 });
        let mut built: Vec<Bin> = Vec::new();
        let mut i: usize = 0;
        proof {
            assert(built@ =~= mapped.take(0));
        }
        while i < values.len()
            invariant
                0 <= i <= values@.len(),
                mapped == values@.map_values(|v: i64| Bin { mean: v, count: 1 }),
                built@ =~= mapped.take(i as int),
                total_count(built@) == i,
            decreases values@.len() - i,
        {
            let b = Bin { mean: values[i], count: 1 };
            proof {
                assert(built@.push(b).drop_last() =~= built@);
                assert(mapped.take(i + 1) =~= mapped.take(i as int).push(mapped[i as int]));
                assert(mapped[i as int] == b);
            }
            built.push(b);
            i = i + 1;
        }
        proof {
            assert(built@ =~= mapped);
            assert forall|k: int| 0 <= k < mapped.len() implies (#[trigger] mapped[k]).in_range()
                && mapped[k].count >= 1 by {
                assert(mapped[k] == Bin { mean: values@[k], count: 1 });
            }
            lemma_stable_sort_props(mapped);
        }
        let bins = sorted_copy(&built);
        let size = bins.len();
        if size == 0 {
            return StreamHist { bins, min: None, max: None, size };
        }
        let lo = bins[0].mean;
        let hi = bins[size - 1].mean;
        proof {
            assert(mapped.contains(stable_sort(mapped)[0]));
            assert(mapped.contains(stable_sort(mapped).last()));
        }
        StreamHist { bins, min: Some(lo), max: Some(hi), size }
    }

    /// Initialize a histogram from a vector of bins.
    ///
    /// The bins are sorted stably by mean; the target size becomes the
    /// number of bins, and the range is the span of the bin means.
    pub fn from_bins(bins: Vec<Bin>) -> (r: StreamHist)
        requires
            bins_ok(bins@),
            total_count(bins@) <= COUNT_LIMIT,
        ensures
            r.wf(),
            r.bins@ == stable_sort(bins@),
            r.size == bins@.len(),
            r.total() == total_count(bins@),
            bins@.len() == 0 ==> (r.min is None && r.max is None),
            bins@.len() > 0 ==> r.min == Some(r.bins@[0].mean) && r.max == Some(
                r.bins@.last().mean,
            ),
    {
        proof {
            lemma_stable_sort_props(bins@);
            assert forall|k: int| 0 <= k < stable_sort(bins@).len() implies (
            #[trigger] stable_sort(bins@)[k]).in_range() && stable_sort(bins@)[k].count >= 1 by {
                assert(bins@.contains(stable_sort(bins@)[k]));
                let j = choose|j: int| 0 <= j < bins@.len() && bins@[j] == stable_sort(bins@)[k];
                assert(bins@[j].in_range());
            }
            lemma_total_count_nonneg(bins@);
        }
        let sorted = sorted_copy(&bins);
        let size = sorted.len();
        if size == 0 {
            return StreamHist { bins: sorted, min: None, max: None, size };
        }
        let lo = sorted[0].mean;
        let hi = sorted[size - 1].mean;
        StreamHist { bins: sorted, min: Some(lo), max: Some(hi), size }
    }

    /// The number of bins whose mean lies strictly below `value`: the index
    /// at which a bin of that mean would be inserted.
    pub fn partition_point(&self, value: i64) -> (r: usize)
        requires
            sorted_by_mean(self.bins@),
        ensures
            r <= self.bins@.len(),
            forall|i: int| 0 <= i < r ==> #[trigger] self.bins@[i].mean < value,
            forall|i: int| r <= i < self.bins@.len() ==> #[trigger] self.bins@[i].mean >= value,
    {
        let mut lo: usize = 0;
        let mut hi: usize = self.bins.len();
        while lo < hi
            invariant
                0 <= lo <= hi <= self.bins@.len(),
                sorted_by_mean(self.bins@),
                forall|i: int| 0 <= i < lo ==> #[trigger] self.bins@[i].mean < value,
                forall|i: int|
                    hi <= i < self.bins@.len() ==> #[trigger] self.bins@[i].mean >= value,
            decreases hi - lo,
        {
            let mid = lo + (hi - lo) / 2;
            if self.bins[mid].mean < value {
                lo = mid + 1;
            } else {
                hi = mid;
            }
        }
        lo
    }
}

/// The bin holding one sample of value `v`.
pub open spec fn unit_bin(v: i64) -> Bin {
    Bin { mean: v, count: 1 }
}

/// Values in non-decreasing order.
pub open spec fn int_sorted(s: Seq<i64>) -> bool {
    forall|i: int, j: int| 0 <= i < j < s.len() ==> #[trigger] s[i] <= #[trigger] s[j]
}

/// Insert a value into a sorted sequence of values, after every value at or
/// below it.
pub open spec fn int_insert_sorted(sorted: Seq<i64>, x: i64) -> Seq<i64>
    decreases sorted.len(),
{
    if sorted.len() == 0 {
        seq![x]
    } else if sorted.last() <= x {
        sorted.push(x)
    } else {
        int_insert_sorted(sorted.drop_last(), x).push(sorted.last())
    }
}

/// Sort a sequence of values in non-decreasing order.
pub open spec fn int_sort(s: Seq<i64>) -> Seq<i64>
    decreases s.len(),
{
    if s.len() == 0 {
        Seq::<i64>::empty()
    } else {
        int_insert_sorted(int_sort(s.drop_last()), s.last())
    }
}

/// Inserting into a sorted sequence of values keeps it sorted and adds the
/// value to its multiset.
pub proof fn lemma_int_insert_props(sorted: Seq<i64>, x: i64)
    requires
        int_sorted(sorted),
    ensures
        int_sorted(int_insert_sorted(sorted, x)),
        int_insert_sorted(sorted, x).len() == sorted.len() + 1,
        int_insert_sorted(sorted, x).to_multiset() =~= sorted.to_multiset().insert(x),
    decreases sorted.len(),
{
    broadcast use vstd::seq_lib::group_to_multiset_ensures;

    let r = int_insert_sorted(sorted, x);
    if sorted.len() == 0 {
        assert(seq![x] =~= Seq::<i64>::empty().push(x));
        assert(Seq::<i64>::empty().to_multiset() =~= vstd::multiset::Multiset::<i64>::empty());
    } else if sorted.last() <= x {
        assert(int_sorted(r)) by {
            assert(forall|i: int|
                0 <= i < sorted.len() ==> #[trigger] sorted[i] <= sorted.last());
        }
    } else {
        let head = sorted.drop_last();
        assert(int_sorted(head));
        lemma_int_insert_props(head, x);
        let inner = int_insert_sorted(head, x);
        assert(int_sorted(r)) by {
            assert forall|i: int| 0 <= i < r.len() - 1 implies #[trigger] r[i] <= sorted.last() by {
                assert(inner.to_multiset().contains(inner[i]));
                assert(head.to_multiset().insert(x).contains(inner[i]));
                if inner[i] == x {
                } else {
                    assert(head.to_multiset().contains(inner[i]));
                    assert(head.contains(inner[i]));
                    let j = choose|j: int| 0 <= j < head.len() && head[j] == inner[i];
                    assert(sorted[j] <= sorted.last());
                }
            }
        }
        assert(sorted =~= head.push(sorted.last()));
        assert(sorted.to_multiset() =~= head.to_multiset().insert(sorted.last()));
        assert(r.to_multiset() =~= inner.to_multiset().insert(sorted.last()));
        assert(inner.to_multiset().insert(sorted.last()) =~= head.to_multiset().insert(x).insert(
            sorted.last(),
        ));
        assert(head.to_multiset().insert(x).insert(sorted.last()) =~= head.to_multiset().insert(
            sorted.last(),
        ).insert(x));
    }
}

/// Sorting a sequence of values yields a sorted sequence with the same
/// multiset of values.
pub proof fn lemma_int_sort_props(s: Seq<i64>)
    ensures
        int_sorted(int_sort(s)),
        int_sort(s).len() == s.len(),
        int_sort(s).to_multiset() =~= s.to_multiset(),
    decreases s.len(),
{
    broadcast use vstd::seq_lib::group_to_multiset_ensures;

    if s.len() == 0 {
    } else {
        lemma_int_sort_props(s.drop_last());
        lemma_int_insert_props(int_sort(s.drop_last()), s.last());
        assert(s =~= s.drop_last().push(s.last()));
        assert(s.to_multiset() =~= s.drop_last().to_multiset().insert(s.last()));
    }
}

/// The stable insertion of a one-sample bin mirrors the insertion of its
/// value: mapping values to unit bins commutes with insertion.
pub proof fn lemma_stable_insert_of_units(sorted: Seq<i64>, x: i64)
    ensures
        stable_insert(sorted.map_values(|v: i64| unit_bin(v)), unit_bin(x)) == int_insert_sorted(
            sorted,
            x,
        ).map_values(|v: i64| unit_bin(v)),
    decreases sorted.len(),
{
    let f = |v: i64| unit_bin(v);
    let m = sorted.map_values(f);
    if sorted.len() == 0 {
        assert(stable_insert(m, unit_bin(x)) =~= seq![x].map_values(f));
    } else if sorted.last() <= x {
        assert(m.last() == unit_bin(sorted.last()));
        assert(m.push(unit_bin(x)) =~= sorted.push(x).map_values(f));
    } else {
        assert(m.last() == unit_bin(sorted.last()));
        assert(m.drop_last() =~= sorted.drop_last().map_values(f));
        lemma_stable_insert_of_units(sorted.drop_last(), x);
        assert(stable_insert(m.drop_last(), unit_bin(x)).push(m.last()) =~= int_insert_sorted(
            sorted.drop_last(),
            x,
        ).map_values(f).push(unit_bin(sorted.last())));
        assert(int_insert_sorted(sorted.drop_last(), x).map_values(f).push(
            unit_bin(sorted.last()),
        ) =~= int_insert_sorted(sorted.drop_last(), x).push(sorted.last()).map_values(f));
    }
}

/// The stable sort of one-sample bins mirrors the sort of their values:
/// mapping values to unit bins commutes with sorting.
pub proof fn lemma_stable_sort_of_units(values: Seq<i64>)
    ensures
        stable_sort(values.map_values(|v: i64| unit_bin(v))) == int_sort(values).map_values(
            |v: i64| unit_bin(v),
        ),
    decreases values.len(),
{
    let f = |v: i64| unit_bin(v);
    let m = values.map_values(f);
    if values.len() == 0 {
        assert(stable_sort(m) =~= Seq::<i64>::empty().map_values(f));
    } else {
        assert(m.drop_last() =~= values.drop_last().map_values(f));
        assert(m.last() == unit_bin(values.last()));
        lemma_stable_sort_of_units(values.drop_last());
        lemma_stable_insert_of_units(int_sort(values.drop_last()), values.last());
    }
}

/// Order insensitivity: two streams of values holding the same samples in
/// any order build the very same sketch bins through `from_values`.
pub proof fn lemma_from_values_order_insensitive(v1: Seq<i64>, v2: Seq<i64>)
    requires
        v1.to_multiset() == v2.to_multiset(),
    ensures
        int_sort(v1) == int_sort(v2),
        stable_sort(v1.map_values(|v: i64| Bin { mean: v, count: 1 })) == stable_sort(
            v2.map_values(|v: i64| Bin { mean: v, count: 1 }),
        ),
{
    let leq = |a: i64, b: i64| a <= b;
    lemma_int_sort_props(v1);
    lemma_int_sort_props(v2);
    assert(vstd::relations::total_ordering(leq)) by {
        assert(vstd::relations::reflexive(leq));
        assert(vstd::relations::antisymmetric(leq));
        assert(vstd::relations::transitive(leq));
        assert(vstd::relations::strongly_connected(leq));
    }
    assert(vstd::relations::sorted_by(int_sort(v1), leq)) by {
        assert(forall|i: int, j: int|
            0 <= i < j < int_sort(v1).len() ==> leq(int_sort(v1)[i], int_sort(v1)[j]));
    }
    assert(vstd::relations::sorted_by(int_sort(v2), leq)) by {
        assert(forall|i: int, j: int|
            0 <= i < j < int_sort(v2).len() ==> leq(int_sort(v2)[i], int_sort(v2)[j]));
    }
    vstd::seq_lib::lemma_sorted_unique(int_sort(v1), int_sort(v2), leq);
    assert(int_sort(v1) =~= int_sort(v2));
    lemma_stable_sort_of_units(v1);
    lemma_stable_sort_of_units(v2);
    assert(v1.map_values(|v: i64| Bin { mean: v, count: 1 }) =~= v1.map_values(
        |v: i64| unit_bin(v),
    ));
    assert(v2.map_values(|v: i64| Bin { mean: v, count: 1 }) =~= v2.map_values(
        |v: i64| unit_bin(v),
    ));
}

/// Merging an empty sketch into a sketch changes nothing: the bins stay as
/// they are (a sketch at rest within its size is not trimmed), and the
/// observed range is kept.
pub proof fn lemma_merge_with_empty(s: StreamHist, e: StreamHist)
    requires
        s.wf(),
        e.bins@.len() == 0,
        e.min is None,
        e.max is None,
    ensures
        stable_sort(s.bins@ + e.bins@) == s.bins@,
        s.bins@.len() <= s.size ==> spec_trim(stable_sort(s.bins@ + e.bins@), s.size as int)
            =~= s.bins@,
        opt_min(s.min, e.min) == s.min,
        opt_max(s.max, e.max) == s.max,
{
    assert(s.bins@ + e.bins@ =~= s.bins@);
    crate::codec::lemma_stable_sort_of_sorted(s.bins@);
    if s.bins@.len() <= s.size {
        if s.size == 0 {
            assert(spec_trim(s.bins@, 0) =~= Seq::<Bin>::empty());
        }
    }
}

/// Two sketches are equal when they hold the same bin means in the same
/// order (counts are ignored, as in bin equality), the same observed range,
/// and the same target size.
pub open spec fn sketch_eq(a: StreamHist, b: StreamHist) -> bool {
    &&& a.bins@.len() == b.bins@.len()
    &&& forall|i: int|
        0 <= i < a.bins@.len() ==> #[trigger] a.bins@[i].mean == #[trigger] b.bins@[i].mean
    &&& a.min == b.min
    &&& a.max == b.max
    &&& a.size == b.size
}

impl Default for StreamHist {
    /// An empty histogram with a target size of zero.
    fn default() -> (r: StreamHist)
        ensures
            r.bins@ =~= Seq::<Bin>::empty(),
            r.min is None,
            r.max is None,
            r.size == 0,
            r.wf(),
            r.total() == 0,
    {
        StreamHist { bins: Vec::new(), min: None, max: None, size: 0 }
    }
}

impl PartialEq for StreamHist {
    /// Sketches are compared by bin means, range and target size; bin counts
    /// are ignored, as in bin equality.
    fn eq(&self, other: &Self) -> (r: bool) {
        if self.size != other.size {
            return false;
        }
        let min_eq = match (self.min, other.min) {
            (None, None) => true,
            (Some(a), Some(b)) => a == b,
            _ => false,
        };
        if !min_eq {
            return false;
        }
        let max_eq = match (self.max, other.max) {
            (None, None) => true,
            (Some(a), Some(b)) => a == b,
            _ => false,
        };
        if !max_eq {
            return false;
        }
        if self.bins.len() != other.bins.len() {
            return false;
        }
        let mut i: usize = 0;
        while i < self.bins.len()
            invariant
                0 <= i <= self.bins@.len(),
                self.bins@.len() == other.bins@.len(),
                forall|j: int|
                    0 <= j < i ==> #[trigger] self.bins@[j].mean == #[trigger] other.bins@[j].mean,
            decreases self.bins@.len() - i,
        {
            if self.bins[i].mean != other.bins[i].mean {
                return false;
            }
            i = i + 1;
        }
        true
    }
}

impl vstd::std_specs::cmp::PartialEqSpecImpl for StreamHist {
    open spec fn obeys_eq_spec() -> bool {
        true
    }

    open spec fn eq_spec(&self, other: &StreamHist) -> bool {
        sketch_eq(*self, *other)
    }
}

} // verus!
