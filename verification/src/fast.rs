//! Cheaper, non-interpolating alternatives of the distribution queries.

use crate::hist::{
    lemma_total_count_nonneg, lemma_total_count_take_le, lemma_total_count_take_step,
    lemma_upper_partition_props, spec_upper_partition, total_count, StreamHist,
};
use crate::ratio::Ratio;
use crate::COUNT_LIMIT;
use vstd::prelude::*;

verus! {

/// The step-function count of samples at or below `value`: zero at or below
/// the observed minimum, everything above the observed maximum, and in
/// between the exact number of samples in bins whose mean is at most `value`.
pub open spec fn spec_fast_count(h: StreamHist, value: int) -> int {
    if h.bins@.len() == 0 {
        0
    } else if value <= h.min.unwrap() {
        0
    } else if value > h.max.unwrap() {
        total_count(h.bins@)
    } else {
        total_count(h.bins@.take(spec_upper_partition(h.bins@, value)))
    }
}

/// The largest prefix length `k` at most `upto` whose samples, scaled by the
/// probability denominator, stay at or below the target numerator.
pub open spec fn spec_fq_k(bins: Seq<crate::Bin>, pn: int, pd: int, t: int, upto: int) -> int
    decreases upto,
{
    if upto <= 0 {
        0
    } else if total_count(bins.take(upto)) * pd <= pn * t {
        upto
    } else {
        spec_fq_k(bins, pn, pd, t, upto - 1)
    }
}

/// The non-interpolated quantile: the mean of the last bin whose cumulative
/// count stays within `prob` of the total, or the observed minimum when no
/// bin does (or nothing was ever observed).
pub open spec fn spec_fast_quantile(h: StreamHist, pn: int, pd: int) -> Option<i64> {
    if h.min is None {
        None
    } else {
        let k = spec_fq_k(h.bins@, pn, pd, total_count(h.bins@), h.bins@.len() as int);
        if k == 0 {
            h.min
        } else {
            Some(h.bins@[k - 1].mean)
        }
    }
}

/// Monotonicity of the step-function count: probing at a larger value never
/// yields a smaller count, and every count lies between zero and the total.
pub proof fn lemma_fast_count_monotonic(h: StreamHist, v1: int, v2: int)
    requires
        h.wf(),
        v1 <= v2,
    ensures
        spec_fast_count(h, v1) <= spec_fast_count(h, v2),
        0 <= spec_fast_count(h, v1) <= total_count(h.bins@),
{
    lemma_total_count_nonneg(h.bins@);
    if h.bins@.len() == 0 {
    } else {
        lemma_upper_partition_props(h.bins@, v1);
        lemma_upper_partition_props(h.bins@, v2);
        let k1 = spec_upper_partition(h.bins@, v1);
        let k2 = spec_upper_partition(h.bins@, v2);
        assert(k1 <= k2) by {
            if k2 < k1 {
                assert(h.bins@[k2].mean <= v1);
                assert(h.bins@[k2].mean > v2);
            }
        }
        assert(h.bins@.take(k2).take(k1) =~= h.bins@.take(k1));
        lemma_total_count_take_le(h.bins@.take(k2), k1);
        lemma_total_count_take_le(h.bins@, k1);
        lemma_total_count_take_le(h.bins@, k2);
        lemma_total_count_nonneg(h.bins@.take(k1));
        lemma_total_count_nonneg(h.bins@.take(k2));
    }
}

/// The scan of the non-interpolated quantile never settles below a prefix
/// that still fits the target.
proof fn lemma_fq_k_ge(bins: Seq<crate::Bin>, pn: int, pd: int, t: int, k: int, upto: int)
    requires
        0 <= k <= upto,
        k > 0 ==> total_count(bins.take(k)) * pd <= pn * t,
    ensures
        k <= spec_fq_k(bins, pn, pd, t, upto),
    decreases upto,
{
    if upto > 0 && total_count(bins.take(upto)) * pd > pn * t {
        assert(k < upto);
        lemma_fq_k_ge(bins, pn, pd, t, k, upto - 1);
    }
}

/// The scan of the non-interpolated quantile never settles beyond its
/// bound.
proof fn lemma_fq_k_le(bins: Seq<crate::Bin>, pn: int, pd: int, t: int, upto: int)
    requires
        0 <= upto,
    ensures
        0 <= spec_fq_k(bins, pn, pd, t, upto) <= upto,
    decreases upto,
{
    if upto > 0 && total_count(bins.take(upto)) * pd > pn * t {
        lemma_fq_k_le(bins, pn, pd, t, upto - 1);
    }
}

/// Monotonicity of the non-interpolated quantile: a larger probability
/// never yields a smaller value.
pub proof fn lemma_fast_quantile_monotonic(h: StreamHist, pn1: int, pd1: int, pn2: int, pd2: int)
    requires
        h.wf(),
        h.min is Some,
        0 <= pn1,
        0 <= pn2,
        0 < pd1,
        0 < pd2,
        pn1 * pd2 <= pn2 * pd1,
    ensures
        spec_fast_quantile(h, pn1, pd1).unwrap() <= spec_fast_quantile(h, pn2, pd2).unwrap(),
{
    let t = total_count(h.bins@);
    let n = h.bins@.len() as int;
    lemma_total_count_nonneg(h.bins@);
    let k1 = spec_fq_k(h.bins@, pn1, pd1, t, n);
    let k2 = spec_fq_k(h.bins@, pn2, pd2, t, n);
    lemma_fq_k_le(h.bins@, pn1, pd1, t, n);
    lemma_fq_k_le(h.bins@, pn2, pd2, t, n);
    if k1 > 0 {
        let c = total_count(h.bins@.take(k1));
        lemma_total_count_nonneg(h.bins@.take(k1));
        assert(c * pd1 <= pn1 * t) by {
            if total_count(h.bins@.take(k1)) * pd1 > pn1 * t {
                lemma_fq_k_settles_holds(h.bins@, pn1, pd1, t, n);
            }
        }
        assert(c * pd2 <= pn2 * t) by (nonlinear_arith)
            requires
                c * pd1 <= pn1 * t,
                pn1 * pd2 <= pn2 * pd1,
                c >= 0,
                t >= 0,
                pd1 > 0,
                pd2 > 0,
        ;
        lemma_fq_k_ge(h.bins@, pn2, pd2, t, k1, n);
        assert(k1 <= k2);
        assert(h.bins@[k1 - 1].mean <= h.bins@[k2 - 1].mean);
    } else {
        if k2 > 0 {
            assert(h.min.unwrap() <= h.bins@[0].mean <= h.bins@[k2 - 1].mean);
        }
    }
}

/// The prefix the scan settles on fits the target.
proof fn lemma_fq_k_settles_holds(bins: Seq<crate::Bin>, pn: int, pd: int, t: int, upto: int)
    requires
        0 <= upto,
    ensures
        spec_fq_k(bins, pn, pd, t, upto) > 0 ==> total_count(
            bins.take(spec_fq_k(bins, pn, pd, t, upto)),
        ) * pd <= pn * t,
    decreases upto,
{
    if upto > 0 && total_count(bins.take(upto)) * pd > pn * t {
        lemma_fq_k_settles_holds(bins, pn, pd, t, upto - 1);
    }
}

/// A scan that already failed at every prefix beyond `k` settles on `k`.
proof fn lemma_fq_k_settles(bins: Seq<crate::Bin>, pn: int, pd: int, t: int, k: int, upto: int)
    requires
        0 <= k <= upto,
        k > 0 ==> total_count(bins.take(k)) * pd <= pn * t,
        forall|j: int| k < j <= upto ==> total_count(bins.take(j)) * pd > pn * t,
    ensures
        spec_fq_k(bins, pn, pd, t, upto) == k,
    decreases upto,
{
    if upto > k {
        lemma_fq_k_settles(bins, pn, pd, t, k, upto - 1);
    }
}

impl StreamHist {
    /// The number of samples at or below `value`, without interpolation: the
    /// exact sum of the counts of the bins whose mean is at most `value`,
    /// clamped to zero at or below the observed minimum and to the full
    /// count above the observed maximum.
    pub fn fast_count_by(&self, value: i64) -> (r: u64)
        requires
            self.wf(),
        ensures
            r == spec_fast_count(*self, value as int),
            0 <= r <= self.total(),
    {
        proof {
            lemma_total_count_nonneg(self.bins@);
        }
        if self.is_empty() {
            return 0;
        }
        let lo = match self.min {
            Some(m) => m,
            None => 0,
        };
        let hi = match self.max {
            Some(m) => m,
            None => 0,
        };
        if value <= lo {
            return 0;
        }
        if value > hi {
            return self.count();
        }
        let up = crate::hist::upper_partition(&self.bins, value);
        let mut acc: u64 = 0;
        let mut i: usize = 0;
        proof {
            assert(self.bins@.take(0) =~= Seq::<crate::Bin>::empty());
            lemma_upper_partition_props(self.bins@, value as int);
        }
        while i < up
            invariant
                0 <= i <= up <= self.bins@.len(),
                self.wf(),
                acc == total_count(self.bins@.take(i as int)),
                acc <= COUNT_LIMIT,
            decreases up - i,
        {
            proof {
                lemma_total_count_take_step(self.bins@, i as int);
                lemma_total_count_take_le(self.bins@, i + 1);
            }
            acc = acc + self.bins[i].count;
            i = i + 1;
        }
        proof {
            lemma_total_count_take_le(self.bins@, up as int);
        }
        acc
    }

    /// The non-interpolated empirical cumulative distribution at `value`:
    /// the fast count divided by the total count. `None` when the histogram
    /// holds no data, since no distribution is defined then.
    pub fn fast_cdf(&self, value: i64) -> (r: Option<Ratio>)
        requires
            self.wf(),
        ensures
            r is None <==> self.bins@.len() == 0,
            self.bins@.len() > 0 ==> r is Some && r.unwrap().num == spec_fast_count(
                *self,
                value as int,
            ) && r.unwrap().den == self.total() && r.unwrap().wf(),
    {
        proof {
            lemma_total_count_nonneg(self.bins@);
            if self.bins@.len() > 0 {
                crate::hist::lemma_single_le_total(self.bins@, 0);
            }
        }
        if self.is_empty() {
            return None;
        }
        let num = self.fast_count_by(value);
        let den = self.count();
        Some(Ratio { num: num as i128, den: den as i128 })
    }

    /// The non-interpolated quantile for the probability `prob`: scan the
    /// bins left to right and return the mean of the last bin whose
    /// cumulative count does not exceed `prob` of the total, or the observed
    /// minimum when no bin qualifies. `None` when nothing was ever observed.
    pub fn fast_quantile(&self, prob: Ratio) -> (r: Option<i64>)
        requires
            self.wf(),
            0 <= prob.num <= prob.den,
            0 < prob.den <= COUNT_LIMIT,
        ensures
            r == spec_fast_quantile(*self, prob.num as int, prob.den as int),
            r is None <==> self.min is None,
            self.min is Some ==> r is Some && self.min.unwrap() <= r.unwrap()
                <= self.max.unwrap(),
    {
        proof {
            lemma_total_count_nonneg(self.bins@);
        }
        let lo = match self.min {
            Some(m) => m,
            None => { return None },
        };
        let total = self.count();
        let ghost t = self.total();
        let ghost pn = prob.num as int;
        let ghost pd = prob.den as int;
        proof {
            lemma_total_count_nonneg(self.bins@);
            assert(0 <= pn * t <= COUNT_LIMIT * COUNT_LIMIT) by (nonlinear_arith)
                requires
                    0 <= pn <= COUNT_LIMIT,
                    0 <= t <= COUNT_LIMIT,
            ;
        }
        let target: i128 = prob.num * (total as i128);
        let mut acc: u64 = 0;
        let mut k: usize = 0;
        proof {
            assert(self.bins@.take(0) =~= Seq::<crate::Bin>::empty());
        }
        let n = self.bins.len();
        let mut j: usize = 0;
        while j < n
            invariant
                0 <= k <= j <= n,
                n == self.bins@.len(),
                self.wf(),
                t == total_count(self.bins@),
                total == t,
                pn == prob.num,
                pd == prob.den,
                0 <= pn <= pd,
                0 < pd <= COUNT_LIMIT,
                target == pn * t,
                acc == total_count(self.bins@.take(j as int)),
                acc <= COUNT_LIMIT,
                k > 0 ==> total_count(self.bins@.take(k as int)) * pd <= pn * t,
                forall|i: int| k < i <= j ==> total_count(self.bins@.take(i)) * pd > pn * t,
            decreases n - j,
        {
            proof {
                lemma_total_count_take_step(self.bins@, j as int);
                lemma_total_count_take_le(self.bins@, j + 1);
            }
            acc = acc + self.bins[j].count;
            j = j + 1;
            proof {
                assert(0 <= acc * pd <= COUNT_LIMIT * COUNT_LIMIT) by (nonlinear_arith)
                    requires
                        0 <= acc <= COUNT_LIMIT,
                        0 < pd <= COUNT_LIMIT,
                ;
            }
            let scaled: i128 = (acc as i128) * prob.den;
            if scaled <= target {
                k = j;
                proof {
                    assert(forall|i: int|
                        k < i <= j ==> total_count(self.bins@.take(i)) * pd > pn * t);
                }
            }
        }
        proof {
            lemma_fq_k_settles(self.bins@, pn, pd, t, k as int, n as int);
        }
        if k == 0 {
            Some(lo)
        } else {
            Some(self.bins[k - 1].mean)
        }
    }
}

} // verus!
