//! Statistical queries over a sketch: mean, variance, standard deviation,
//! interpolated cumulative counts, distribution and quantiles.

use crate::bins::Bin;
use crate::hist::{bins_ok, total_count, StreamHist};
use crate::math::{isqrt, lemma_cauchy_schwarz_step, lemma_isqrt_monotone, lemma_isqrt_square, spec_isqrt};
use crate::ratio::Ratio;
use crate::{COUNT_LIMIT, VALUE_LIMIT};
use vstd::arithmetic::div_mod::{lemma_div_is_ordered, lemma_div_multiples_vanish, lemma_div_pos_is_pos};
use vstd::prelude::*;

verus! {

/// The sum of bin means weighted by their counts.
pub open spec fn weighted_sum(bins: Seq<Bin>) -> int
    decreases bins.len(),
{
    if bins.len() == 0 {
        0
    } else {
        weighted_sum(bins.drop_last()) + bins.last().mean * bins.last().count
    }
}

/// The sum of squared bin means weighted by their counts.
pub open spec fn sq_weighted_sum(bins: Seq<Bin>) -> int
    decreases bins.len(),
{
    if bins.len() == 0 {
        0
    } else {
        sq_weighted_sum(bins.drop_last()) + bins.last().count * bins.last().mean
            * bins.last().mean
    }
}

/// Bounds of the weighted sums of bins on the value grid: both grow at most
/// with the total count times the (squared) value bound.
pub proof fn lemma_sums_bounds(bins: Seq<Bin>)
    requires
        bins_ok(bins),
    ensures
        -(total_count(bins) * VALUE_LIMIT) <= weighted_sum(bins) <= total_count(bins)
            * VALUE_LIMIT,
        0 <= sq_weighted_sum(bins) <= total_count(bins) * (VALUE_LIMIT * VALUE_LIMIT),
    decreases bins.len(),
{
    if bins.len() == 0 {
    } else {
        let head = bins.drop_last();
        let b = bins.last();
        assert(bins_ok(head)) by {
            assert(forall|i: int| 0 <= i < head.len() ==> head[i] == bins[i]);
        }
        lemma_sums_bounds(head);
        let th = total_count(head);
        crate::hist::lemma_total_count_nonneg(head);
        assert(b.in_range() && b.count >= 1);
        assert(-(b.count * VALUE_LIMIT) <= b.mean * b.count <= b.count * VALUE_LIMIT
            && 0 <= b.count * b.mean * b.mean <= b.count * (VALUE_LIMIT * VALUE_LIMIT)
            && -((th + b.count) * VALUE_LIMIT) <= weighted_sum(head) + b.mean * b.count <= (th
            + b.count) * VALUE_LIMIT
            && sq_weighted_sum(head) + b.count * b.mean * b.mean <= (th + b.count) * (VALUE_LIMIT
            * VALUE_LIMIT)) by (nonlinear_arith)
            requires
                b.count >= 1,
                -VALUE_LIMIT <= b.mean <= VALUE_LIMIT,
                th >= 0,
                -(th * VALUE_LIMIT) <= weighted_sum(head) <= th * VALUE_LIMIT,
                0 <= sq_weighted_sum(head) <= th * (VALUE_LIMIT * VALUE_LIMIT),
        ;
    }
}

/// The weighted Cauchy-Schwarz inequality over a sequence of bins: the
/// square of the weighted sum of means never exceeds the total count times
/// the weighted sum of squares. The variance of a sketch is therefore never
/// negative.
pub proof fn lemma_cauchy_schwarz(bins: Seq<Bin>)
    ensures
        weighted_sum(bins) * weighted_sum(bins) <= total_count(bins) * sq_weighted_sum(bins),
        total_count(bins) == 0 ==> weighted_sum(bins) == 0 && sq_weighted_sum(bins) == 0,
    decreases bins.len(),
{
    if bins.len() == 0 {
    } else {
        let head = bins.drop_last();
        let b = bins.last();
        lemma_cauchy_schwarz(head);
        crate::hist::lemma_total_count_nonneg(head);
        let s0 = total_count(head);
        let s1 = weighted_sum(head);
        let s2 = sq_weighted_sum(head);
        if s0 == 0 {
            assert(forall|i: int| 0 <= i < head.len() ==> head[i].count >= 0);
        }
        lemma_cauchy_schwarz_step(s0, s1, s2, b.count as int, b.mean as int);
        assert(b.count * b.mean * b.mean == b.count * (b.mean * b.mean)) by (nonlinear_arith);
        assert(b.mean * b.count == b.count * b.mean) by (nonlinear_arith);
        if total_count(bins) == 0 {
            assert(b.count == 0);
            assert(b.count * b.mean == 0) by (nonlinear_arith)
                requires
                    b.count == 0,
            ;
            assert(b.count * b.mean * b.mean == 0) by (nonlinear_arith)
                requires
                    b.count == 0,
            ;
        }
    }
}

/// The step from a prefix of bins to the next longer one, for both weighted
/// sums.
pub proof fn lemma_sums_take_step(bins: Seq<Bin>, i: int)
    requires
        0 <= i < bins.len(),
    ensures
        weighted_sum(bins.take(i + 1)) == weighted_sum(bins.take(i)) + bins[i].mean
            * bins[i].count,
        sq_weighted_sum(bins.take(i + 1)) == sq_weighted_sum(bins.take(i)) + bins[i].count
            * bins[i].mean * bins[i].mean,
{
    assert(bins.take(i + 1).drop_last() =~= bins.take(i));
    assert(bins.take(i + 1).last() == bins[i]);
}

/// The left neighbor of the gap at `idx`: the bin just before it, or a
/// synthetic zero-count bin pinned at the observed minimum before the first
/// bin.
pub open spec fn nb_left(h: StreamHist, idx: int) -> Bin {
    if idx == 0 {
        Bin { mean: h.min.unwrap(), count: 0 }
    } else if idx >= h.bins@.len() {
        h.bins@[h.bins@.len() - 1]
    } else {
        h.bins@[idx - 1]
    }
}

/// The right neighbor of the gap at `idx`: the bin at it, or a synthetic
/// zero-count bin pinned at the observed maximum past the last bin.
pub open spec fn nb_right(h: StreamHist, idx: int) -> Bin {
    if idx == 0 {
        h.bins@[0]
    } else if idx >= h.bins@.len() {
        Bin { mean: h.max.unwrap(), count: 0 }
    } else {
        h.bins@[idx]
    }
}

/// The interpolated count of samples at or below `value`, as an exact
/// rational, following the triangular-density model: the counts of the bins
/// well below `value`, half the left neighbor's count, and the integral of
/// the density interpolated linearly between the two neighbors bracketing
/// `value`.
pub open spec fn spec_count_by(h: StreamHist, value: int) -> Ratio {
    if h.bins@.len() == 0 {
        Ratio { num: 0, den: 1 }
    } else if value <= h.min.unwrap() {
        Ratio { num: 0, den: 1 }
    } else if value > h.max.unwrap() {
        Ratio { num: total_count(h.bins@) as i128, den: 1 }
    } else {
        let idx = crate::hist::spec_partition_point(h.bins@, value);
        let sum = total_count(
            h.bins@.take(
                if idx >= 1 {
                    idx - 1
                } else {
                    0
                },
            ),
        );
        let pi = nb_left(h, idx).mean as int;
        let mi = nb_left(h, idx).count as int;
        let pj = nb_right(h, idx).mean as int;
        let mj = nb_right(h, idx).count as int;
        let dd = pj - pi;
        if dd <= 0 {
            Ratio { num: (2 * sum + mi) as i128, den: 2 }
        } else {
            let w = value - pi;
            Ratio {
                num: (2 * (dd * dd) * sum + mi * (dd * dd) + w * (2 * mi * dd + (mj - mi) * w)) as i128,
                den: (2 * (dd * dd)) as i128,
            }
        }
    }
}

/// The scan of the quantile procedure, over half-counts: starting at bin
/// `j` with a running sum `sum2` and the previous bin's half-weight `prev2`
/// (both doubled, so they stay integers), advance while the running sum plus
/// the current two half-weights stays within the doubled target `pn2t / pd`,
/// and return the stopping index and the doubled sum there.
pub open spec fn spec_fcc(
    bins: Seq<Bin>,
    pn2t: int,
    pd: int,
    j: int,
    sum2: int,
    prev2: int,
) -> (int, int)
    decreases bins.len() - j,
{
    if j < 0 || j >= bins.len() {
        (j, sum2)
    } else {
        let this2 = bins[j].count as int;
        if (sum2 + this2 + prev2) * pd > pn2t {
            (j, sum2)
        } else {
            spec_fcc(bins, pn2t, pd, j + 1, sum2 + prev2 + this2, this2)
        }
    }
}

/// What the quantile scan returns: an index no smaller than where it
/// started, a doubled sum within the target that counts every bin before the
/// index twice except the one just before it, and, when it stopped early,
/// the two half-weights at the stop overshooting the target.
pub proof fn lemma_fcc_props(bins: Seq<Bin>, pn2t: int, pd: int, j: int, sum2: int, prev2: int)
    requires
        0 <= j <= bins.len(),
        pd > 0,
        prev2 == if j == 0 {
            0int
        } else {
            bins[j - 1].count as int
        },
        sum2 == 2 * total_count(bins.take(j)) - prev2,
        sum2 * pd <= pn2t,
    ensures
        ({
            let (idx, s2) = spec_fcc(bins, pn2t, pd, j, sum2, prev2);
            &&& j <= idx <= bins.len()
            &&& s2 * pd <= pn2t
            &&& s2 == 2 * total_count(bins.take(idx)) - (if idx == 0 {
                0int
            } else {
                bins[idx - 1].count as int
            })
            &&& (idx < bins.len() ==> (s2 + bins[idx].count + (if idx == 0 {
                0int
            } else {
                bins[idx - 1].count as int
            })) * pd > pn2t)
        }),
    decreases bins.len() - j,
{
    if j < bins.len() {
        let this2 = bins[j].count as int;
        if (sum2 + this2 + prev2) * pd > pn2t {
        } else {
            crate::hist::lemma_total_count_take_step(bins, j);
            lemma_fcc_props(bins, pn2t, pd, j + 1, sum2 + prev2 + this2, this2);
        }
    }
}

/// A scan with a higher target never stops earlier, and two scans stopping
/// at the same bin have walked the same path and carry the same sum.
pub proof fn lemma_fcc_monotone(
    bins: Seq<Bin>,
    ta: int,
    tb: int,
    pd: int,
    j: int,
    sum2: int,
    prev2: int,
)
    requires
        ta <= tb,
    ensures
        spec_fcc(bins, ta, pd, j, sum2, prev2).0 <= spec_fcc(bins, tb, pd, j, sum2, prev2).0,
        spec_fcc(bins, ta, pd, j, sum2, prev2).0 == spec_fcc(bins, tb, pd, j, sum2, prev2).0
            ==> spec_fcc(bins, ta, pd, j, sum2, prev2).1 == spec_fcc(
            bins,
            tb,
            pd,
            j,
            sum2,
            prev2,
        ).1,
    decreases bins.len() - j,
{
    if j < 0 || j >= bins.len() {
    } else {
        let this2 = bins[j].count as int;
        if (sum2 + this2 + prev2) * pd > tb {
        } else if (sum2 + this2 + prev2) * pd > ta {
            lemma_fcc_ge(bins, tb, pd, j + 1, sum2 + prev2 + this2, this2);
        } else {
            lemma_fcc_monotone(bins, ta, tb, pd, j + 1, sum2 + prev2 + this2, this2);
        }
    }
}

/// A scan never stops before the bin it starts at.
pub proof fn lemma_fcc_ge(bins: Seq<Bin>, t: int, pd: int, j: int, sum2: int, prev2: int)
    ensures
        spec_fcc(bins, t, pd, j, sum2, prev2).0 >= j,
    decreases bins.len() - j,
{
    if j < 0 || j >= bins.len() {
    } else {
        let this2 = bins[j].count as int;
        if (sum2 + this2 + prev2) * pd > t {
        } else {
            lemma_fcc_ge(bins, t, pd, j + 1, sum2 + prev2 + this2, this2);
        }
    }
}

/// The interpolated quantile strictly between the probabilities zero and
/// one stays inside its bracket: at least the left neighbor's mean and at
/// most the right neighbor's, each scaled by the positive denominator; and
/// the bracket itself sits inside the observed range.
#[verifier::rlimit(100)]
#[verifier::spinoff_prover]
proof fn lemma_quantile_shape(h: StreamHist, pn: int, pd: int)
    requires
        h.wf(),
        h.bins@.len() > 0,
        0 < pn < pd,
        pd <= COUNT_LIMIT,
    ensures
        ({
            let t = total_count(h.bins@);
            let idx = spec_fcc(h.bins@, 2 * pn * t, pd, 0, 0, 0).0;
            let s2 = spec_fcc(h.bins@, 2 * pn * t, pd, 0, 0, 0).1;
            let pi = nb_left(h, idx).mean as int;
            let mi = nb_left(h, idx).count as int;
            let pj = nb_right(h, idx).mean as int;
            let mj = nb_right(h, idx).count as int;
            let dn = 2 * pn * t - s2 * pd;
            let dd2 = 2 * pd;
            let r = spec_quantile(h, pn, pd);
            &&& 0 <= idx <= h.bins@.len()
            &&& h.min.unwrap() <= pi <= pj <= h.max.unwrap()
            &&& r.den > 0
            &&& pi * r.den <= r.num
            &&& r.num <= pj * r.den
            &&& (mj == mi ==> r.num == pi * (dd2 * mi) + (pj - pi) * dn && r.den == dd2 * mi)
            &&& (mj != mi ==> {
                let a = mj - mi;
                let b = 2 * mi;
                let ee = (b * b * dd2 + 8 * a * dn) * dd2;
                let s = spec_isqrt(ee);
                &&& ee >= 0
                &&& (a > 0 ==> r.num == pi * (2 * a * dd2) + (pj - pi) * (s - b * dd2) && r.den
                    == 2 * a * dd2)
                &&& (a < 0 ==> r.num == -(pi * (2 * a * dd2) + (pj - pi) * (s - b * dd2))
                    && r.den == -(2 * a * dd2))
            })
        }),
{
    let bins = h.bins@;
    let t = total_count(bins);
    crate::hist::lemma_total_count_nonneg(bins);
    crate::hist::lemma_single_le_total(bins, 0);
    assert(0 < 2 * pn * t <= 2 * (COUNT_LIMIT * COUNT_LIMIT) && 2 * pn * t < 2 * pd * t)
        by (nonlinear_arith)
        requires
            0 < pn < pd <= COUNT_LIMIT,
            1 <= t <= COUNT_LIMIT,
    ;
    let pn2t = 2 * pn * t;
    assert(bins.take(0) =~= Seq::<Bin>::empty());
    lemma_fcc_props(bins, pn2t, pd, 0, 0, 0);
    let scan = spec_fcc(bins, pn2t, pd, 0, 0, 0);
    let idx = scan.0;
    let s2i = scan.1;
    let pii = nb_left(h, idx).mean as int;
    let mii = nb_left(h, idx).count as int;
    let pji = nb_right(h, idx).mean as int;
    let mji = nb_right(h, idx).count as int;
    let dni = pn2t - s2i * pd;
    let dd2i = 2 * pd;
    let r = spec_quantile(h, pn, pd);
    assert(dni >= 0);
    assert(s2i >= 0) by {
        if idx >= 1 {
            crate::hist::lemma_single_le_total(bins.take(idx), idx - 1);
            crate::hist::lemma_total_count_nonneg(bins.take(idx));
            assert(bins.take(idx)[idx - 1] == bins[idx - 1]);
        }
    }
    assert(0 <= s2i * pd) by (nonlinear_arith)
        requires
            s2i >= 0,
            pd > 0,
    ;
    if idx < bins.len() {
        assert((s2i + mji + mii) * pd > pn2t);
        assert(dni < (mii + mji) * pd) by (nonlinear_arith)
            requires
                (s2i + mji + mii) * pd > pn2t,
                dni == pn2t - s2i * pd,
        ;
    } else {
        assert(bins.take(bins.len() as int) =~= bins);
        assert(s2i == 2 * t - mii);
        assert(dni < (mii + mji) * pd) by (nonlinear_arith)
            requires
                s2i == 2 * t - mii,
                mji == 0,
                dni == pn2t - s2i * pd,
                pn2t < 2 * pd * t,
                pd > 0,
        ;
    }
    assert(h.min.unwrap() <= pii && pji <= h.max.unwrap() && pii <= pji && mii <= COUNT_LIMIT
        && mji <= COUNT_LIMIT && s2i <= 2 * COUNT_LIMIT) by {
        crate::hist::lemma_total_count_take_le(bins, idx);
        crate::hist::lemma_total_count_nonneg(bins.skip(idx));
        if idx > 0 {
            assert(bins[0].mean <= bins[idx - 1].mean);
        }
        if idx < bins.len() {
            assert(bins[idx].mean <= bins[bins.len() - 1].mean);
            crate::hist::lemma_single_le_total(bins, idx);
        }
        if idx > 0 && idx < bins.len() {
            assert(bins[idx - 1].mean <= bins[idx].mean);
        }
        if idx > 0 {
            crate::hist::lemma_single_le_total(bins, idx - 1);
        }
    }
    if mji == mii {
        if idx == 0 {
            assert(mji >= 1);
        } else if idx >= bins.len() {
            assert(mii >= 1);
        }
        assert(0 < dd2i * mii <= 2 * (COUNT_LIMIT * COUNT_LIMIT) && dni < dd2i * mii)
            by (nonlinear_arith)
            requires
                1 <= mii <= COUNT_LIMIT,
                0 < pd <= COUNT_LIMIT,
                dd2i == 2 * pd,
                0 <= dni,
                dni < (mii + mii) * pd,
        ;
        assert(pii * (dd2i * mii) <= pii * (dd2i * mii) + (pji - pii) * dni && pii * (dd2i * mii)
            + (pji - pii) * dni <= pji * (dd2i * mii) && 0 <= (pji - pii) * dni && pii * (dd2i
            * mii) + (pji - pii) * dni <= 8 * ((COUNT_LIMIT * COUNT_LIMIT) * VALUE_LIMIT) && pii
            * (dd2i * mii) + (pji - pii) * dni >= -(2 * ((COUNT_LIMIT * COUNT_LIMIT)
            * VALUE_LIMIT))) by (nonlinear_arith)
            requires
                -VALUE_LIMIT <= pii <= pji <= VALUE_LIMIT,
                0 < dd2i * mii <= 2 * (COUNT_LIMIT * COUNT_LIMIT),
                0 <= dni < dd2i * mii,
                dni <= 2 * (COUNT_LIMIT * COUNT_LIMIT),
        ;
        assert(r.num == pii * (dd2i * mii) + (pji - pii) * dni && r.den == dd2i * mii);
    } else {
        let ai = mji - mii;
        let bi = 2 * mii;
        assert(0 <= bi * bi <= (2 * COUNT_LIMIT) * (2 * COUNT_LIMIT) && -(8 * COUNT_LIMIT) <= 8
            * ai <= 8 * COUNT_LIMIT) by (nonlinear_arith)
            requires
                0 <= bi <= 2 * COUNT_LIMIT,
                -COUNT_LIMIT <= ai <= COUNT_LIMIT,
        ;
        assert(0 <= bi * bi * dd2i <= ((2 * COUNT_LIMIT) * (2 * COUNT_LIMIT)) * (2 * COUNT_LIMIT)
            && -(8 * (COUNT_LIMIT * (2 * (COUNT_LIMIT * COUNT_LIMIT)))) <= 8 * ai * dni <= 8 * (
        COUNT_LIMIT * (2 * (COUNT_LIMIT * COUNT_LIMIT)))) by (nonlinear_arith)
            requires
                0 <= bi <= 2 * COUNT_LIMIT,
                0 < dd2i <= 2 * COUNT_LIMIT,
                -COUNT_LIMIT <= ai <= COUNT_LIMIT,
                0 <= dni <= 2 * (COUNT_LIMIT * COUNT_LIMIT),
        ;
        assert(-(96 * ((COUNT_LIMIT * COUNT_LIMIT) * (COUNT_LIMIT * COUNT_LIMIT))) <= (bi * bi
            * dd2i + 8 * ai * dni) * dd2i <= 96 * ((COUNT_LIMIT * COUNT_LIMIT) * (COUNT_LIMIT
            * COUNT_LIMIT))) by (nonlinear_arith)
            requires
                -(16 * ((COUNT_LIMIT * COUNT_LIMIT) * COUNT_LIMIT)) <= bi * bi * dd2i + 8 * ai
                    * dni <= 16 * ((COUNT_LIMIT * COUNT_LIMIT) * COUNT_LIMIT) + 8 * (COUNT_LIMIT
                    * (2 * (COUNT_LIMIT * COUNT_LIMIT))),
                0 < dd2i <= 2 * COUNT_LIMIT,
        ;
        assert(0 <= bi * dd2i <= (2 * COUNT_LIMIT) * (2 * COUNT_LIMIT)) by (nonlinear_arith)
            requires
                0 <= bi <= 2 * COUNT_LIMIT,
                0 < dd2i <= 2 * COUNT_LIMIT,
        ;
        if ai < 0 {
            assert((bi * bi * dd2i + 8 * ai * dni) * dd2i >= ((2 * ai + bi) * dd2i) * ((2 * ai
                + bi) * dd2i)) by (nonlinear_arith)
                requires
                    ai < 0,
                    0 < dd2i,
                    0 <= dni,
                    dni < (mii + mji) * pd,
                    bi == 2 * mii,
                    ai == mji - mii,
                    dd2i == 2 * pd,
            ;
            assert(((2 * ai + bi) * dd2i) * ((2 * ai + bi) * dd2i) >= 0) by (nonlinear_arith);
        } else {
            assert((bi * bi * dd2i + 8 * ai * dni) * dd2i >= (bi * dd2i) * (bi * dd2i))
                by (nonlinear_arith)
                requires
                    ai > 0,
                    0 < dd2i,
                    0 <= dni,
                    0 <= bi,
            ;
            assert((bi * dd2i) * (bi * dd2i) >= 0) by (nonlinear_arith);
        }
        let eei = (bi * bi * dd2i + 8 * ai * dni) * dd2i;
        assert(eei >= 0);
        crate::math::lemma_isqrt_props(eei);
        let si = spec_isqrt(eei);
        assert(si <= 10 * ((COUNT_LIMIT as int) * COUNT_LIMIT)) by (nonlinear_arith)
            requires
                si >= 0,
                si * si <= eei,
                eei <= 96 * ((COUNT_LIMIT * COUNT_LIMIT) * (COUNT_LIMIT * COUNT_LIMIT)),
        ;
        assert(-(4 * (COUNT_LIMIT * COUNT_LIMIT)) <= 2 * ai * dd2i <= 4 * (COUNT_LIMIT
            * COUNT_LIMIT)) by (nonlinear_arith)
            requires
                -COUNT_LIMIT <= ai <= COUNT_LIMIT,
                0 < dd2i <= 2 * COUNT_LIMIT,
        ;
        let zni = si - bi * dd2i;
        let zdi = 2 * ai * dd2i;
        if ai > 0 {
            assert((bi * dd2i) * (bi * dd2i) <= eei) by (nonlinear_arith)
                requires
                    eei == (bi * bi * dd2i + 8 * ai * dni) * dd2i,
                    ai > 0,
                    0 < dd2i,
                    0 <= dni,
                    0 <= bi,
            ;
            crate::math::lemma_isqrt_monotone((bi * dd2i) * (bi * dd2i), eei);
            crate::math::lemma_isqrt_square(bi * dd2i);
            assert(si >= bi * dd2i);
            assert(eei < ((2 * ai + bi) * dd2i) * ((2 * ai + bi) * dd2i)) by (nonlinear_arith)
                requires
                    eei == (bi * bi * dd2i + 8 * ai * dni) * dd2i,
                    ai > 0,
                    0 < dd2i,
                    dni < (mii + mji) * pd,
                    bi == 2 * mii,
                    ai == mji - mii,
                    dd2i == 2 * pd,
            ;
            assert(si < (2 * ai + bi) * dd2i) by (nonlinear_arith)
                requires
                    si >= 0,
                    si * si <= eei,
                    eei < ((2 * ai + bi) * dd2i) * ((2 * ai + bi) * dd2i),
                    (2 * ai + bi) * dd2i >= 0,
            ;
            assert(si - bi * dd2i < 2 * ai * dd2i) by (nonlinear_arith)
                requires
                    si < (2 * ai + bi) * dd2i,
            ;
            assert(0 <= zni < zdi);
            assert(zdi > 0) by (nonlinear_arith)
                requires
                    ai > 0,
                    dd2i > 0,
                    zdi == 2 * ai * dd2i,
            ;
            assert(pii * zdi <= pii * zdi + (pji - pii) * zni && pii * zdi + (pji - pii) * zni
                <= pji * zdi) by (nonlinear_arith)
                requires
                    pii <= pji,
                    0 <= zni < zdi,
            ;
            assert(-(4 * ((COUNT_LIMIT * COUNT_LIMIT) * VALUE_LIMIT)) <= pii * zdi <= 4 * ((
            COUNT_LIMIT * COUNT_LIMIT) * VALUE_LIMIT) && -(30 * ((COUNT_LIMIT * COUNT_LIMIT)
                * VALUE_LIMIT)) <= (pji - pii) * zni <= 30 * ((COUNT_LIMIT * COUNT_LIMIT)
                * VALUE_LIMIT)) by (nonlinear_arith)
                requires
                    -VALUE_LIMIT <= pii <= pji <= VALUE_LIMIT,
                    -(4 * (COUNT_LIMIT * COUNT_LIMIT)) <= zdi <= 4 * (COUNT_LIMIT * COUNT_LIMIT),
                    -(4 * (COUNT_LIMIT * COUNT_LIMIT)) <= zni <= 10 * ((COUNT_LIMIT as int)
                        * COUNT_LIMIT),
            ;
            assert(r.num == pii * zdi + (pji - pii) * zni && r.den == zdi);
        } else {
            assert(ai < 0);
            assert(eei <= (bi * dd2i) * (bi * dd2i)) by (nonlinear_arith)
                requires
                    eei == (bi * bi * dd2i + 8 * ai * dni) * dd2i,
                    ai < 0,
                    0 < dd2i,
                    0 <= dni,
            ;
            crate::math::lemma_isqrt_monotone(eei, (bi * dd2i) * (bi * dd2i));
            crate::math::lemma_isqrt_square(bi * dd2i);
            assert(si <= bi * dd2i);
            assert(zni <= 0);
            if 2 * ai + bi >= 0 {
                assert(eei >= ((2 * ai + bi) * dd2i) * ((2 * ai + bi) * dd2i))
                    by (nonlinear_arith)
                    requires
                        eei == (bi * bi * dd2i + 8 * ai * dni) * dd2i,
                        ai < 0,
                        0 < dd2i,
                        dni < (mii + mji) * pd,
                        bi == 2 * mii,
                        ai == mji - mii,
                        dd2i == 2 * pd,
                ;
                crate::math::lemma_isqrt_monotone(
                    ((2 * ai + bi) * dd2i) * ((2 * ai + bi) * dd2i),
                    eei,
                );
                crate::math::lemma_isqrt_square((2 * ai + bi) * dd2i);
                assert(si >= (2 * ai + bi) * dd2i);
            } else {
                assert((2 * ai + bi) * dd2i < 0) by (nonlinear_arith)
                    requires
                        2 * ai + bi < 0,
                        dd2i > 0,
                ;
                assert(si >= (2 * ai + bi) * dd2i);
            }
            assert(si - bi * dd2i >= 2 * ai * dd2i) by (nonlinear_arith)
                requires
                    si >= (2 * ai + bi) * dd2i,
            ;
            assert(zni >= zdi);
            assert(2 * ai * dd2i < 0) by (nonlinear_arith)
                requires
                    ai < 0,
                    dd2i > 0,
            ;
            assert(zdi < 0);
            assert(0 <= -zni <= -zdi);
            assert(pii * (-zdi) <= pii * (-zdi) + (pji - pii) * (-zni) && pii * (-zdi) + (pji
                - pii) * (-zni) <= pji * (-zdi)) by (nonlinear_arith)
                requires
                    pii <= pji,
                    0 <= -zni <= -zdi,
            ;
            assert(-(pii * zdi + (pji - pii) * zni) == pii * (-zdi) + (pji - pii) * (-zni))
                by (nonlinear_arith);
            assert(-(4 * ((COUNT_LIMIT * COUNT_LIMIT) * VALUE_LIMIT)) <= pii * zdi <= 4 * ((
            COUNT_LIMIT * COUNT_LIMIT) * VALUE_LIMIT) && -(30 * ((COUNT_LIMIT * COUNT_LIMIT)
                * VALUE_LIMIT)) <= (pji - pii) * zni <= 30 * ((COUNT_LIMIT * COUNT_LIMIT)
                * VALUE_LIMIT)) by (nonlinear_arith)
                requires
                    -VALUE_LIMIT <= pii <= pji <= VALUE_LIMIT,
                    -(4 * (COUNT_LIMIT * COUNT_LIMIT)) <= zdi <= 4 * (COUNT_LIMIT * COUNT_LIMIT),
                    -(4 * (COUNT_LIMIT * COUNT_LIMIT)) <= zni <= 10 * ((COUNT_LIMIT as int)
                        * COUNT_LIMIT),
            ;
            assert(r.num == -(pii * zdi + (pji - pii) * zni) && r.den == -zdi);
        }
    }
}

/// Monotonicity of the interpolated quantile within one bracket: with the
/// scan stopping at the same bin and carrying the same sum, a larger target
/// leaves a larger leftover and the interpolation grows with it.
#[verifier::rlimit(100)]
#[verifier::spinoff_prover]
proof fn lemma_quantile_same_bracket(h: StreamHist, pn1: int, pn2: int, pd: int)
    requires
        h.wf(),
        h.bins@.len() > 0,
        0 < pn1 <= pn2 < pd,
        pd <= COUNT_LIMIT,
        spec_fcc(h.bins@, 2 * pn1 * total_count(h.bins@), pd, 0, 0, 0) == spec_fcc(
            h.bins@,
            2 * pn2 * total_count(h.bins@),
            pd,
            0,
            0,
            0,
        ),
    ensures
        spec_quantile(h, pn1, pd).spec_le(spec_quantile(h, pn2, pd)),
{
    let bins = h.bins@;
    let t = total_count(bins);
    lemma_quantile_shape(h, pn1, pd);
    lemma_quantile_shape(h, pn2, pd);
    crate::hist::lemma_total_count_nonneg(bins);
    assert(bins.take(0) =~= Seq::<Bin>::empty());
    assert(0 * pd <= 2 * pn1 * t && 0 * pd <= 2 * pn2 * t) by (nonlinear_arith)
        requires
            0 < pn1 <= pn2,
            t >= 0,
    ;
    lemma_fcc_props(bins, 2 * pn1 * t, pd, 0, 0, 0);
    lemma_fcc_props(bins, 2 * pn2 * t, pd, 0, 0, 0);
    let scan = spec_fcc(bins, 2 * pn1 * t, pd, 0, 0, 0);
    let idx = scan.0;
    let s2i = scan.1;
    let pii = nb_left(h, idx).mean as int;
    let mii = nb_left(h, idx).count as int;
    let pji = nb_right(h, idx).mean as int;
    let mji = nb_right(h, idx).count as int;
    let dn1 = 2 * pn1 * t - s2i * pd;
    let dn2 = 2 * pn2 * t - s2i * pd;
    let dd2i = 2 * pd;
    let r1 = spec_quantile(h, pn1, pd);
    let r2 = spec_quantile(h, pn2, pd);
    assert(dn1 <= dn2) by (nonlinear_arith)
        requires
            pn1 <= pn2,
            t >= 0,
            dn1 == 2 * pn1 * t - s2i * pd,
            dn2 == 2 * pn2 * t - s2i * pd,
    ;
    assert(pii <= pji);
    if mji == mii {
        assert(r1.num <= r2.num) by (nonlinear_arith)
            requires
                r1.num == pii * (dd2i * mii) + (pji - pii) * dn1,
                r2.num == pii * (dd2i * mii) + (pji - pii) * dn2,
                dn1 <= dn2,
                pii <= pji,
        ;
        assert(r1.num * r2.den <= r2.num * r1.den) by (nonlinear_arith)
            requires
                r1.num <= r2.num,
                r1.den == r2.den,
                r1.den > 0,
        ;
    } else {
        let ai = mji - mii;
        let bi = 2 * mii;
        let ee1 = (bi * bi * dd2i + 8 * ai * dn1) * dd2i;
        let ee2 = (bi * bi * dd2i + 8 * ai * dn2) * dd2i;
        let zdi = 2 * ai * dd2i;
        if ai > 0 {
            assert(ee1 <= ee2 && ee1 >= 0) by (nonlinear_arith)
                requires
                    ai > 0,
                    0 < dd2i,
                    0 <= dn1 <= dn2,
                    0 <= bi,
                    ee1 == (bi * bi * dd2i + 8 * ai * dn1) * dd2i,
                    ee2 == (bi * bi * dd2i + 8 * ai * dn2) * dd2i,
            ;
            crate::math::lemma_isqrt_monotone(ee1, ee2);
            assert(r1.num <= r2.num) by (nonlinear_arith)
                requires
                    r1.num == pii * zdi + (pji - pii) * (spec_isqrt(ee1) - bi * dd2i),
                    r2.num == pii * zdi + (pji - pii) * (spec_isqrt(ee2) - bi * dd2i),
                    spec_isqrt(ee1) <= spec_isqrt(ee2),
                    pii <= pji,
            ;
            assert(r1.num * r2.den <= r2.num * r1.den) by (nonlinear_arith)
                requires
                    r1.num <= r2.num,
                    r1.den == r2.den,
                    r1.den > 0,
            ;
        } else {
            assert(ee2 <= ee1 && ee2 >= 0 && ee1 >= 0) by {
                assert(ee2 <= ee1) by (nonlinear_arith)
                    requires
                        ai < 0,
                        0 < dd2i,
                        0 <= dn1 <= dn2,
                        ee1 == (bi * bi * dd2i + 8 * ai * dn1) * dd2i,
                        ee2 == (bi * bi * dd2i + 8 * ai * dn2) * dd2i,
                ;
            }
            crate::math::lemma_isqrt_monotone(ee2, ee1);
            assert(r1.num <= r2.num) by (nonlinear_arith)
                requires
                    r1.num == -(pii * zdi + (pji - pii) * (spec_isqrt(ee1) - bi * dd2i)),
                    r2.num == -(pii * zdi + (pji - pii) * (spec_isqrt(ee2) - bi * dd2i)),
                    spec_isqrt(ee2) <= spec_isqrt(ee1),
                    pii <= pji,
            ;
            assert(r1.num * r2.den <= r2.num * r1.den) by (nonlinear_arith)
                requires
                    r1.num <= r2.num,
                    r1.den == r2.den,
                    r1.den > 0,
            ;
        }
    }
}

/// Monotonicity of the interpolated quantile: over a common probability
/// denominator, a larger probability never yields a smaller value. (Two
/// renderings of one probability over different denominators may round
/// their square roots differently, so the common denominator is essential.)
pub proof fn lemma_quantile_monotonic(h: StreamHist, pn1: int, pn2: int, pd: int)
    requires
        h.wf(),
        h.bins@.len() > 0,
        0 <= pn1 <= pn2 <= pd,
        0 < pd <= COUNT_LIMIT,
    ensures
        spec_quantile(h, pn1, pd).spec_le(spec_quantile(h, pn2, pd)),
{
    let bins = h.bins@;
    let t = total_count(bins);
    let r1 = spec_quantile(h, pn1, pd);
    let r2 = spec_quantile(h, pn2, pd);
    crate::hist::lemma_total_count_nonneg(bins);
    if pn1 == 0 {
        if pn2 == 0 {
        } else if pn2 == pd {
            assert(h.min.unwrap() <= h.max.unwrap());
        } else {
            lemma_quantile_shape(h, pn2, pd);
            let idx2 = spec_fcc(bins, 2 * pn2 * t, pd, 0, 0, 0).0;
            assert(r1.num * r2.den <= r2.num * r1.den) by (nonlinear_arith)
                requires
                    r1.num == h.min.unwrap(),
                    r1.den == 1,
                    h.min.unwrap() <= nb_left(h, idx2).mean as int,
                    (nb_left(h, idx2).mean as int) * r2.den <= r2.num,
                    r2.den > 0,
            ;
        }
    } else if pn2 == pd {
        if pn1 == pd {
        } else {
            lemma_quantile_shape(h, pn1, pd);
            let idx1 = spec_fcc(bins, 2 * pn1 * t, pd, 0, 0, 0).0;
            assert(r1.num * r2.den <= r2.num * r1.den) by (nonlinear_arith)
                requires
                    r2.num == h.max.unwrap(),
                    r2.den == 1,
                    nb_right(h, idx1).mean as int <= h.max.unwrap(),
                    r1.num <= (nb_right(h, idx1).mean as int) * r1.den,
                    r1.den > 0,
            ;
        }
    } else {
        crate::hist::lemma_single_le_total(bins, 0);
        assert(2 * pn1 * t <= 2 * pn2 * t) by (nonlinear_arith)
            requires
                pn1 <= pn2,
                t >= 0,
        ;
        lemma_fcc_monotone(bins, 2 * pn1 * t, 2 * pn2 * t, pd, 0, 0, 0);
        let idx1 = spec_fcc(bins, 2 * pn1 * t, pd, 0, 0, 0).0;
        let idx2 = spec_fcc(bins, 2 * pn2 * t, pd, 0, 0, 0).0;
        if idx1 == idx2 {
            assert(spec_fcc(bins, 2 * pn1 * t, pd, 0, 0, 0) == spec_fcc(
                bins,
                2 * pn2 * t,
                pd,
                0,
                0,
                0,
            ));
            lemma_quantile_same_bracket(h, pn1, pn2, pd);
        } else {
            lemma_quantile_shape(h, pn1, pd);
            lemma_quantile_shape(h, pn2, pd);
            assert(nb_right(h, idx1).mean as int <= nb_left(h, idx2).mean as int) by {
                assert(idx1 < idx2 <= bins.len());
                assert(bins[idx1].mean <= bins[idx2 - 1].mean);
            }
            assert(r1.num * r2.den <= r2.num * r1.den) by (nonlinear_arith)
                requires
                    r1.num <= (nb_right(h, idx1).mean as int) * r1.den,
                    (nb_left(h, idx2).mean as int) * r2.den <= r2.num,
                    nb_right(h, idx1).mean as int <= nb_left(h, idx2).mean as int,
                    r1.den > 0,
                    r2.den > 0,
            ;
        }
    }
}

impl StreamHist {
    /// The index at which the cumulative half-weight sum of the bins first
    /// exceeds the doubled scaled target `pn2t / pd`, and the doubled sum of
    /// the half-weights before it.
    fn find_cumulative_count_by(&self, pn2t: i128, pd: i128) -> (r: (usize, u64))
        requires
            self.wf(),
            0 < pd <= COUNT_LIMIT,
            0 <= pn2t <= 2 * ((COUNT_LIMIT as i128) * (COUNT_LIMIT as i128)),
        ensures
            (r.0 as int, r.1 as int) == spec_fcc(self.bins@, pn2t as int, pd as int, 0, 0, 0),
            r.0 <= self.bins@.len(),
    {
        let n = self.bins.len();
        let mut idx: usize = 0;
        let mut sum2: u64 = 0;
        let mut prev2: u64 = 0;
        proof {
            assert(self.bins@.take(0) =~= Seq::<Bin>::empty());
            crate::hist::lemma_total_count_nonneg(self.bins@);
        }
        while idx < n
            invariant
                0 <= idx <= n,
                n == self.bins@.len(),
                self.wf(),
                0 < pd <= COUNT_LIMIT,
                prev2 == if idx == 0 {
                    0int
                } else {
                    self.bins@[idx - 1].count as int
                },
                sum2 == 2 * total_count(self.bins@.take(idx as int)) - prev2,
                sum2 <= 2 * COUNT_LIMIT,
                prev2 <= COUNT_LIMIT,
                (sum2 as int) * pd <= pn2t,
                spec_fcc(self.bins@, pn2t as int, pd as int, idx as int, sum2 as int, prev2 as int)
                    == spec_fcc(self.bins@, pn2t as int, pd as int, 0, 0, 0),
            ensures
                (idx as int, sum2 as int) == spec_fcc(self.bins@, pn2t as int, pd as int, 0, 0, 0),
            decreases n - idx,
        {
            let this2 = self.bins[idx].count;
            proof {
                crate::hist::lemma_total_count_take_step(self.bins@, idx as int);
                crate::hist::lemma_total_count_take_le(self.bins@, idx + 1);
                crate::hist::lemma_total_count_nonneg(self.bins@);
                if idx >= 1 {
                    crate::hist::lemma_single_le_total(self.bins@, idx - 1);
                    crate::hist::lemma_total_count_take_le(self.bins@, idx as int);
                }
                assert(0 <= (sum2 + this2 + prev2) * pd <= 4 * ((COUNT_LIMIT as i128)
                    * (COUNT_LIMIT as i128))) by (nonlinear_arith)
                    requires
                        0 <= sum2 + this2 + prev2 <= 4 * (COUNT_LIMIT as i128),
                        0 < pd <= COUNT_LIMIT,
                ;
            }
            let probe: i128 = ((sum2 as i128) + (this2 as i128) + (prev2 as i128)) * pd;
            if probe > pn2t {
                proof {
                    assert(spec_fcc(
                        self.bins@,
                        pn2t as int,
                        pd as int,
                        idx as int,
                        sum2 as int,
                        prev2 as int,
                    ) == (idx as int, sum2 as int));
                }
                break ;
            }
            let ghost old_idx = idx as int;
            let ghost old_sum2 = sum2 as int;
            let ghost old_prev2 = prev2 as int;
            sum2 = sum2 + prev2 + this2;
            prev2 = this2;
            idx = idx + 1;
            proof {
                crate::hist::lemma_total_count_take_le(self.bins@, idx as int);
                crate::hist::lemma_single_le_total(self.bins@, idx - 1);
                assert(spec_fcc(self.bins@, pn2t as int, pd as int, old_idx, old_sum2, old_prev2)
                    == spec_fcc(
                    self.bins@,
                    pn2t as int,
                    pd as int,
                    idx as int,
                    sum2 as int,
                    prev2 as int,
                ));
            }
        }
        proof {
            if idx == n {
                assert(spec_fcc(
                    self.bins@,
                    pn2t as int,
                    pd as int,
                    idx as int,
                    sum2 as int,
                    prev2 as int,
                ) == (idx as int, sum2 as int));
            }
        }
        (idx, sum2)
    }
}

/// The interpolated quantile of a non-empty sketch at probability
/// `pn / pd`, as an exact rational: the observed minimum at zero and maximum
/// at one; otherwise the inverse of the triangular-density model. The scan
/// finds the bracketing bins; between them the cumulative count is quadratic
/// in the fractional position `z`, so `z` solves `a z^2 + b z - 2 d == 0`
/// with `a` the count difference, `b` twice the left count and `d` the
/// leftover target count, the square root taken as the integer square root
/// of the discriminant brought to a common denominator.
pub open spec fn spec_quantile(h: StreamHist, pn: int, pd: int) -> Ratio {
    let t = total_count(h.bins@);
    if pn == 0 {
        Ratio { num: h.min.unwrap() as i128, den: 1 }
    } else if pn == pd {
        Ratio { num: h.max.unwrap() as i128, den: 1 }
    } else {
        let (idx, sum2) = spec_fcc(h.bins@, 2 * pn * t, pd, 0, 0, 0);
        let pi = nb_left(h, idx).mean as int;
        let mi = nb_left(h, idx).count as int;
        let pj = nb_right(h, idx).mean as int;
        let mj = nb_right(h, idx).count as int;
        let dn = 2 * pn * t - sum2 * pd;
        let dd2 = 2 * pd;
        if mj == mi {
            Ratio {
                num: (pi * (dd2 * mi) + (pj - pi) * dn) as i128,
                den: (dd2 * mi) as i128,
            }
        } else {
            let a = mj - mi;
            let b = 2 * mi;
            let ee = (b * b * dd2 + 8 * a * dn) * dd2;
            let s = spec_isqrt(ee);
            let znum = s - b * dd2;
            let zden = 2 * a * dd2;
            if a > 0 {
                Ratio { num: (pi * zden + (pj - pi) * znum) as i128, den: zden as i128 }
            } else {
                Ratio {
                    num: (-(pi * zden + (pj - pi) * znum)) as i128,
                    den: (-zden) as i128,
                }
            }
        }
    }
}

/// On a sorted sequence, the partition point splits the means below `value`
/// from those at or above it.
pub proof fn lemma_partition_point_props(bins: Seq<Bin>, value: int)
    requires
        crate::sorted_by_mean(bins),
    ensures
        0 <= crate::hist::spec_partition_point(bins, value) <= bins.len(),
        forall|i: int|
            0 <= i < crate::hist::spec_partition_point(bins, value) ==> #[trigger] bins[i].mean
                < value,
        forall|i: int|
            crate::hist::spec_partition_point(bins, value) <= i < bins.len()
                ==> #[trigger] bins[i].mean >= value,
    decreases bins.len(),
{
    if bins.len() == 0 {
    } else if bins[0].mean < value {
        let tail = bins.drop_first();
        let u = crate::hist::spec_partition_point(bins, value);
        assert(crate::sorted_by_mean(tail));
        lemma_partition_point_props(tail, value);
        assert(forall|i: int| 0 <= i < tail.len() ==> tail[i] == bins[i + 1]);
        assert forall|i: int| 0 <= i < u implies #[trigger] bins[i].mean < value by {
            if i > 0 {
                assert(tail[i - 1].mean < value);
            }
        }
        assert forall|i: int| u <= i < bins.len() implies #[trigger] bins[i].mean >= value by {
            assert(tail[i - 1].mean >= value);
        }
    } else {
    }
}

/// The partition point never moves left as the probed value grows.
pub proof fn lemma_partition_point_monotone(bins: Seq<Bin>, v1: int, v2: int)
    requires
        crate::sorted_by_mean(bins),
        v1 <= v2,
    ensures
        crate::hist::spec_partition_point(bins, v1) <= crate::hist::spec_partition_point(
            bins,
            v2,
        ),
{
    lemma_partition_point_props(bins, v1);
    lemma_partition_point_props(bins, v2);
    let k1 = crate::hist::spec_partition_point(bins, v1);
    let k2 = crate::hist::spec_partition_point(bins, v2);
    if k2 < k1 {
        assert(bins[k2].mean < v1);
        assert(bins[k2].mean >= v2);
    }
}

/// Twice the interpolated count at the left edge of the bracket at `idx`:
/// every bin before the bracket in full, plus half the bin just before it.
pub open spec fn half_left(h: StreamHist, idx: int) -> int {
    if idx <= 0 {
        0
    } else {
        2 * total_count(h.bins@.take(idx - 1)) + h.bins@[idx - 1].count
    }
}

/// Twice the interpolated count at the right edge of the bracket at `idx`:
/// every bin through the bracket in full, plus half the bin at it.
pub open spec fn half_edge(h: StreamHist, idx: int) -> int {
    2 * total_count(h.bins@.take(idx)) + (if idx < h.bins@.len() {
        h.bins@[idx].count as int
    } else {
        0
    })
}

/// The right edge of one bracket is the left edge of the next, and the
/// edges never decrease from bracket to bracket.
pub proof fn lemma_half_left_monotone(h: StreamHist, i: int, j: int)
    requires
        0 <= i <= j <= h.bins@.len(),
    ensures
        half_left(h, i) <= half_left(h, j),
        half_left(h, i) >= 0,
    decreases j - i,
{
    crate::hist::lemma_total_count_nonneg(h.bins@.take(i - 1));
    if i < j {
        lemma_half_left_monotone(h, i + 1, j);
        if i == 0 {
            crate::hist::lemma_total_count_nonneg(h.bins@.take(0));
        } else {
            crate::hist::lemma_total_count_take_step(h.bins@, i - 1);
        }
    }
}

/// The sum of prefix counts that the interpolated count starts from: the
/// counts of the bins strictly before the bracket's left neighbor.
pub open spec fn cb_sum(h: StreamHist, idx: int) -> int {
    total_count(
        h.bins@.take(
            if idx >= 1 {
                idx - 1
            } else {
                0
            },
        ),
    )
}

/// The shape of the interpolated count between the observed minimum and
/// maximum: the bracketing neighbors straddle the probe, their counts and
/// gap are bounded, and the result's numerator and denominator are the
/// interpolation formulas themselves, free of overflow.
proof fn lemma_count_by_middle_shape(h: StreamHist, value: int)
    requires
        h.wf(),
        h.bins@.len() > 0,
        h.min.unwrap() < value <= h.max.unwrap(),
    ensures
        ({
            let idx = crate::hist::spec_partition_point(h.bins@, value);
            let pi = nb_left(h, idx).mean as int;
            let mi = nb_left(h, idx).count as int;
            let pj = nb_right(h, idx).mean as int;
            let mj = nb_right(h, idx).count as int;
            let dd = pj - pi;
            let sum = cb_sum(h, idx);
            let cb = spec_count_by(h, value);
            &&& 0 <= idx <= h.bins@.len()
            &&& pi < value <= pj
            &&& 0 <= sum <= COUNT_LIMIT
            &&& 0 <= mi <= COUNT_LIMIT
            &&& 0 <= mj <= COUNT_LIMIT
            &&& 0 <= dd <= 2 * VALUE_LIMIT
            &&& cb.den > 0
            &&& (dd <= 0 ==> cb.num == 2 * sum + mi && cb.den == 2)
            &&& (dd > 0 ==> cb.num == 2 * (dd * dd) * sum + mi * (dd * dd) + (value - pi) * (2
                * mi * dd + (mj - mi) * (value - pi)) && cb.den == 2 * (dd * dd))
        }),
{
    let bins = h.bins@;
    let idx = crate::hist::spec_partition_point(bins, value);
    lemma_partition_point_props(bins, value);
    let pi = nb_left(h, idx).mean as int;
    let mi = nb_left(h, idx).count as int;
    let pj = nb_right(h, idx).mean as int;
    let mj = nb_right(h, idx).count as int;
    let dd = pj - pi;
    let sum = cb_sum(h, idx);
    crate::hist::lemma_total_count_nonneg(
        bins.take(
            if idx >= 1 {
                idx - 1
            } else {
                0
            },
        ),
    );
    crate::hist::lemma_total_count_take_le(
        bins,
        if idx >= 1 {
            idx - 1
        } else {
            0
        },
    );
    assert(pi < value <= pj) by {
        if idx >= 1 {
            assert(bins[idx - 1].mean < value);
        }
        if idx < bins.len() {
            assert(bins[idx as int].mean >= value);
        }
    }
    assert(0 <= mi <= COUNT_LIMIT && 0 <= mj <= COUNT_LIMIT) by {
        if idx >= 1 {
            crate::hist::lemma_single_le_total(bins, idx - 1);
        }
        if idx < bins.len() {
            crate::hist::lemma_single_le_total(bins, idx as int);
        }
    }
    assert(0 <= dd <= 2 * VALUE_LIMIT) by {
        if idx >= 1 && idx < bins.len() {
            assert(bins[idx - 1].mean <= bins[idx as int].mean);
        }
    }
    if dd > 0 {
        let w = value - pi;
        assert(0 <= 2 * (dd * dd) * sum <= 8 * ((VALUE_LIMIT * VALUE_LIMIT) * COUNT_LIMIT) && 0
            <= mi * (dd * dd) <= 4 * ((VALUE_LIMIT * VALUE_LIMIT) * COUNT_LIMIT) && -(4
            * (VALUE_LIMIT * (VALUE_LIMIT * COUNT_LIMIT))) <= w * (2 * mi * dd + (mj - mi) * w)
            <= 12 * (VALUE_LIMIT * (VALUE_LIMIT * COUNT_LIMIT)) && 0 < 2 * (dd * dd) <= 8 * (
        VALUE_LIMIT * VALUE_LIMIT)) by (nonlinear_arith)
            requires
                0 < w <= dd <= 2 * VALUE_LIMIT,
                0 <= mi <= COUNT_LIMIT,
                0 <= mj <= COUNT_LIMIT,
                0 <= sum <= COUNT_LIMIT,
        ;
    }
}

/// The facts that place the interpolated count at `value` between the edges
/// of its bracket.
proof fn lemma_count_by_bracket(h: StreamHist, value: int)
    requires
        h.wf(),
        h.bins@.len() > 0,
        h.min.unwrap() < value <= h.max.unwrap(),
    ensures
        ({
            let idx = crate::hist::spec_partition_point(h.bins@, value);
            let cb = spec_count_by(h, value);
            &&& 0 <= idx <= h.bins@.len()
            &&& cb.den > 0
            &&& half_left(h, idx) * cb.den <= 2 * cb.num
            &&& 2 * cb.num <= half_edge(h, idx) * cb.den
            &&& half_edge(h, idx) == (if idx < h.bins@.len() {
                half_left(h, idx + 1)
            } else {
                2 * total_count(h.bins@)
            })
        }),
{
    let bins = h.bins@;
    let idx = crate::hist::spec_partition_point(bins, value);
    let cb = spec_count_by(h, value);
    lemma_count_by_middle_shape(h, value);
    let pi = nb_left(h, idx).mean as int;
    let mi = nb_left(h, idx).count as int;
    let pj = nb_right(h, idx).mean as int;
    let mj = nb_right(h, idx).count as int;
    let dd = pj - pi;
    let sum = cb_sum(h, idx);
    if idx >= 1 {
        crate::hist::lemma_total_count_take_step(bins, idx - 1);
    }
    if idx < bins.len() {
        crate::hist::lemma_total_count_take_step(bins, idx as int);
    } else {
        assert(bins.take(bins.len() as int) =~= bins);
    }
    assert(half_left(h, idx) == 2 * sum + mi);
    assert(half_edge(h, idx) == 2 * sum + 2 * mi + mj);
    if dd <= 0 {
        assert(half_left(h, idx) * 2 <= 2 * cb.num);
        assert(2 * cb.num <= half_edge(h, idx) * 2);
    } else {
        let w = value - pi;
        assert(w * (2 * mi * dd + (mj - mi) * w) >= 0 && w * (2 * mi * dd + (mj - mi) * w) <= (mi
            + mj) * (dd * dd) && 0 < dd * dd) by (nonlinear_arith)
            requires
                0 < w <= dd,
                0 <= mi,
                0 <= mj,
        ;
        assert((2 * sum + mi) * (2 * (dd * dd)) <= 2 * cb.num) by (nonlinear_arith)
            requires
                cb.num == 2 * (dd * dd) * sum + mi * (dd * dd) + w * (2 * mi * dd + (mj - mi)
                    * w),
                w * (2 * mi * dd + (mj - mi) * w) >= 0,
                0 < dd * dd,
        ;
        assert(2 * cb.num <= (2 * sum + 2 * mi + mj) * (2 * (dd * dd))) by (nonlinear_arith)
            requires
                cb.num == 2 * (dd * dd) * sum + mi * (dd * dd) + w * (2 * mi * dd + (mj - mi)
                    * w),
                w * (2 * mi * dd + (mj - mi) * w) <= (mi + mj) * (dd * dd),
                0 < dd * dd,
        ;
    }
}

/// Monotonicity of the interpolated count: probing at a larger value never
/// yields a smaller count.
pub proof fn lemma_count_by_monotonic(h: StreamHist, v1: int, v2: int)
    requires
        h.wf(),
        v1 <= v2,
    ensures
        spec_count_by(h, v1).spec_le(spec_count_by(h, v2)),
{
    let cb1 = spec_count_by(h, v1);
    let cb2 = spec_count_by(h, v2);
    crate::hist::lemma_total_count_nonneg(h.bins@);
    if h.bins@.len() == 0 {
    } else if v2 <= h.min.unwrap() {
    } else if v1 <= h.min.unwrap() {
        // The left count is zero; the right one is never negative.
        if v2 > h.max.unwrap() {
        } else {
            let idx2 = crate::hist::spec_partition_point(h.bins@, v2);
            lemma_count_by_bracket(h, v2);
            lemma_half_left_monotone(h, 0, idx2);
            assert(0 * cb2.den <= half_left(h, idx2) * cb2.den) by (nonlinear_arith)
                requires
                    0 <= half_left(h, idx2),
                    cb2.den > 0,
            ;
        }
    } else if v1 > h.max.unwrap() {
        // Both counts are the full total.
    } else if v2 > h.max.unwrap() {
        // The right count is the full total; the left one stays below it.
        let idx1 = crate::hist::spec_partition_point(h.bins@, v1);
        lemma_count_by_bracket(h, v1);
        if idx1 < h.bins@.len() {
            lemma_half_left_monotone(h, idx1 + 1, h.bins@.len() as int);
            assert(half_left(h, h.bins@.len() as int) <= 2 * total_count(h.bins@)) by {
                crate::hist::lemma_total_count_take_step(h.bins@, h.bins@.len() - 1);
                assert(h.bins@.take(h.bins@.len() as int) =~= h.bins@);
            }
        }
        assert(cb1.num * cb2.den <= cb2.num * cb1.den) by (nonlinear_arith)
            requires
                2 * cb1.num <= half_edge(
                    h,
                    crate::hist::spec_partition_point(h.bins@, v1),
                ) * cb1.den,
                half_edge(h, crate::hist::spec_partition_point(h.bins@, v1)) <= 2 * total_count(
                    h.bins@,
                ),
                cb1.den > 0,
                cb2.den == 1,
                cb2.num == total_count(h.bins@),
        ;
    } else {
        // Both probes interpolate: chain through the bracket edges.
        let idx1 = crate::hist::spec_partition_point(h.bins@, v1);
        let idx2 = crate::hist::spec_partition_point(h.bins@, v2);
        lemma_partition_point_monotone(h.bins@, v1, v2);
        lemma_count_by_bracket(h, v1);
        lemma_count_by_bracket(h, v2);
        if idx1 == idx2 {
            lemma_count_by_same_bracket(h, v1, v2);
        } else {
            lemma_half_left_monotone(h, idx1 + 1, idx2);
            assert(half_edge(h, idx1) <= half_left(h, idx2));
            assert(cb1.num * cb2.den <= cb2.num * cb1.den) by (nonlinear_arith)
                requires
                    2 * cb1.num <= half_edge(h, idx1) * cb1.den,
                    half_left(h, idx2) * cb2.den <= 2 * cb2.num,
                    half_edge(h, idx1) <= half_left(h, idx2),
                    cb1.den > 0,
                    cb2.den > 0,
            ;
        }
    }
}

/// Monotonicity of the interpolated count within one bracket: the
/// triangular-density integral grows with the probe.
proof fn lemma_count_by_same_bracket(h: StreamHist, v1: int, v2: int)
    requires
        h.wf(),
        h.bins@.len() > 0,
        h.min.unwrap() < v1 <= v2 <= h.max.unwrap(),
        crate::hist::spec_partition_point(h.bins@, v1) == crate::hist::spec_partition_point(
            h.bins@,
            v2,
        ),
    ensures
        spec_count_by(h, v1).spec_le(spec_count_by(h, v2)),
{
    let bins = h.bins@;
    let idx = crate::hist::spec_partition_point(bins, v1);
    let cb1 = spec_count_by(h, v1);
    let cb2 = spec_count_by(h, v2);
    lemma_count_by_middle_shape(h, v1);
    lemma_count_by_middle_shape(h, v2);
    let pi = nb_left(h, idx).mean as int;
    let mi = nb_left(h, idx).count as int;
    let pj = nb_right(h, idx).mean as int;
    let mj = nb_right(h, idx).count as int;
    let dd = pj - pi;
    let sum = cb_sum(h, idx);
    if dd <= 0 {
    } else {
        let w1 = v1 - pi;
        let w2 = v2 - pi;
        assert(cb1.num <= cb2.num) by (nonlinear_arith)
            requires
                cb1.num == 2 * (dd * dd) * sum + mi * (dd * dd) + w1 * (2 * mi * dd + (mj - mi)
                    * w1),
                cb2.num == 2 * (dd * dd) * sum + mi * (dd * dd) + w2 * (2 * mi * dd + (mj - mi)
                    * w2),
                0 < w1 <= w2 <= dd,
                0 <= mi,
                0 <= mj,
        ;
        assert(cb1.num * cb2.den <= cb2.num * cb1.den) by (nonlinear_arith)
            requires
                cb1.num <= cb2.num,
                cb1.den == cb2.den,
                cb1.den > 0,
        ;
    }
}

impl StreamHist {
    /// The bins at indexes `index - 1` and `index`, with synthetic zero-count
    /// boundary bins at the observed minimum and maximum beyond the ends.
    fn neighbors(&self, index: usize) -> (r: (Bin, Bin))
        requires
            self.wf(),
            self.bins@.len() > 0,
            index <= self.bins@.len(),
        ensures
            r.0 == nb_left(*self, index as int),
            r.1 == nb_right(*self, index as int),
    {
        if index == 0 {
            let m = match self.min {
                Some(m) => m,
                None => 0,
            };
            (Bin { mean: m, count: 0 }, self.bins[0])
        } else if index >= self.bins.len() {
            let m = match self.max {
                Some(m) => m,
                None => 0,
            };
            (self.bins[self.bins.len() - 1], Bin { mean: m, count: 0 })
        } else {
            (self.bins[index - 1], self.bins[index])
        }
    }

    /// The total count of the first `upto` bins.
    fn prefix_count(&self, upto: usize) -> (r: u64)
        requires
            self.wf(),
            upto <= self.bins@.len(),
        ensures
            r == total_count(self.bins@.take(upto as int)),
            0 <= r <= self.total(),
    {
        let mut acc: u64 = 0;
        let mut i: usize = 0;
        proof {
            assert(self.bins@.take(0) =~= Seq::<Bin>::empty());
            crate::hist::lemma_total_count_nonneg(self.bins@);
        }
        while i < upto
            invariant
                0 <= i <= upto <= self.bins@.len(),
                self.wf(),
                acc == total_count(self.bins@.take(i as int)),
                acc <= COUNT_LIMIT,
            decreases upto - i,
        {
            proof {
                crate::hist::lemma_total_count_take_step(self.bins@, i as int);
                crate::hist::lemma_total_count_take_le(self.bins@, i + 1);
            }
            acc = acc + self.bins[i].count;
            i = i + 1;
        }
        proof {
            crate::hist::lemma_total_count_take_le(self.bins@, upto as int);
        }
        acc
    }

    /// The interpolated count of samples at or below `value`: the exact sum
    /// of the counts of the bins well below `value`, half of the count of
    /// the bin just below it, and the triangular-density integral between
    /// the two bins bracketing `value`. The result is an exact rational,
    /// never below zero nor above the total count.
    pub fn count_by(&self, value: i64) -> (r: Ratio)
        requires
            self.wf(),
        ensures
            r == spec_count_by(*self, value as int),
            r.wf(),
            r.num >= 0,
            r.num <= self.total() * r.den,
            r.den <= 8 * ((VALUE_LIMIT as i128) * (VALUE_LIMIT as i128)),
    {
        proof {
            crate::hist::lemma_total_count_nonneg(self.bins@);
        }
        if self.is_empty() {
            return Ratio { num: 0, den: 1 };
        }
        let lo = match self.min {
            Some(m) => m,
            None => 0,
        };
        let hi = match self.max {
            Some(m) => m,
            None => 0,
        };
        if value <= lo {
            return Ratio { num: 0, den: 1 };
        }
        if value > hi {
            let t = self.count();
            return Ratio { num: t as i128, den: 1 };
        }
        let idx = self.partition_point(value);
        proof {
            crate::hist::lemma_partition_point_unique(self.bins@, value as int, idx as int);
        }
        let start = if idx >= 1 {
            idx - 1
        } else {
            0
        };
        let sum = self.prefix_count(start);
        let (left, right) = self.neighbors(idx);
        let pi = left.mean;
        let mi = left.count;
        let pj = right.mean;
        let mj = right.count;
        proof {
            crate::hist::lemma_single_le_total(self.bins@, 0);
            if idx >= 1 {
                crate::hist::lemma_total_count_take_step(self.bins@, idx - 1);
                if idx < self.bins@.len() {
                    crate::hist::lemma_total_count_take_step(self.bins@, idx as int);
                    crate::hist::lemma_total_count_take_le(self.bins@, idx + 1);
                } else {
                    crate::hist::lemma_total_count_take_le(self.bins@, idx as int);
                    assert(self.bins@.take(self.bins@.len() as int) =~= self.bins@);
                }
            } else {
                crate::hist::lemma_total_count_take_step(self.bins@, 0);
                crate::hist::lemma_total_count_take_le(self.bins@, 1);
            }
            assert(sum + mi + mj <= self.total());
        }
        if pj - pi <= 0 {
            proof {
                crate::hist::lemma_single_le_total(self.bins@, 0);
            }
            return Ratio { num: 2 * (sum as i128) + (mi as i128), den: 2 };
        }
        let dd: i128 = (pj as i128) - (pi as i128);
        let w: i128 = (value as i128) - (pi as i128);
        proof {
            let ddi = dd as int;
            let wi = w as int;
            let mii = mi as int;
            let mji = mj as int;
            let sumi = sum as int;
            assert(0 < wi <= ddi <= 2 * VALUE_LIMIT);
            assert(0 <= mii <= COUNT_LIMIT && 0 <= mji <= COUNT_LIMIT && 0 <= sumi
                <= COUNT_LIMIT);
            assert(0 <= 2 * (ddi * ddi) * sumi <= 8 * ((VALUE_LIMIT * VALUE_LIMIT) * COUNT_LIMIT)
                && 0 <= mii * (ddi * ddi) <= 4 * ((VALUE_LIMIT * VALUE_LIMIT) * COUNT_LIMIT) && -(4
                * (VALUE_LIMIT * (VALUE_LIMIT * COUNT_LIMIT))) <= wi * (2 * mii * ddi + (mji - mii)
                * wi) <= 12 * (VALUE_LIMIT * (VALUE_LIMIT * COUNT_LIMIT)) && 0 < 2 * (ddi * ddi)
                <= 8 * (VALUE_LIMIT * VALUE_LIMIT) && -(2 * (VALUE_LIMIT * COUNT_LIMIT)) <= 2 * mii
                * ddi <= 4 * (VALUE_LIMIT * COUNT_LIMIT) && -(2 * (VALUE_LIMIT * COUNT_LIMIT))
                <= (mji - mii) * wi <= 2 * (VALUE_LIMIT * COUNT_LIMIT)) by (nonlinear_arith)
                requires
                    0 < wi <= ddi <= 2 * VALUE_LIMIT,
                    0 <= mii <= COUNT_LIMIT,
                    0 <= mji <= COUNT_LIMIT,
                    0 <= sumi <= COUNT_LIMIT,
            ;
            assert(wi * (2 * mii * ddi + (mji - mii) * wi) >= 0 && mii * (ddi * ddi) + wi * (2
                * mii * ddi + (mji - mii) * wi) <= 2 * (ddi * ddi) * (mii + mji))
                by (nonlinear_arith)
                requires
                    0 < wi <= ddi,
                    0 <= mii,
                    0 <= mji,
            ;
            assert(2 * (ddi * ddi) * sumi + 2 * (ddi * ddi) * (mii + mji) <= self.total() * (2 * (
            ddi * ddi))) by (nonlinear_arith)
                requires
                    sumi + mii + mji <= self.total(),
                    ddi > 0,
            ;
        }
        let num: i128 = 2 * (dd * dd) * (sum as i128) + (mi as i128) * (dd * dd) + w * (2 * (
        mi as i128) * dd + ((mj as i128) - (mi as i128)) * w);
        let den: i128 = 2 * (dd * dd);
        Ratio { num, den }
    }

    /// The interpolated empirical cumulative distribution at `value`: the
    /// interpolated count divided by the total count. `None` when the
    /// histogram holds no data, since no distribution is defined then; zero
    /// at or below the observed minimum and one above the observed maximum.
    pub fn cdf(&self, value: i64) -> (r: Option<Ratio>)
        requires
            self.wf(),
        ensures
            r is None <==> self.bins@.len() == 0,
            self.bins@.len() > 0 ==> {
                &&& r is Some
                &&& r.unwrap().num == spec_count_by(*self, value as int).num
                &&& r.unwrap().den == spec_count_by(*self, value as int).den * self.total()
                &&& r.unwrap().wf()
                &&& 0 <= r.unwrap().num <= r.unwrap().den
            },
            self.bins@.len() > 0 && value <= self.min.unwrap() ==> r.unwrap().num == 0,
            self.bins@.len() > 0 && value > self.max.unwrap() ==> r.unwrap().num
                == r.unwrap().den,
    {
        if self.is_empty() {
            return None;
        }
        let cb = self.count_by(value);
        let t = self.count();
        proof {
            if value as int > self.max.unwrap() {
                assert(cb.den == 1);
                assert(cb.num == self.total());
            }
            crate::hist::lemma_single_le_total(self.bins@, 0);
            let ti = self.total();
            assert(0 < cb.den * ti <= (8 * ((VALUE_LIMIT as i128) * (VALUE_LIMIT as i128)))
                * COUNT_LIMIT && cb.num <= cb.den * ti) by (nonlinear_arith)
                requires
                    1 <= ti <= COUNT_LIMIT,
                    0 < cb.den <= 8 * ((VALUE_LIMIT as i128) * (VALUE_LIMIT as i128)),
                    cb.num <= ti * cb.den,
            ;
        }
        Some(Ratio { num: cb.num, den: cb.den * (t as i128) })
    }

    /// The approximate mean of the data: the count-weighted average of the
    /// bin means, as an exact rational. `None` when the histogram holds no
    /// data.
    pub fn mean(&self) -> (r: Option<Ratio>)
        requires
            self.wf(),
        ensures
            r is None <==> self.bins@.len() == 0,
            self.bins@.len() > 0 ==> r is Some && r.unwrap().num == weighted_sum(self.bins@)
                && r.unwrap().den == self.total() && r.unwrap().wf(),
    {
        if self.is_empty() {
            return None;
        }
        let num = self.weighted_sum_exec();
        let den = self.count();
        proof {
            crate::hist::lemma_single_le_total(self.bins@, 0);
        }
        Some(Ratio { num, den: den as i128 })
    }

    /// The sum of bin means weighted by their counts.
    fn weighted_sum_exec(&self) -> (r: i128)
        requires
            self.wf(),
        ensures
            r == weighted_sum(self.bins@),
    {
        let n = self.bins.len();
        let mut acc: i128 = 0;
        let mut i: usize = 0;
        proof {
            assert(self.bins@.take(0) =~= Seq::<Bin>::empty());
        }
        while i < n
            invariant
                0 <= i <= n,
                n == self.bins@.len(),
                self.wf(),
                acc == weighted_sum(self.bins@.take(i as int)),
                -(COUNT_LIMIT * VALUE_LIMIT) <= acc <= COUNT_LIMIT * VALUE_LIMIT,
            decreases n - i,
        {
            let b = self.bins[i];
            proof {
                lemma_sums_take_step(self.bins@, i as int);
                crate::hist::lemma_single_le_total(self.bins@, i as int);
                assert(bins_ok(self.bins@.take(i + 1))) by {
                    assert(forall|j: int|
                        0 <= j < i + 1 ==> self.bins@.take(i + 1)[j] == self.bins@[j]);
                }
                lemma_sums_bounds(self.bins@.take(i + 1));
                crate::hist::lemma_total_count_take_le(self.bins@, i + 1);
                crate::hist::lemma_total_count_nonneg(self.bins@.skip(i + 1));
                let t1 = total_count(self.bins@.take(i + 1));
                assert(t1 * VALUE_LIMIT <= COUNT_LIMIT * VALUE_LIMIT
                    && -(COUNT_LIMIT * VALUE_LIMIT) <= -(t1 * VALUE_LIMIT)) by (nonlinear_arith)
                    requires
                        0 <= t1 <= COUNT_LIMIT,
                ;
                assert(-(COUNT_LIMIT * VALUE_LIMIT) <= b.mean * b.count <= COUNT_LIMIT
                    * VALUE_LIMIT) by (nonlinear_arith)
                    requires
                        -VALUE_LIMIT <= b.mean <= VALUE_LIMIT,
                        0 <= b.count <= COUNT_LIMIT,
                ;
            }
            acc = acc + (b.mean as i128) * (b.count as i128);
            i = i + 1;
        }
        proof {
            assert(self.bins@.take(n as int) =~= self.bins@);
        }
        acc
    }

    /// The sum of squared bin means weighted by their counts.
    fn sq_weighted_sum_exec(&self) -> (r: i128)
        requires
            self.wf(),
        ensures
            r == sq_weighted_sum(self.bins@),
    {
        let n = self.bins.len();
        let mut acc: i128 = 0;
        let mut i: usize = 0;
        proof {
            assert(self.bins@.take(0) =~= Seq::<Bin>::empty());
        }
        while i < n
            invariant
                0 <= i <= n,
                n == self.bins@.len(),
                self.wf(),
                acc == sq_weighted_sum(self.bins@.take(i as int)),
                0 <= acc <= COUNT_LIMIT * (VALUE_LIMIT * VALUE_LIMIT),
            decreases n - i,
        {
            let b = self.bins[i];
            proof {
                lemma_sums_take_step(self.bins@, i as int);
                crate::hist::lemma_single_le_total(self.bins@, i as int);
                assert(bins_ok(self.bins@.take(i + 1))) by {
                    assert(forall|j: int|
                        0 <= j < i + 1 ==> self.bins@.take(i + 1)[j] == self.bins@[j]);
                }
                lemma_sums_bounds(self.bins@.take(i + 1));
                crate::hist::lemma_total_count_take_le(self.bins@, i + 1);
                crate::hist::lemma_total_count_nonneg(self.bins@.skip(i + 1));
                let t1 = total_count(self.bins@.take(i + 1));
                assert(t1 * (VALUE_LIMIT * VALUE_LIMIT) <= COUNT_LIMIT * (VALUE_LIMIT
                    * VALUE_LIMIT)) by (nonlinear_arith)
                    requires
                        0 <= t1 <= COUNT_LIMIT,
                ;
                assert(0 <= b.count * b.mean * b.mean <= COUNT_LIMIT * (VALUE_LIMIT
                    * VALUE_LIMIT) && -(COUNT_LIMIT * VALUE_LIMIT) <= b.count * b.mean
                    <= COUNT_LIMIT * VALUE_LIMIT) by (nonlinear_arith)
                    requires
                        -VALUE_LIMIT <= b.mean <= VALUE_LIMIT,
                        0 <= b.count <= COUNT_LIMIT,
                ;
            }
            acc = acc + (b.count as i128) * (b.mean as i128) * (b.mean as i128);
            i = i + 1;
        }
        proof {
            assert(self.bins@.take(n as int) =~= self.bins@);
        }
        acc
    }

    /// The approximate population variance of the data: the count-weighted
    /// average of squared deviations of bin means from the mean, as an exact
    /// rational over the common denominator `total * total`. `None` when the
    /// histogram holds no data; never negative otherwise.
    pub fn variance(&self) -> (r: Option<Ratio>)
        requires
            self.wf(),
        ensures
            r is None <==> self.bins@.len() == 0,
            self.bins@.len() > 0 ==> r is Some && r.unwrap().num == self.total()
                * sq_weighted_sum(self.bins@) - weighted_sum(self.bins@) * weighted_sum(
                self.bins@,
            ) && r.unwrap().den == self.total() * self.total() && r.unwrap().num >= 0
                && r.unwrap().wf(),
    {
        if self.is_empty() {
            return None;
        }
        let ws = self.weighted_sum_exec();
        let sq = self.sq_weighted_sum_exec();
        let t = self.count();
        proof {
            crate::hist::lemma_single_le_total(self.bins@, 0);
            crate::hist::lemma_total_count_nonneg(self.bins@);
            lemma_sums_bounds(self.bins@);
            lemma_cauchy_schwarz(self.bins@);
            let ti = self.total();
            assert(0 < ti * ti <= COUNT_LIMIT * COUNT_LIMIT && ti * sq_weighted_sum(self.bins@)
                <= COUNT_LIMIT * (COUNT_LIMIT * (VALUE_LIMIT * VALUE_LIMIT)) && weighted_sum(
                self.bins@,
            ) * weighted_sum(self.bins@) <= (COUNT_LIMIT * VALUE_LIMIT) * (COUNT_LIMIT
                * VALUE_LIMIT) && ti * sq_weighted_sum(self.bins@) >= 0) by (nonlinear_arith)
                requires
                    1 <= ti <= COUNT_LIMIT,
                    0 <= sq_weighted_sum(self.bins@) <= COUNT_LIMIT * (VALUE_LIMIT * VALUE_LIMIT),
                    -(COUNT_LIMIT * VALUE_LIMIT) <= weighted_sum(self.bins@) <= COUNT_LIMIT
                        * VALUE_LIMIT,
            ;
        }
        proof {
            assert(0 <= (t as int) * (sq as int) <= COUNT_LIMIT * (COUNT_LIMIT * (VALUE_LIMIT
                * VALUE_LIMIT)) && 0 <= (ws as int) * (ws as int) <= (COUNT_LIMIT * VALUE_LIMIT)
                * (COUNT_LIMIT * VALUE_LIMIT) && 0 <= (t as int) * (t as int) <= COUNT_LIMIT
                * COUNT_LIMIT) by (nonlinear_arith)
                requires
                    1 <= t <= COUNT_LIMIT,
                    0 <= sq <= COUNT_LIMIT * (VALUE_LIMIT * VALUE_LIMIT),
                    -(COUNT_LIMIT * VALUE_LIMIT) <= ws <= COUNT_LIMIT * VALUE_LIMIT,
            ;
        }
        let num = (t as i128) * sq - ws * ws;
        let den = (t as i128) * (t as i128);
        Some(Ratio { num, den })
    }

    /// The standard deviation of the data, rounded down to the value grid:
    /// the integer square root of the variance. `None` when the histogram
    /// holds no data.
    pub fn stdev(&self) -> (r: Option<i64>)
        requires
            self.wf(),
        ensures
            r is None <==> self.bins@.len() == 0,
            self.bins@.len() > 0 ==> r == Some(
                spec_isqrt(
                    (self.total() * sq_weighted_sum(self.bins@) - weighted_sum(self.bins@)
                        * weighted_sum(self.bins@)) / (self.total() * self.total()),
                ) as i64,
            ),
    {
        let v = match self.variance() {
            Some(v) => v,
            None => { return None },
        };
        let q: u128 = (v.num as u128) / (v.den as u128);
        proof {
            let ti = self.total();
            lemma_sums_bounds(self.bins@);
            assert(weighted_sum(self.bins@) * weighted_sum(self.bins@) >= 0) by (nonlinear_arith);
            assert(v.num <= v.den * (VALUE_LIMIT * VALUE_LIMIT) && ti * (VALUE_LIMIT
                * VALUE_LIMIT) * ti == v.den * (VALUE_LIMIT * VALUE_LIMIT)) by (nonlinear_arith)
                requires
                    v.num == ti * sq_weighted_sum(self.bins@) - weighted_sum(self.bins@)
                        * weighted_sum(self.bins@),
                    v.den == ti * ti,
                    ti >= 1,
                    weighted_sum(self.bins@) * weighted_sum(self.bins@) >= 0,
                    0 <= sq_weighted_sum(self.bins@) <= ti * (VALUE_LIMIT * VALUE_LIMIT),
            ;
            lemma_div_pos_is_pos(v.num as int, v.den as int);
            lemma_div_is_ordered(v.num as int, v.den * (VALUE_LIMIT * VALUE_LIMIT), v.den as int);
            lemma_div_multiples_vanish(VALUE_LIMIT * (VALUE_LIMIT as int), v.den as int);
            assert(q == v.num / v.den);
            lemma_isqrt_monotone(q as int, VALUE_LIMIT * (VALUE_LIMIT as int));
            lemma_isqrt_square(VALUE_LIMIT as int);
        }
        let s = isqrt(q);
        Some(s as i64)
    }

    /// The approximate quantile of the data at probability `prob`: the
    /// observed minimum at probability zero and maximum at one, otherwise
    /// the inverse of the triangular-density model used by the interpolated
    /// count, as an exact rational. `None` when the histogram holds no data;
    /// the result always lies between the observed minimum and maximum.
    #[verifier::rlimit(100)]
    #[verifier::spinoff_prover]
    pub fn quantile(&self, prob: Ratio) -> (r: Option<Ratio>)
        requires
            self.wf(),
            0 <= prob.num <= prob.den,
            0 < prob.den <= COUNT_LIMIT,
        ensures
            r is None <==> self.bins@.len() == 0,
            self.bins@.len() > 0 ==> {
                &&& r == Some(spec_quantile(*self, prob.num as int, prob.den as int))
                &&& r.unwrap().wf()
                &&& (self.min.unwrap() as i128) * r.unwrap().den <= r.unwrap().num
                &&& r.unwrap().num <= (self.max.unwrap() as i128) * r.unwrap().den
            },
            self.bins@.len() > 0 && prob.num == 0 ==> r.unwrap().num == self.min.unwrap()
                && r.unwrap().den == 1,
            self.bins@.len() > 0 && prob.num == prob.den ==> r.unwrap().num == self.max.unwrap()
                && r.unwrap().den == 1,
    {
        if self.is_empty() {
            return None;
        }
        let lo = match self.min {
            Some(m) => m,
            None => 0,
        };
        let hi = match self.max {
            Some(m) => m,
            None => 0,
        };
        if prob.num == 0 {
            proof {
                assert(spec_quantile(*self, prob.num as int, prob.den as int) == Ratio {
                    num: lo as i128,
                    den: 1,
                });
            }
            return Some(Ratio { num: lo as i128, den: 1 });
        }
        if prob.num == prob.den {
            proof {
                assert(spec_quantile(*self, prob.num as int, prob.den as int) == Ratio {
                    num: hi as i128,
                    den: 1,
                });
                assert((self.min.unwrap() as i128) * 1 <= hi as i128);
            }
            return Some(Ratio { num: hi as i128, den: 1 });
        }
        Some(self.quantile_between(prob))
    }

    /// The quantile in the open unit interval of probabilities: locate the
    /// bracketing bins by the cumulative half-weight scan and invert the
    /// triangular interpolation there.
    #[verifier::rlimit(100)]
    #[verifier::spinoff_prover]
    fn quantile_between(&self, prob: Ratio) -> (r: Ratio)
        requires
            self.wf(),
            self.bins@.len() > 0,
            0 < prob.num < prob.den,
            prob.den <= COUNT_LIMIT,
        ensures
            r == spec_quantile(*self, prob.num as int, prob.den as int),
            r.wf(),
            (self.min.unwrap() as i128) * r.den <= r.num,
            r.num <= (self.max.unwrap() as i128) * r.den,
    {
        let t = self.count();
        let ghost ti = self.total();
        let ghost pni = prob.num as int;
        let ghost pdi = prob.den as int;
        proof {
            crate::hist::lemma_single_le_total(self.bins@, 0);
            assert(0 < 2 * pni * ti <= 2 * (COUNT_LIMIT * COUNT_LIMIT) && 2 * pni * ti < 2 * pdi
                * ti) by (nonlinear_arith)
                requires
                    0 < pni < pdi <= COUNT_LIMIT,
                    1 <= ti <= COUNT_LIMIT,
            ;
        }
        let pn2t: i128 = 2 * prob.num * (t as i128);
        proof {
            assert(self.bins@.take(0) =~= Seq::<Bin>::empty());
            lemma_fcc_props(self.bins@, pn2t as int, pdi, 0, 0, 0);
        }
        let (idx, sum2) = self.find_cumulative_count_by(pn2t, prob.den);
        let (left, right) = self.neighbors(idx);
        let pi = left.mean;
        let mi = left.count;
        let pj = right.mean;
        let mj = right.count;
        let ghost pii = pi as int;
        let ghost mii = mi as int;
        let ghost pji = pj as int;
        let ghost mji = mj as int;
        let ghost s2i = sum2 as int;
        let ghost dni = pn2t - s2i * pdi;
        proof {
            // The scan stopped within the target: the leftover count is not
            // negative, and strictly less than the two bracketing
            // half-weights together.
            assert(dni >= 0);
            if idx < self.bins.len() {
                assert((s2i + mji + mii) * pdi > pn2t);
                assert(dni < (mii + mji) * pdi) by (nonlinear_arith)
                    requires
                        (s2i + mji + mii) * pdi > pn2t,
                        dni == pn2t - s2i * pdi,
                ;
            } else {
                assert(self.bins@.take(self.bins@.len() as int) =~= self.bins@);
                assert(s2i == 2 * ti - mii);
                assert(dni < (mii + mji) * pdi) by (nonlinear_arith)
                    requires
                        s2i == 2 * ti - mii,
                        mji == 0,
                        dni == pn2t - s2i * pdi,
                        pn2t < 2 * pdi * ti,
                        pdi > 0,
                ;
            }
            // The bracketing means lie inside the observed range, in order.
            assert(self.min.unwrap() <= pii && pji <= self.max.unwrap() && pii <= pji && mii
                <= COUNT_LIMIT && mji <= COUNT_LIMIT && s2i <= 2 * COUNT_LIMIT) by {
                crate::hist::lemma_total_count_take_le(self.bins@, idx as int);
                crate::hist::lemma_total_count_nonneg(self.bins@.skip(idx as int));
                if idx > 0 {
                    assert(self.bins@[0].mean <= self.bins@[idx - 1].mean);
                }
                if idx < self.bins@.len() {
                    assert(self.bins@[idx as int].mean <= self.bins@[self.bins@.len() - 1].mean);
                    crate::hist::lemma_single_le_total(self.bins@, idx as int);
                }
                if idx > 0 && idx < self.bins@.len() {
                    assert(self.bins@[idx - 1].mean <= self.bins@[idx as int].mean);
                }
                if idx > 0 {
                    crate::hist::lemma_single_le_total(self.bins@, idx - 1);
                }
            }
        }
        let dn: i128 = pn2t - (sum2 as i128) * prob.den;
        let dd2: i128 = 2 * prob.den;
        let ghost dd2i = 2 * pdi;
        if mj == mi {
            proof {
                // Equal bracketing counts: the relation is linear in the
                // fractional position. The counts cannot be zero here: a
                // synthetic boundary bin always faces a stored bin.
                if idx == 0 {
                    assert(mji >= 1);
                } else if idx >= self.bins@.len() {
                    assert(mii >= 1);
                }
                assert(0 < dd2i * mii <= 2 * (COUNT_LIMIT * COUNT_LIMIT) && dni < dd2i * mii)
                    by (nonlinear_arith)
                    requires
                        1 <= mii <= COUNT_LIMIT,
                        0 < pdi <= COUNT_LIMIT,
                        dd2i == 2 * pdi,
                        0 <= dni,
                        dni < (mii + mii) * pdi,
                ;
                assert((self.min.unwrap() as int) * (dd2i * mii) <= pii * (dd2i * mii) && pii * (
                dd2i * mii) + (pji - pii) * dni <= (self.max.unwrap() as int) * (dd2i * mii) && 0
                    <= (pji - pii) * dni && pii * (dd2i * mii) + (pji - pii) * dni <= 8 * ((
                COUNT_LIMIT * COUNT_LIMIT) * VALUE_LIMIT) && pii * (dd2i * mii) >= -(2 * ((
                COUNT_LIMIT * COUNT_LIMIT) * VALUE_LIMIT))) by (nonlinear_arith)
                    requires
                        self.min.unwrap() <= pii <= pji <= self.max.unwrap(),
                        -VALUE_LIMIT <= self.min.unwrap(),
                        self.max.unwrap() <= VALUE_LIMIT,
                        0 < dd2i * mii <= 2 * (COUNT_LIMIT * COUNT_LIMIT),
                        0 <= dni < dd2i * mii,
                        dni <= 2 * (COUNT_LIMIT * COUNT_LIMIT),
                ;
            }
            let den: i128 = dd2 * (mi as i128);
            let num: i128 = (pi as i128) * den + ((pj as i128) - (pi as i128)) * dn;
            return Ratio { num, den };
        }
        let a: i128 = (mj as i128) - (mi as i128);
        let b: i128 = 2 * (mi as i128);
        let ghost ai = mji - mii;
        let ghost bi = 2 * mii;
        proof {
            assert(b * b * dd2 + 8 * a * dn == (b * b) * dd2 + (8 * a) * dn);
            assert(0 <= bi * bi <= (2 * COUNT_LIMIT) * (2 * COUNT_LIMIT) && -(8 * COUNT_LIMIT)
                <= 8 * ai <= 8 * COUNT_LIMIT) by (nonlinear_arith)
                requires
                    0 <= bi <= 2 * COUNT_LIMIT,
                    -COUNT_LIMIT <= ai <= COUNT_LIMIT,
            ;
            assert(0 <= bi * bi * dd2i <= ((2 * COUNT_LIMIT) * (2 * COUNT_LIMIT)) * (2
                * COUNT_LIMIT) && -(8 * (COUNT_LIMIT * (2 * (COUNT_LIMIT * COUNT_LIMIT)))) <= 8
                * ai * dni <= 8 * (COUNT_LIMIT * (2 * (COUNT_LIMIT * COUNT_LIMIT))))
                by (nonlinear_arith)
                requires
                    0 <= bi <= 2 * COUNT_LIMIT,
                    0 < dd2i <= 2 * COUNT_LIMIT,
                    -COUNT_LIMIT <= ai <= COUNT_LIMIT,
                    0 <= dni <= 2 * (COUNT_LIMIT * COUNT_LIMIT),
            ;
            assert(-(96 * ((COUNT_LIMIT * COUNT_LIMIT) * (COUNT_LIMIT * COUNT_LIMIT))) <= (bi * bi
                * dd2i + 8 * ai * dni) * dd2i <= 96 * ((COUNT_LIMIT * COUNT_LIMIT) * (COUNT_LIMIT
                * COUNT_LIMIT))) by (nonlinear_arith)
                requires
                    -(16 * ((COUNT_LIMIT * COUNT_LIMIT) * COUNT_LIMIT)) <= bi * bi * dd2i + 8 * ai
                        * dni <= 16 * ((COUNT_LIMIT * COUNT_LIMIT) * COUNT_LIMIT) + 8 * (
                    COUNT_LIMIT * (2 * (COUNT_LIMIT * COUNT_LIMIT))),
                    0 < dd2i <= 2 * COUNT_LIMIT,
            ;
            assert(0 <= bi * dd2i <= (2 * COUNT_LIMIT) * (2 * COUNT_LIMIT)) by (nonlinear_arith)
                requires
                    0 <= bi <= 2 * COUNT_LIMIT,
                    0 < dd2i <= 2 * COUNT_LIMIT,
            ;
            // The discriminant is never negative: when the right count is
            // larger it grows from the square; when smaller, the leftover
            // bound keeps it at or above the square of the other root gap.
            if ai < 0 {
                assert((bi * bi * dd2i + 8 * ai * dni) * dd2i >= ((2 * ai + bi) * dd2i) * ((2 * ai
                    + bi) * dd2i)) by (nonlinear_arith)
                    requires
                        ai < 0,
                        0 < dd2i,
                        0 <= dni,
                        dni < (mii + mji) * pdi,
                        bi == 2 * mii,
                        ai == mji - mii,
                        dd2i == 2 * pdi,
                ;
                assert(((2 * ai + bi) * dd2i) * ((2 * ai + bi) * dd2i) >= 0) by (nonlinear_arith);
            } else {
                assert((bi * bi * dd2i + 8 * ai * dni) * dd2i >= (bi * dd2i) * (bi * dd2i))
                    by (nonlinear_arith)
                    requires
                        ai > 0,
                        0 < dd2i,
                        0 <= dni,
                        0 <= bi,
                ;
                assert((bi * dd2i) * (bi * dd2i) >= 0) by (nonlinear_arith);
            }
            assert((bi * bi * dd2i + 8 * ai * dni) * dd2i >= 0);
        }
        let ee: i128 = (b * b * dd2 + 8 * a * dn) * dd2;
        let ghost eei = (bi * bi * dd2i + 8 * ai * dni) * dd2i;
        let s_root = isqrt(ee as u128);
        proof {
            crate::math::lemma_isqrt_props(eei);
            assert(spec_isqrt(eei) * spec_isqrt(eei) <= eei);
            assert(spec_isqrt(eei) <= 10 * ((COUNT_LIMIT as int) * COUNT_LIMIT))
                by (nonlinear_arith)
                requires
                    spec_isqrt(eei) >= 0,
                    spec_isqrt(eei) * spec_isqrt(eei) <= eei,
                    eei <= 96 * ((COUNT_LIMIT * COUNT_LIMIT) * (COUNT_LIMIT * COUNT_LIMIT)),
            ;
            assert(-(4 * (COUNT_LIMIT * COUNT_LIMIT)) <= 2 * ai * dd2i <= 4 * (COUNT_LIMIT
                * COUNT_LIMIT)) by (nonlinear_arith)
                requires
                    -COUNT_LIMIT <= ai <= COUNT_LIMIT,
                    0 < dd2i <= 2 * COUNT_LIMIT,
            ;
        }
        let s: i128 = s_root as i128;
        let ghost si = spec_isqrt(eei);
        let znum: i128 = s - b * dd2;
        let zden: i128 = 2 * a * dd2;
        let ghost zni = si - bi * dd2i;
        let ghost zdi = 2 * ai * dd2i;
        proof {
            // The fractional position `z = znum / zden` lies in `[0, 1)`:
            // the floor of the square root only moves it down (up, for a
            // negative leading coefficient), never out of the bracket.
            if ai > 0 {
                assert((bi * dd2i) * (bi * dd2i) <= eei) by (nonlinear_arith)
                    requires
                        eei == (bi * bi * dd2i + 8 * ai * dni) * dd2i,
                        ai > 0,
                        0 < dd2i,
                        0 <= dni,
                        0 <= bi,
                ;
                crate::math::lemma_isqrt_monotone((bi * dd2i) * (bi * dd2i), eei);
                crate::math::lemma_isqrt_square(bi * dd2i);
                assert(si >= bi * dd2i);
                assert(eei < ((2 * ai + bi) * dd2i) * ((2 * ai + bi) * dd2i)) by (nonlinear_arith)
                    requires
                        eei == (bi * bi * dd2i + 8 * ai * dni) * dd2i,
                        ai > 0,
                        0 < dd2i,
                        dni < (mii + mji) * pdi,
                        bi == 2 * mii,
                        ai == mji - mii,
                        dd2i == 2 * pdi,
                ;
                assert(si < (2 * ai + bi) * dd2i) by (nonlinear_arith)
                    requires
                        si >= 0,
                        si * si <= eei,
                        eei < ((2 * ai + bi) * dd2i) * ((2 * ai + bi) * dd2i),
                        (2 * ai + bi) * dd2i >= 0,
                ;
                assert(si - bi * dd2i < 2 * ai * dd2i) by (nonlinear_arith)
                    requires
                        si < (2 * ai + bi) * dd2i,
                ;
                assert(0 <= zni < zdi);
                assert(zdi > 0) by (nonlinear_arith)
                    requires
                        ai > 0,
                        dd2i > 0,
                        zdi == 2 * ai * dd2i,
                ;
                assert((self.min.unwrap() as int) * zdi <= pii * zdi && pii * zdi + (pji - pii)
                    * zni <= (self.max.unwrap() as int) * zdi && pii * zdi + (pji - pii) * zni
                    >= (self.min.unwrap() as int) * zdi) by (nonlinear_arith)
                    requires
                        self.min.unwrap() <= pii <= pji <= self.max.unwrap(),
                        0 <= zni < zdi,
                ;
            } else {
                assert(ai < 0);
                assert(eei <= (bi * dd2i) * (bi * dd2i)) by (nonlinear_arith)
                    requires
                        eei == (bi * bi * dd2i + 8 * ai * dni) * dd2i,
                        ai < 0,
                        0 < dd2i,
                        0 <= dni,
                ;
                assert(eei >= 0);
                crate::math::lemma_isqrt_monotone(eei, (bi * dd2i) * (bi * dd2i));
                crate::math::lemma_isqrt_square(bi * dd2i);
                assert(si <= bi * dd2i);
                assert(zni <= 0);
                if 2 * ai + bi >= 0 {
                    assert(eei >= ((2 * ai + bi) * dd2i) * ((2 * ai + bi) * dd2i))
                        by (nonlinear_arith)
                        requires
                            eei == (bi * bi * dd2i + 8 * ai * dni) * dd2i,
                            ai < 0,
                            0 < dd2i,
                            dni < (mii + mji) * pdi,
                            bi == 2 * mii,
                            ai == mji - mii,
                            dd2i == 2 * pdi,
                    ;
                    crate::math::lemma_isqrt_monotone(
                        ((2 * ai + bi) * dd2i) * ((2 * ai + bi) * dd2i),
                        eei,
                    );
                    crate::math::lemma_isqrt_square((2 * ai + bi) * dd2i);
                    assert(si >= (2 * ai + bi) * dd2i);
                } else {
                    assert((2 * ai + bi) * dd2i < 0) by (nonlinear_arith)
                        requires
                            2 * ai + bi < 0,
                            dd2i > 0,
                    ;
                    assert(si >= (2 * ai + bi) * dd2i);
                }
                assert(si - bi * dd2i >= 2 * ai * dd2i) by (nonlinear_arith)
                    requires
                        si >= (2 * ai + bi) * dd2i,
                ;
                assert(zni >= zdi);
                assert(2 * ai * dd2i < 0) by (nonlinear_arith)
                    requires
                        ai < 0,
                        dd2i > 0,
                ;
                assert(zdi < 0);
                assert(0 <= -zni <= -zdi);
                assert((self.min.unwrap() as int) * (-zdi) <= pii * (-zdi) && pii * (-zdi) + (pji
                    - pii) * (-zni) <= (self.max.unwrap() as int) * (-zdi)) by (nonlinear_arith)
                    requires
                        self.min.unwrap() <= pii <= pji <= self.max.unwrap(),
                        0 <= -zni <= -zdi,
                ;
                assert(-(pii * zdi + (pji - pii) * zni) == pii * (-zdi) + (pji - pii) * (-zni))
                    by (nonlinear_arith);
            }
            // Ranges of the final numerator and denominator.
            assert(-(40 * ((COUNT_LIMIT * COUNT_LIMIT) * (COUNT_LIMIT * VALUE_LIMIT))) <= pii * zdi
                + (pji - pii) * zni <= 40 * ((COUNT_LIMIT * COUNT_LIMIT) * (COUNT_LIMIT
                * VALUE_LIMIT)) && -(4 * (COUNT_LIMIT * COUNT_LIMIT)) <= zdi <= 4 * (COUNT_LIMIT
                * COUNT_LIMIT)) by (nonlinear_arith)
                requires
                    -VALUE_LIMIT <= pii <= pji <= VALUE_LIMIT,
                    -COUNT_LIMIT <= ai <= COUNT_LIMIT,
                    0 < dd2i <= 2 * COUNT_LIMIT,
                    zdi == 2 * ai * dd2i,
                    zni == si - bi * dd2i,
                    0 <= si <= 10 * ((COUNT_LIMIT as int) * COUNT_LIMIT),
                    0 <= bi <= 2 * COUNT_LIMIT,
                    bi * dd2i <= (2 * COUNT_LIMIT) * (2 * COUNT_LIMIT) && 0 <= bi * dd2i,
            ;
            assert(-(4 * ((COUNT_LIMIT * COUNT_LIMIT) * VALUE_LIMIT)) <= pii * zdi <= 4 * ((
            COUNT_LIMIT * COUNT_LIMIT) * VALUE_LIMIT) && -(30 * ((COUNT_LIMIT * COUNT_LIMIT)
                * VALUE_LIMIT)) <= (pji - pii) * zni <= 30 * ((COUNT_LIMIT * COUNT_LIMIT)
                * VALUE_LIMIT)) by (nonlinear_arith)
                requires
                    -VALUE_LIMIT <= pii <= pji <= VALUE_LIMIT,
                    -(4 * (COUNT_LIMIT * COUNT_LIMIT)) <= zdi <= 4 * (COUNT_LIMIT * COUNT_LIMIT),
                    -(4 * (COUNT_LIMIT * COUNT_LIMIT)) <= zni <= 10 * ((COUNT_LIMIT as int)
                        * COUNT_LIMIT),
            ;
        }
        let num_pos: i128 = (pi as i128) * zden + ((pj as i128) - (pi as i128)) * znum;
        if a > 0 {
            Ratio { num: num_pos, den: zden }
        } else {
            Ratio { num: -num_pos, den: -zden }
        }
    }

    /// The approximate median of the data: the quantile at one half.
    pub fn median(&self) -> (r: Option<Ratio>)
        requires
            self.wf(),
        ensures
            r is None <==> self.bins@.len() == 0,
            self.bins@.len() > 0 ==> r == Some(spec_quantile(*self, 1, 2)),
    {
        self.quantile(Ratio { num: 1, den: 2 })
    }
}

} // verus!
