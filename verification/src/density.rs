//! Weighted kernel density estimation on top of a sketch.

use crate::bins::Bin;
use crate::hist::{total_count, StreamHist};
use crate::ratio::Ratio;
use crate::{COUNT_LIMIT, VALUE_LIMIT};
use vstd::prelude::*;

verus! {

/// Weighted kernel density estimator for a [`StreamHist`].
///
/// The estimator owns a frozen sketch and a bandwidth on the value grid; the
/// bandwidth is chosen by the caller (heuristics live outside the core) and
/// may be adjusted afterwards. Its `density` query always uses the
/// triangular kernel.
#[derive(Clone, Debug)]
pub struct KernelDensity {
    /// The underlying histogram.
    pub hist: StreamHist,
    /// Bandwidth of the kernels, on the value grid; always at least one.
    pub bandwidth: i64,
}

/// One bin's contribution to the triangular-kernel density sum at `v` with
/// bandwidth `h`: the bin count times the kernel height `h - min(|v - mean|, h)`,
/// in units of `1 / h`.
pub open spec fn tri_term(b: Bin, v: int, h: int) -> int {
    let d = if v >= b.mean {
        v - b.mean
    } else {
        b.mean - v
    };
    let clipped = if d < h {
        d
    } else {
        h as int
    };
    b.count * (h - clipped)
}

/// The triangular-kernel density sum at `v` over a sequence of bins.
pub open spec fn density_sum(bins: Seq<Bin>, v: int, h: int) -> int
    decreases bins.len(),
{
    if bins.len() == 0 {
        0
    } else {
        density_sum(bins.drop_last(), v, h) + tri_term(bins.last(), v, h)
    }
}

/// The density sum is never negative and never exceeds the total count
/// times the bandwidth.
pub proof fn lemma_density_sum_bounds(bins: Seq<Bin>, v: int, h: int)
    requires
        h >= 1,
    ensures
        0 <= density_sum(bins, v, h) <= total_count(bins) * h,
    decreases bins.len(),
{
    if bins.len() == 0 {
    } else {
        let head = bins.drop_last();
        let b = bins.last();
        lemma_density_sum_bounds(head, v, h);
        crate::hist::lemma_total_count_nonneg(head);
        assert(0 <= tri_term(b, v, h) <= b.count * h && total_count(head) * h + b.count * h == (
        total_count(head) + b.count) * h) by (nonlinear_arith)
            requires
                h >= 1,
                b.count >= 0,
                tri_term(b, v, h) == b.count * (h - (if (if v >= b.mean {
                    v - b.mean
                } else {
                    b.mean - v
                }) < h {
                    (if v >= b.mean {
                        v - b.mean
                    } else {
                        b.mean - v
                    })
                } else {
                    h as int
                })),
        ;
    }
}

/// The step from a prefix of bins to the next longer one, for the density
/// sum.
pub proof fn lemma_density_sum_take_step(bins: Seq<Bin>, v: int, h: int, i: int)
    requires
        0 <= i < bins.len(),
    ensures
        density_sum(bins.take(i + 1), v, h) == density_sum(bins.take(i), v, h) + tri_term(
            bins[i],
            v,
            h,
        ),
{
    assert(bins.take(i + 1).drop_last() =~= bins.take(i));
    assert(bins.take(i + 1).last() == bins[i]);
}

impl KernelDensity {
    /// Build an estimator from a sketch and a bandwidth on the value grid.
    pub fn new(hist: StreamHist, bandwidth: i64) -> (r: KernelDensity)
        requires
            hist.wf(),
            1 <= bandwidth <= VALUE_LIMIT,
        ensures
            r.hist == hist,
            r.bandwidth == bandwidth,
    {
        KernelDensity { hist, bandwidth }
    }

    /// Evaluate the weighted triangular-kernel density estimate at `value`:
    /// the kernel heights at each bin, weighted by the bin counts and
    /// normalised by the total count times the bandwidth, as an exact
    /// rational. `None` when the histogram holds no data, since the
    /// normalisation is undefined then.
    pub fn density(&self, value: i64) -> (r: Option<Ratio>)
        requires
            self.hist.wf(),
            1 <= self.bandwidth <= VALUE_LIMIT,
        ensures
            r is None <==> self.hist.bins@.len() == 0,
            self.hist.bins@.len() > 0 ==> {
                &&& r is Some
                &&& r.unwrap().num == density_sum(
                    self.hist.bins@,
                    value as int,
                    self.bandwidth as int,
                )
                &&& r.unwrap().den == self.hist.total() * (self.bandwidth as int)
                    * (self.bandwidth as int)
                &&& r.unwrap().wf()
            },
    {
        if self.hist.is_empty() {
            return None;
        }
        let h: i128 = self.bandwidth as i128;
        let ghost hi = self.bandwidth as int;
        let ghost vi = value as int;
        let n = self.hist.bins.len();
        let mut acc: i128 = 0;
        let mut i: usize = 0;
        proof {
            assert(self.hist.bins@.take(0) =~= Seq::<Bin>::empty());
            crate::hist::lemma_total_count_nonneg(self.hist.bins@);
        }
        while i < n
            invariant
                0 <= i <= n,
                n == self.hist.bins@.len(),
                self.hist.wf(),
                1 <= hi <= VALUE_LIMIT,
                h == hi,
                vi == value,
                acc == density_sum(self.hist.bins@.take(i as int), vi, hi),
                0 <= acc <= COUNT_LIMIT * VALUE_LIMIT,
            decreases n - i,
        {
            let b = self.hist.bins[i];
            let m: i128 = b.mean as i128;
            let v128: i128 = value as i128;
            let d: i128 = if v128 >= m {
                v128 - m
            } else {
                m - v128
            };
            let clipped: i128 = if d < h {
                d
            } else {
                h
            };
            proof {
                lemma_density_sum_take_step(self.hist.bins@, vi, hi, i as int);
                crate::hist::lemma_single_le_total(self.hist.bins@, i as int);
                lemma_density_sum_bounds(self.hist.bins@.take(i + 1), vi, hi);
                crate::hist::lemma_total_count_take_le(self.hist.bins@, i + 1);
                crate::hist::lemma_total_count_nonneg(self.hist.bins@.skip(i + 1));
                crate::hist::lemma_total_count_nonneg(self.hist.bins@.take(i + 1));
                let t1 = total_count(self.hist.bins@.take(i + 1));
                assert(t1 * hi <= COUNT_LIMIT * VALUE_LIMIT) by (nonlinear_arith)
                    requires
                        0 <= t1 <= COUNT_LIMIT,
                        1 <= hi <= VALUE_LIMIT,
                ;
                assert(0 <= b.count * (hi - (clipped as int)) <= COUNT_LIMIT * VALUE_LIMIT)
                    by (nonlinear_arith)
                    requires
                        0 <= b.count <= COUNT_LIMIT,
                        0 <= clipped <= hi <= VALUE_LIMIT,
                ;
            }
            acc = acc + (b.count as i128) * (h - clipped);
            i = i + 1;
        }
        proof {
            assert(self.hist.bins@.take(n as int) =~= self.hist.bins@);
        }
        let t = self.hist.count();
        proof {
            crate::hist::lemma_single_le_total(self.hist.bins@, 0);
            let ti = self.hist.total();
            assert(0 < ti * hi <= COUNT_LIMIT * VALUE_LIMIT && 0 < ti * hi * hi <= COUNT_LIMIT * (
            VALUE_LIMIT * VALUE_LIMIT)) by (nonlinear_arith)
                requires
                    1 <= ti <= COUNT_LIMIT,
                    1 <= hi <= VALUE_LIMIT,
            ;
        }
        Some(Ratio { num: acc, den: (t as i128) * h * h })
    }
}

/// The triangular kernel `1 - min(|u|, 1)`, on exact rationals.
pub fn triangular(u: Ratio) -> (r: Ratio)
    requires
        u.wf(),
        u.num > i128::MIN,
    ensures
        r.den == u.den,
        r.num == u.den - (if (if u.num >= 0 {
            u.num as int
        } else {
            -u.num as int
        }) <= u.den {
            (if u.num >= 0 {
                u.num as int
            } else {
                -u.num as int
            })
        } else {
            u.den as int
        }),
        r.wf(),
{
    let a: i128 = if u.num >= 0 {
        u.num
    } else {
        -u.num
    };
    let clipped: i128 = if a <= u.den {
        a
    } else {
        u.den
    };
    Ratio { num: u.den - clipped, den: u.den }
}

/// The Epanechnikov kernel `3/4 * (1 - min(|u|, 1)^2)`, on exact rationals.
pub fn epanechnikov(u: Ratio) -> (r: Ratio)
    requires
        u.wf(),
        u.num > i128::MIN,
        u.den <= 1_000_000_000_000_000_000,
        -1_000_000_000_000_000_000 <= u.num <= 1_000_000_000_000_000_000,
    ensures
        r.den == 4 * (u.den * u.den),
        r.num == 3 * (u.den * u.den - (if (if u.num >= 0 {
            u.num as int
        } else {
            -u.num as int
        }) <= u.den {
            (if u.num >= 0 {
                u.num as int
            } else {
                -u.num as int
            })
        } else {
            u.den as int
        }) * (if (if u.num >= 0 {
            u.num as int
        } else {
            -u.num as int
        }) <= u.den {
            (if u.num >= 0 {
                u.num as int
            } else {
                -u.num as int
            })
        } else {
            u.den as int
        })),
        r.wf(),
{
    let a: i128 = if u.num >= 0 {
        u.num
    } else {
        -u.num
    };
    let clipped: i128 = if a <= u.den {
        a
    } else {
        u.den
    };
    proof {
        assert(0 <= clipped * clipped <= u.den * u.den && 0 < u.den * u.den
            <= 1_000_000_000_000_000_000i128 * 1_000_000_000_000_000_000i128)
            by (nonlinear_arith)
            requires
                0 <= clipped <= u.den <= 1_000_000_000_000_000_000i128,
                0 < u.den,
        ;
    }
    Ratio { num: 3 * (u.den * u.den - clipped * clipped), den: 4 * (u.den * u.den) }
}

/// The uniform kernel: one half where `|u| <= 1`, zero elsewhere, on exact
/// rationals.
pub fn uniform(u: Ratio) -> (r: Ratio)
    requires
        u.wf(),
        u.num > i128::MIN,
    ensures
        r.den == 2,
        r.num == if (if u.num >= 0 {
            u.num as int
        } else {
            -u.num as int
        }) <= u.den {
            1int
        } else {
            0int
        },
        r.wf(),
{
    let a: i128 = if u.num >= 0 {
        u.num
    } else {
        -u.num
    };
    if a <= u.den {
        Ratio { num: 1, den: 2 }
    } else {
        Ratio { num: 0, den: 2 }
    }
}

/// The average bin width of a histogram, `(max - min) / size`, as an exact
/// rational: a simple bandwidth choice. `None` when the histogram never
/// received data or has a target size of zero, since no width is defined
/// then.
pub fn bin_width(hist: &StreamHist) -> (r: Option<Ratio>)
    requires
        hist.wf(),
    ensures
        r is None <==> (hist.min is None || hist.size == 0),
        hist.min is Some && hist.size > 0 ==> r == Some(
            Ratio {
                num: (hist.max.unwrap() - hist.min.unwrap()) as i128,
                den: hist.size as i128,
            },
        ),
{
    let lo = match hist.min {
        Some(m) => m,
        None => { return None },
    };
    let hi = match hist.max {
        Some(m) => m,
        None => { return None },
    };
    if hist.size == 0 {
        return None;
    }
    Some(Ratio { num: (hi as i128) - (lo as i128), den: hist.size as i128 })
}

} // verus!
