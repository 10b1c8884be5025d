//! Bins, the atomic elements of a histogram sketch.

use crate::{COUNT_LIMIT, VALUE_LIMIT};
use vstd::arithmetic::div_mod::{
    lemma_div_is_ordered, lemma_div_multiples_vanish, lemma_div_pos_is_pos,
    lemma_hoist_over_denominator,
};
use vstd::arithmetic::mul::lemma_mul_inequality;
use vstd::prelude::*;

verus! {

/// One aggregated cluster of samples: the mean of the samples that were
/// absorbed into the cluster, on the caller's fixed-point grid, and how many
/// samples those were.
///
/// Ordering and equality of bins go by the mean alone; the count does not
/// take part. Stored bins of a sketch always have `count >= 1`; bins with
/// `count == 0` appear only as synthetic boundary neighbors inside queries.
#[derive(Clone, Copy, Debug)]
pub struct Bin {
    /// Mean of the samples aggregated into this bin.
    pub mean: i64,
    /// How many samples were aggregated into this bin.
    pub count: u64,
}

/// The mean of the bin obtained by merging `a` and `b`: the count-weighted
/// average of the two means, rounded down to the grid.
pub open spec fn spec_combined_mean(a: Bin, b: Bin) -> int {
    (a.mean * a.count + b.mean * b.count) / (a.count + b.count)
}

impl Bin {
    /// The mean lies on the bounded value grid.
    pub open spec fn in_range(self) -> bool {
        -VALUE_LIMIT <= self.mean <= VALUE_LIMIT
    }

    /// Build a bin from a mean and a count.
    pub fn new(mean: i64, count: u64) -> (r: Bin)
        requires
            -VALUE_LIMIT <= mean <= VALUE_LIMIT,
        ensures
            r == (Bin { mean, count }),
            r.in_range(),
    {
        Bin { mean, count }
    }

    /// Merge two bins: the new mean is the count-weighted average of the two
    /// means rounded down to the grid, the new count is the sum of the counts.
    pub fn combine(a: Bin, b: Bin) -> (r: Bin)
        requires
            a.in_range(),
            b.in_range(),
            a.count + b.count >= 1,
            a.count + b.count <= COUNT_LIMIT,
        ensures
            r.count == a.count + b.count,
            r.mean == spec_combined_mean(a, b),
            a.mean <= b.mean ==> a.mean <= r.mean <= b.mean,
            b.mean <= a.mean ==> b.mean <= r.mean <= a.mean,
            r.in_range(),
    {
        let (lo, hi) = if a.mean <= b.mean {
            (a, b)
        } else {
            (b, a)
        };
        let total: u64 = a.count + b.count;
        let delta: i64 = hi.mean - lo.mean;
        proof {
            assert(0 <= delta <= 2 * VALUE_LIMIT);
            assert(hi.count * delta <= COUNT_LIMIT * (2 * VALUE_LIMIT)) by (nonlinear_arith)
                requires
                    0 <= hi.count <= COUNT_LIMIT,
                    0 <= delta <= 2 * VALUE_LIMIT,
            ;
        }
        let off_wide: u128 = (hi.count as u128) * (delta as u128) / (total as u128);
        proof {
            let t = total as int;
            let d = delta as int;
            let x = hi.count * d;
            lemma_div_pos_is_pos(x, t);
            lemma_mul_inequality(hi.count as int, t, d);
            lemma_div_is_ordered(x, t * d, t);
            lemma_div_multiples_vanish(d, t);
            assert(t * d == d * t) by (nonlinear_arith);
            assert(x / t <= d);
        }
        let off: i64 = off_wide as i64;
        let mean: i64 = lo.mean + off;
        proof {
            let t = total as int;
            let x = hi.count * (delta as int);
            lemma_hoist_over_denominator(x, lo.mean as int, total as nat);
            assert(lo.mean * t + hi.count * (hi.mean - lo.mean) == a.mean * a.count + b.mean
                * b.count) by (nonlinear_arith)
                requires
                    t == a.count + b.count,
                    (lo == a && hi == b) || (lo == b && hi == a),
            ;
        }
        Bin { mean, count: total }
    }
}

impl From<i64> for Bin {
    /// Build a bin holding one sample: the given mean with a count of one.
    fn from(mean: i64) -> (r: Bin) {
        Bin { mean, count: 1 }
    }
}

impl vstd::std_specs::convert::FromSpecImpl<i64> for Bin {
    open spec fn obeys_from_spec() -> bool {
        true
    }

    open spec fn from_spec(mean: i64) -> Bin {
        Bin { mean, count: 1 }
    }
}

impl Default for Bin {
    /// The zero bin: mean zero, count zero.
    fn default() -> (r: Bin)
        ensures
            r == (Bin { mean: 0, count: 0 }),
    {
        Bin { mean: 0, count: 0 }
    }
}

impl PartialEq for Bin {
    /// Bins are equal when their means are equal; the counts are ignored.
    fn eq(&self, other: &Self) -> bool {
        self.mean == other.mean
    }
}

impl Eq for Bin {

}

impl vstd::std_specs::cmp::PartialEqSpecImpl for Bin {
    open spec fn obeys_eq_spec() -> bool {
        true
    }

    open spec fn eq_spec(&self, other: &Bin) -> bool {
        self.mean == other.mean
    }
}

impl PartialOrd for Bin {
    /// Bins are ordered by their means; the counts are ignored.
    fn partial_cmp(&self, other: &Self) -> Option<core::cmp::Ordering> {
        if self.mean < other.mean {
            Some(core::cmp::Ordering::Less)
        } else if self.mean == other.mean {
            Some(core::cmp::Ordering::Equal)
        } else {
            Some(core::cmp::Ordering::Greater)
        }
    }
}

impl vstd::std_specs::cmp::PartialOrdSpecImpl for Bin {
    open spec fn obeys_partial_cmp_spec() -> bool {
        true
    }

    open spec fn partial_cmp_spec(&self, other: &Bin) -> Option<core::cmp::Ordering> {
        if self.mean < other.mean {
            Some(core::cmp::Ordering::Less)
        } else if self.mean == other.mean {
            Some(core::cmp::Ordering::Equal)
        } else {
            Some(core::cmp::Ordering::Greater)
        }
    }
}

} // verus!
