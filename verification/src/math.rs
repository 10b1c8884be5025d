//! Integer square root, the exact substitute for floating-point square
//! roots in the quantile interpolation and the standard deviation.

use vstd::prelude::*;

verus! {

/// The integer square root: the largest `r` with `r * r <= n`.
pub open spec fn spec_isqrt(n: int) -> int
    decreases n,
{
    if n <= 0 {
        0
    } else {
        let r = spec_isqrt(n - 1);
        if (r + 1) * (r + 1) <= n {
            r + 1
        } else {
            r
        }
    }
}

/// The integer square root squares to at most `n`, and is the largest such.
pub proof fn lemma_isqrt_props(n: int)
    requires
        n >= 0,
    ensures
        spec_isqrt(n) >= 0,
        spec_isqrt(n) * spec_isqrt(n) <= n,
        (spec_isqrt(n) + 1) * (spec_isqrt(n) + 1) > n,
    decreases n,
{
    if n > 0 {
        lemma_isqrt_props(n - 1);
        let r = spec_isqrt(n - 1);
        if (r + 1) * (r + 1) <= n {
            assert((r + 2) * (r + 2) > n) by (nonlinear_arith)
                requires
                    r >= 0,
                    (r + 1) * (r + 1) > n - 1,
            ;
        }
    }
}

/// Any value that squares to at most `n`, while its successor squares past
/// `n`, is the integer square root of `n`.
pub proof fn lemma_isqrt_unique(n: int, r: int)
    requires
        n >= 0,
        r >= 0,
        r * r <= n,
        (r + 1) * (r + 1) > n,
    ensures
        r == spec_isqrt(n),
{
    lemma_isqrt_props(n);
    let s = spec_isqrt(n);
    if r < s {
        assert((r + 1) * (r + 1) <= s * s) by (nonlinear_arith)
            requires
                0 <= r + 1 <= s,
        ;
    }
    if s < r {
        assert((s + 1) * (s + 1) <= r * r) by (nonlinear_arith)
            requires
                0 <= s + 1 <= r,
        ;
    }
}

/// The integer square root is monotone.
pub proof fn lemma_isqrt_monotone(a: int, b: int)
    requires
        0 <= a <= b,
    ensures
        spec_isqrt(a) <= spec_isqrt(b),
{
    lemma_isqrt_props(a);
    lemma_isqrt_props(b);
    let ra = spec_isqrt(a);
    let rb = spec_isqrt(b);
    if rb < ra {
        assert((rb + 1) * (rb + 1) <= ra * ra) by (nonlinear_arith)
            requires
                0 <= rb + 1 <= ra,
        ;
    }
}

/// The integer square root of a perfect square.
pub proof fn lemma_isqrt_square(k: int)
    requires
        k >= 0,
    ensures
        spec_isqrt(k * k) == k,
{
    assert(k * k >= 0 && (k + 1) * (k + 1) > k * k) by (nonlinear_arith)
        requires
            k >= 0,
    ;
    lemma_isqrt_unique(k * k, k);
}

/// Compute the integer square root of `n` by binary search: the largest
/// value whose square does not exceed `n`.
pub fn isqrt(n: u128) -> (r: u128)
    ensures
        r == spec_isqrt(n as int),
{
    if n == 0 {
        proof {
            lemma_isqrt_props(0);
        }
        return 0;
    }
    let mut lo: u128 = 0;
    let mut hi: u128 = 0x1_0000_0000_0000_0000;
    proof {
        assert((hi as int) * (hi as int) > n as int) by (nonlinear_arith)
            requires
                hi == 0x1_0000_0000_0000_0000int,
                n <= u128::MAX,
        ;
    }
    while lo + 1 < hi
        invariant
            0 <= lo < hi <= 0x1_0000_0000_0000_0000,
            (lo as int) * (lo as int) <= n as int,
            (hi as int) * (hi as int) > n as int,
        decreases hi - lo,
    {
        let mid = lo + (hi - lo) / 2;
        proof {
            assert((mid as int) * (mid as int) < u128::MAX) by (nonlinear_arith)
                requires
                    0 <= mid < 0x1_0000_0000_0000_0000int,
            ;
        }
        if mid * mid <= n {
            lo = mid;
        } else {
            hi = mid;
        }
    }
    proof {
        lemma_isqrt_unique(n as int, lo as int);
    }
    lo
}

/// The weighted Cauchy-Schwarz inequality over running sums: the square of a
/// weighted sum never exceeds the weight total times the weighted sum of
/// squares. It makes the variance of a sketch provably non-negative.
pub proof fn lemma_cauchy_schwarz_step(s0: int, s1: int, s2: int, c: int, m: int)
    requires
        s0 >= 0,
        c >= 0,
        s1 * s1 <= s0 * s2,
        s0 == 0 ==> s1 == 0 && s2 == 0,
    ensures
        (s1 + c * m) * (s1 + c * m) <= (s0 + c) * (s2 + c * m * m),
{
    assert((s1 + c * m) * (s1 + c * m) <= (s0 + c) * (s2 + c * m * m)) by (nonlinear_arith)
        requires
            s0 >= 0,
            c >= 0,
            s1 * s1 <= s0 * s2,
            s0 == 0 ==> s1 == 0 && s2 == 0,
    ;
}

} // verus!
