//! Exact rational results for the statistical queries.

use vstd::prelude::*;

verus! {

/// An exact rational number `num / den` with a positive denominator.
///
/// The queries of the sketch return their results as unreduced rationals:
/// each contract states `num` and `den` exactly, so two results are compared
/// as fractions with [`Ratio::spec_value_eq`] / cross-multiplication rather
/// than field by field.
#[derive(Clone, Copy, Debug, PartialEq, Eq, Structural)]
pub struct Ratio {
    pub num: i128,
    pub den: i128,
}

impl Ratio {
    /// The denominator is positive, so the fraction denotes a real number.
    pub open spec fn wf(self) -> bool {
        self.den > 0
    }

    /// The two rationals denote the same number: `a/b == c/d` iff `a*d == c*b`.
    pub open spec fn spec_value_eq(self, other: Ratio) -> bool {
        self.num * other.den == other.num * self.den
    }

    /// The rational is at most the other: `a/b <= c/d` iff `a*d <= c*b`,
    /// for positive denominators.
    pub open spec fn spec_le(self, other: Ratio) -> bool {
        self.num * other.den <= other.num * self.den
    }

    /// Build the rational `num / den`.
    pub fn new(num: i128, den: i128) -> (r: Ratio)
        requires
            den > 0,
        ensures
            r.num == num,
            r.den == den,
            r.wf(),
    {
        Ratio { num, den }
    }

    /// Compare with the fraction `num / den` as numbers, by cross-multiplication.
    pub fn value_eq_frac(&self, num: i128, den: i128) -> (r: bool)
        requires
            self.wf(),
            den > 0,
            self.num * den <= i128::MAX && self.num * den >= i128::MIN,
            num * self.den <= i128::MAX && num * self.den >= i128::MIN,
        ensures
            r == self.spec_value_eq(Ratio { num, den }),
    {
        let lhs: i128 = self.num * den;
        let rhs: i128 = num * self.den;
        lhs == rhs
    }
}

} // verus!
