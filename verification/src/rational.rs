//! Rational numbers with 128-bit numerator and denominator, compared exactly.
//!
//! Scores of candidates are rationals `n / d`. Comparison must be exact even
//! where the cross products overflow 128 bits, so it is delegated to the
//! arbitrary-precision comparison of `sp_arithmetic::Rational128`.

use vstd::prelude::*;

verus! {

/// A rational number `n / d` on the stake domain. A denominator of zero is
/// avoided by construction: `new` clamps it to one.
#[derive(Clone, Copy, Debug)]
pub struct Rational {
    /// Numerator.
    pub n: u128,
    /// Denominator; kept positive by `new`.
    pub d: u128,
}

/// Exact strict order `n1 / d1 > n2 / d2`, by unbounded cross-multiplication;
/// a zero denominator counts as infinitely large.
pub open spec fn rat_gt_spec(n1: u128, d1: u128, n2: u128, d2: u128) -> bool {
    if d1 == d2 {
        n1 > n2
    } else if d1 == 0 {
        true
    } else if d2 == 0 {
        false
    } else {
        n1 as int * d2 as int > n2 as int * d1 as int
    }
}

/// Exact equality `n1 / d1 == n2 / d2`, by unbounded cross-multiplication.
pub open spec fn rat_eq_spec(n1: u128, d1: u128, n2: u128, d2: u128) -> bool {
    if d1 == d2 {
        n1 == n2
    } else {
        n1 as int * d2 as int == n2 as int * d1 as int
    }
}

/// Relies on `Ord for sp_arithmetic::Rational128`: comparison is by exact
/// (big-integer) cross-multiplication, with equal denominators compared by
/// numerator and a zero denominator ordered as infinitely large.
#[verifier::external_body]
fn rational128_gt(n1: u128, d1: u128, n2: u128, d2: u128) -> (r: bool)
    ensures
        r == rat_gt_spec(n1, d1, n2, d2),
{
    sp_arithmetic::Rational128::from_unchecked(n1, d1)
        > sp_arithmetic::Rational128::from_unchecked(n2, d2)
}

/// Relies on `PartialEq for sp_arithmetic::Rational128`: equality is by exact
/// (big-integer) cross-multiplication, with equal denominators compared by
/// numerator.
#[verifier::external_body]
fn rational128_eq(n1: u128, d1: u128, n2: u128, d2: u128) -> (r: bool)
    ensures
        r == rat_eq_spec(n1, d1, n2, d2),
{
    sp_arithmetic::Rational128::from_unchecked(n1, d1)
        == sp_arithmetic::Rational128::from_unchecked(n2, d2)
}

impl Rational {
    /// The denominator is positive.
    pub open spec fn wf(self) -> bool {
        self.d >= 1
    }

    /// Build `n / d`, clamping a zero denominator to one.
    pub fn new(n: u128, d: u128) -> (r: Rational)
        ensures
            r.n == n,
            r.d == (if d >= 1 { d } else { 1u128 }),
            r.wf(),
    {
        Rational { n, d: if d >= 1 { d } else { 1 } }
    }

    /// The rational zero.
    pub fn zero() -> (r: Rational)
        ensures
            r.n == 0,
            r.d == 1,
            r.wf(),
    {
        Rational { n: 0, d: 1 }
    }

    /// Exact strict comparison with another rational.
    pub fn gt(&self, other: &Rational) -> (r: bool)
        ensures
            r == rat_gt_spec(self.n, self.d, other.n, other.d),
    {
        rational128_gt(self.n, self.d, other.n, other.d)
    }
}

impl PartialEq for Rational {
    /// Value equality: `5000 / 100` equals `50 / 1`.
    fn eq(&self, other: &Rational) -> (r: bool) {
        rational128_eq(self.n, self.d, other.n, other.d)
    }
}

impl vstd::std_specs::cmp::PartialEqSpecImpl for Rational {
    open spec fn obeys_eq_spec() -> bool {
        true
    }

    open spec fn eq_spec(&self, other: &Rational) -> bool {
        rat_eq_spec(self.n, self.d, other.n, other.d)
    }
}

} // verus!
