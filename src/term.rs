use vstd::arithmetic::div_mod::lemma_div_by_multiple;
use vstd::prelude::*;

verus! {

/// Whether a mathematical integer can be held in an `i64`.
pub open spec fn fits(v: int) -> bool {
    i64::MIN <= v <= i64::MAX
}

/// The absolute value of `v`.
pub open spec fn abs(v: int) -> int {
    if v < 0 { -v } else { v }
}

/// Integer division rounding toward zero, as `i64` division does.
pub open spec fn trunc_div(a: int, b: int) -> int {
    if (a < 0) == (b < 0) { abs(a) / abs(b) } else { -(abs(a) / abs(b)) }
}

/// Whether `a / b` is defined on `i64`: no division by zero and no overflow.
pub open spec fn can_divide(a: int, b: int) -> bool {
    b != 0 && !(a == i64::MIN && b == -1)
}

/// `a / b` on `i64`, rounding toward zero.
pub fn quotient(a: i64, b: i64) -> (r: i64)
    requires
        can_divide(a as int, b as int),
    ensures
        r == trunc_div(a as int, b as int),
{
    // The quotient is no larger in magnitude than `a`, so it fits.
    proof {
        let (x, d) = (abs(a as int), abs(b as int));
        assert(0 <= x / d <= x) by (nonlinear_arith)
            requires x >= 0, d >= 1;
        if x / d == x && x == 0x8000_0000_0000_0000 {
            assert(d == 1) by (nonlinear_arith)
                requires x / d == x, x > 0, d >= 1;
        }
    }
    match a.checked_div(b) {
        Some(q) => q,
        None => 0,
    }
}

/// Multiplying by a non-zero `k` and then dividing by it, both rounding
/// toward zero, gives back the same integer.
pub proof fn lemma_trunc_div_of_multiple(c: int, k: int)
    requires
        k != 0,
    ensures
        trunc_div(c * k, k) == c,
{
    assert(abs(c * k) == abs(c) * abs(k)) by (nonlinear_arith);
    lemma_div_by_multiple(abs(c), abs(k));
    assert(((c * k) < 0) == ((c < 0) != (k < 0)) || c == 0) by (nonlinear_arith)
        requires
            k != 0,
    ;
    if c == 0 {
        assert(c * k == 0);
    }
}

/// One monomial, `coefficient * x^exponent`.
#[derive(Clone, Copy, Debug, PartialEq, Eq, Structural)]
pub struct Term {
    /// The number that x is multiplied by in the term
    pub coefficient: i64,
    /// The number that x is raised by in the term
    pub exponent: i64,
}

impl Term {
    /// The product of two monomials: coefficients multiply, exponents add.
    pub open spec fn times(self, rhs: Term) -> Term {
        Term {
            coefficient: (self.coefficient * rhs.coefficient) as i64,
            exponent: (self.exponent + rhs.exponent) as i64,
        }
    }

    pub open spec fn can_times(self, rhs: Term) -> bool {
        fits(self.coefficient * rhs.coefficient) && fits(self.exponent + rhs.exponent)
    }

    /// The quotient of two monomials: coefficients divide, exponents subtract.
    pub open spec fn over(self, rhs: Term) -> Term {
        Term {
            coefficient: trunc_div(self.coefficient as int, rhs.coefficient as int) as i64,
            exponent: (self.exponent - rhs.exponent) as i64,
        }
    }

    pub open spec fn can_over(self, rhs: Term) -> bool {
        can_divide(self.coefficient as int, rhs.coefficient as int) && fits(
            self.exponent - rhs.exponent,
        )
    }

    /// The monomial with its coefficient multiplied by `k`.
    pub open spec fn scaled(self, k: int) -> Term {
        Term { coefficient: (self.coefficient * k) as i64, exponent: self.exponent }
    }

    /// The monomial with its coefficient divided by `k`.
    pub open spec fn shrunk(self, k: int) -> Term {
        Term {
            coefficient: trunc_div(self.coefficient as int, k) as i64,
            exponent: self.exponent,
        }
    }

    pub open spec fn negated(self) -> Term {
        Term { coefficient: (-self.coefficient) as i64, exponent: self.exponent }
    }

    /// Constructs a new term based off a given coefficient and exponent.
    pub fn new(coefficient: i64, exponent: i64) -> (r: Term)
        ensures
            r.coefficient == coefficient,
            r.exponent == exponent,
    {
        Term { coefficient, exponent }
    }

    /// `(c1·x^e1) * (c2·x^e2) = (c1*c2)·x^(e1+e2)`.
    pub fn mul(self, rhs: Term) -> (r: Term)
        requires
            self.can_times(rhs),
        ensures
            r == self.times(rhs),
    {
        Term::new(self.coefficient * rhs.coefficient, self.exponent + rhs.exponent)
    }

    pub fn mul_assign(&mut self, rhs: Term)
        requires
            old(self).can_times(rhs),
        ensures
            *final(self) == old(self).times(rhs),
    {
        *self = self.mul(rhs);
    }

    /// Multiplies the coefficient by `k`.
    pub fn mul_scalar(self, k: i64) -> (r: Term)
        requires
            fits(self.coefficient * k),
        ensures
            r == self.scaled(k as int),
    {
        Term::new(self.coefficient * k, self.exponent)
    }

    pub fn mul_assign_scalar(&mut self, k: i64)
        requires
            fits(old(self).coefficient * k),
        ensures
            *final(self) == old(self).scaled(k as int),
    {
        *self = self.mul_scalar(k);
    }

    /// `(c1·x^e1) / (c2·x^e2) = (c1/c2)·x^(e1-e2)`, rounding toward zero.
    pub fn div(self, rhs: Term) -> (r: Term)
        requires
            self.can_over(rhs),
        ensures
            r == self.over(rhs),
    {
        Term::new(quotient(self.coefficient, rhs.coefficient), self.exponent - rhs.exponent)
    }

    pub fn div_assign(&mut self, rhs: Term)
        requires
            old(self).can_over(rhs),
        ensures
            *final(self) == old(self).over(rhs),
    {
        *self = self.div(rhs);
    }

    /// Divides the coefficient by `k`, rounding toward zero.
    pub fn div_scalar(self, k: i64) -> (r: Term)
        requires
            can_divide(self.coefficient as int, k as int),
        ensures
            r == self.shrunk(k as int),
    {
        Term::new(quotient(self.coefficient, k), self.exponent)
    }

    pub fn div_assign_scalar(&mut self, k: i64)
        requires
            can_divide(old(self).coefficient as int, k as int),
        ensures
            *final(self) == old(self).shrunk(k as int),
    {
        *self = self.div_scalar(k);
    }

    /// Flips the sign of the coefficient.
    pub fn neg(self) -> (r: Term)
        requires
            self.coefficient != i64::MIN,
        ensures
            r == self.negated(),
    {
        Term::new(-self.coefficient, self.exponent)
    }
}

} // verus!
