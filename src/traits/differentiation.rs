use vstd::prelude::*;

use crate::calculus::{
    can_derive, can_derive_all, derive_each, derive_term, derived, derived_all, sum_evaluable,
    sum_value, term_evaluable, term_value,
};
use crate::polynomial::Polynomial;
use crate::term::Term;
use crate::traits::TermTrait;

verus! {

/// Term-wise differentiation by the power rule.
pub trait Differentiation: TermTrait {
    /// The power rule applies to every term without overflow.
    spec fn differentiable(&self) -> bool;

    /// `self` is the derivative of `source`.
    spec fn is_derivative_of(&self, source: &Self) -> bool;

    /// The value of the derivative at `x`.
    spec fn slope_at(&self, x: int) -> int;

    /// The derivative can be evaluated at `x` within `i64`.
    spec fn slope_evaluable_at(&self, x: int) -> bool;

    /// The derivative, evaluated at a given x.
    fn differentiate(&self, x: &i64) -> (r: i64)
        requires
            self.differentiable(),
            self.slope_evaluable_at(*x as int),
        ensures
            r == self.slope_at(*x as int),
    ;

    /// Differentiates a copy of self, and returns the copy.
    fn differentiate_self(&self) -> (r: Self)
        requires
            self.differentiable(),
        ensures
            r.is_derivative_of(self),
    ;
}

impl Differentiation for Term {
    open spec fn differentiable(&self) -> bool {
        can_derive(*self)
    }

    open spec fn is_derivative_of(&self, source: &Term) -> bool {
        *self == derived(*source)
    }

    open spec fn slope_at(&self, x: int) -> int {
        term_value(derived(*self), x)
    }

    open spec fn slope_evaluable_at(&self, x: int) -> bool {
        term_evaluable(derived(*self), x)
    }

    fn differentiate(&self, x: &i64) -> (r: i64) {
        derive_term(*self).sum_with_respect_to(x)
    }

    fn differentiate_self(&self) -> (r: Term) {
        derive_term(*self)
    }
}

impl Differentiation for Polynomial {
    open spec fn differentiable(&self) -> bool {
        can_derive_all(self@)
    }

    open spec fn is_derivative_of(&self, source: &Polynomial) -> bool {
        self@ == derived_all(source@)
    }

    open spec fn slope_at(&self, x: int) -> int {
        sum_value(derived_all(self@), x)
    }

    open spec fn slope_evaluable_at(&self, x: int) -> bool {
        sum_evaluable(derived_all(self@), x)
    }

    fn differentiate(&self, x: &i64) -> (r: i64) {
        self.differentiate_self().sum_with_respect_to(x)
    }

    fn differentiate_self(&self) -> (r: Polynomial) {
        Polynomial(derive_each(&self.0))
    }
}

impl Differentiation for Vec<Term> {
    open spec fn differentiable(&self) -> bool {
        can_derive_all(self@)
    }

    open spec fn is_derivative_of(&self, source: &Vec<Term>) -> bool {
        self@ == derived_all(source@)
    }

    open spec fn slope_at(&self, x: int) -> int {
        sum_value(derived_all(self@), x)
    }

    open spec fn slope_evaluable_at(&self, x: int) -> bool {
        sum_evaluable(derived_all(self@), x)
    }

    fn differentiate(&self, x: &i64) -> (r: i64) {
        self.differentiate_self().sum_with_respect_to(x)
    }

    fn differentiate_self(&self) -> (r: Vec<Term>) {
        derive_each(self)
    }
}

} // verus!
