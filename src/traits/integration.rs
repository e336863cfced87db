use vstd::prelude::*;

use crate::calculus::{
    can_integrate, can_integrate_all, integrate_each, integrate_term, integrated, integrated_all,
    sum_evaluable, sum_value, term_evaluable, term_value,
};
use crate::polynomial::Polynomial;
use crate::term::{fits, Term};
use crate::traits::TermTrait;

verus! {

/// Term-wise integration by the power rule.
pub trait Integration: TermTrait {
    /// The antiderivative rule applies to every term: no exponent is -1 and
    /// nothing overflows.
    spec fn integrable(&self) -> bool;

    /// `self` is the antiderivative of `source`, without a constant.
    spec fn is_integral_of(&self, source: &Self) -> bool;

    /// The value of the antiderivative at `x`.
    spec fn area_to(&self, x: int) -> int;

    /// The antiderivative can be evaluated at `x` within `i64`.
    spec fn area_evaluable_at(&self, x: int) -> bool;

    /// Integrates a copy of self, and returns the copy.
    fn integrate_self(&self) -> (r: Self)
        requires
            self.integrable(),
        ensures
            r.is_integral_of(self),
    ;

    /// The definite integral from `lower` to `upper`.
    fn integrate(&self, lower: i64, upper: i64) -> (r: i64)
        requires
            self.integrable(),
            self.area_evaluable_at(lower as int),
            self.area_evaluable_at(upper as int),
            fits(self.area_to(upper as int) - self.area_to(lower as int)),
        ensures
            r == self.area_to(upper as int) - self.area_to(lower as int),
    ;
}

impl Integration for Term {
    open spec fn integrable(&self) -> bool {
        can_integrate(*self)
    }

    open spec fn is_integral_of(&self, source: &Term) -> bool {
        *self == integrated(*source)
    }

    open spec fn area_to(&self, x: int) -> int {
        term_value(integrated(*self), x)
    }

    open spec fn area_evaluable_at(&self, x: int) -> bool {
        term_evaluable(integrated(*self), x)
    }

    fn integrate_self(&self) -> (r: Term) {
        integrate_term(*self)
    }

    fn integrate(&self, lower: i64, upper: i64) -> (r: i64) {
        self.integrate_self().sum_between(lower, upper)
    }
}

impl Integration for Polynomial {
    open spec fn integrable(&self) -> bool {
        can_integrate_all(self@)
    }

    open spec fn is_integral_of(&self, source: &Polynomial) -> bool {
        self@ == integrated_all(source@)
    }

    open spec fn area_to(&self, x: int) -> int {
        sum_value(integrated_all(self@), x)
    }

    open spec fn area_evaluable_at(&self, x: int) -> bool {
        sum_evaluable(integrated_all(self@), x)
    }

    fn integrate_self(&self) -> (r: Polynomial) {
        Polynomial(integrate_each(&self.0))
    }

    fn integrate(&self, lower: i64, upper: i64) -> (r: i64) {
        self.integrate_self().sum_between(lower, upper)
    }
}

impl Integration for Vec<Term> {
    open spec fn integrable(&self) -> bool {
        can_integrate_all(self@)
    }

    open spec fn is_integral_of(&self, source: &Vec<Term>) -> bool {
        self@ == integrated_all(source@)
    }

    open spec fn area_to(&self, x: int) -> int {
        sum_value(integrated_all(self@), x)
    }

    open spec fn area_evaluable_at(&self, x: int) -> bool {
        sum_evaluable(integrated_all(self@), x)
    }

    fn integrate_self(&self) -> (r: Vec<Term>) {
        integrate_each(self)
    }

    fn integrate(&self, lower: i64, upper: i64) -> (r: i64) {
        self.integrate_self().sum_between(lower, upper)
    }
}

} // verus!
