use vstd::prelude::*;

use crate::calculus::{
    can_integrate, can_integrate_all, evaluate_sum, evaluate_term, integrate_each, integrate_term,
    integrated, integrated_all, sum_evaluable, sum_value, term_evaluable, term_value,
};
use crate::term::{fits, Term};

verus! {

/// Integration of a single term or a bare list of terms.
pub trait Intergration: Sized {
    /// The antiderivative rule applies to every term.
    spec fn intergrable(&self) -> bool;

    /// `self` is the antiderivative of `source`, without a constant.
    spec fn is_intergral_of(&self, source: &Self) -> bool;

    /// The value of the antiderivative at `x`.
    spec fn intergral_at(&self, x: int) -> int;

    /// The antiderivative can be evaluated at `x` within `i64`.
    spec fn intergral_evaluable_at(&self, x: int) -> bool;

    /// Intergrates a copy of self, and returns the copy.
    fn intergrated_self(&self) -> (r: Self)
        requires
            self.intergrable(),
        ensures
            r.is_intergral_of(self),
    ;

    /// The definite integral from `lower` to `upper`.
    fn intergrate(&self, lower: i64, upper: i64) -> (r: i64)
        requires
            self.intergrable(),
            self.intergral_evaluable_at(lower as int),
            self.intergral_evaluable_at(upper as int),
            fits(self.intergral_at(upper as int) - self.intergral_at(lower as int)),
        ensures
            r == self.intergral_at(upper as int) - self.intergral_at(lower as int),
    ;
}

impl Intergration for Term {
    open spec fn intergrable(&self) -> bool {
        can_integrate(*self)
    }

    open spec fn is_intergral_of(&self, source: &Term) -> bool {
        *self == integrated(*source)
    }

    open spec fn intergral_at(&self, x: int) -> int {
        term_value(integrated(*self), x)
    }

    open spec fn intergral_evaluable_at(&self, x: int) -> bool {
        term_evaluable(integrated(*self), x)
    }

    fn intergrated_self(&self) -> (r: Term) {
        integrate_term(*self)
    }

    fn intergrate(&self, lower: i64, upper: i64) -> (r: i64) {
        let antiderivative = integrate_term(*self);
        evaluate_term(antiderivative, upper) - evaluate_term(antiderivative, lower)
    }
}

impl Intergration for Vec<Term> {
    open spec fn intergrable(&self) -> bool {
        can_integrate_all(self@)
    }

    open spec fn is_intergral_of(&self, source: &Vec<Term>) -> bool {
        self@ == integrated_all(source@)
    }

    open spec fn intergral_at(&self, x: int) -> int {
        sum_value(integrated_all(self@), x)
    }

    open spec fn intergral_evaluable_at(&self, x: int) -> bool {
        sum_evaluable(integrated_all(self@), x)
    }

    fn intergrated_self(&self) -> (r: Vec<Term>) {
        integrate_each(self)
    }

    fn intergrate(&self, lower: i64, upper: i64) -> (r: i64) {
        let antiderivative = integrate_each(self);
        evaluate_sum(&antiderivative, upper) - evaluate_sum(&antiderivative, lower)
    }
}

} // verus!
