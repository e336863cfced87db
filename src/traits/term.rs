use vstd::prelude::*;

use crate::calculus::{evaluate_sum, evaluate_term, sum_evaluable, sum_value, term_evaluable, term_value};
use crate::polynomial::Polynomial;
use crate::term::{fits, Term};

verus! {

/// A type that can be read as a function of x and evaluated.
pub trait TermTrait: Sized {
    /// The value at `x`.
    spec fn value_at(&self, x: int) -> int;

    /// Evaluation at `x` stays within `i64` at every step.
    spec fn evaluable_at(&self, x: int) -> bool;

    /// Sums the terms with respect to a given x.
    fn sum_with_respect_to(&self, x: &i64) -> (r: i64)
        requires
            self.evaluable_at(*x as int),
        ensures
            r == self.value_at(*x as int),
    ;

    /// The value at `upper` minus the value at `lower`.
    fn sum_between(&self, lower: i64, upper: i64) -> (r: i64)
        requires
            self.evaluable_at(lower as int),
            self.evaluable_at(upper as int),
            fits(self.value_at(upper as int) - self.value_at(lower as int)),
        ensures
            r == self.value_at(upper as int) - self.value_at(lower as int),
    {
        self.sum_with_respect_to(&upper) - self.sum_with_respect_to(&lower)
    }
}

impl TermTrait for Term {
    open spec fn value_at(&self, x: int) -> int {
        term_value(*self, x)
    }

    open spec fn evaluable_at(&self, x: int) -> bool {
        term_evaluable(*self, x)
    }

    fn sum_with_respect_to(&self, x: &i64) -> (r: i64) {
        evaluate_term(*self, *x)
    }
}

impl TermTrait for Polynomial {
    open spec fn value_at(&self, x: int) -> int {
        sum_value(self@, x)
    }

    open spec fn evaluable_at(&self, x: int) -> bool {
        sum_evaluable(self@, x)
    }

    fn sum_with_respect_to(&self, x: &i64) -> (r: i64) {
        evaluate_sum(&self.0, *x)
    }
}

impl TermTrait for Vec<Term> {
    open spec fn value_at(&self, x: int) -> int {
        sum_value(self@, x)
    }

    open spec fn evaluable_at(&self, x: int) -> bool {
        sum_evaluable(self@, x)
    }

    fn sum_with_respect_to(&self, x: &i64) -> (r: i64) {
        evaluate_sum(self, *x)
    }
}

} // verus!
