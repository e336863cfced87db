use vstd::arithmetic::power::pow;
use vstd::prelude::*;

use crate::term::{can_divide, fits, quotient, trunc_div, Term};

verus! {

/// `x^e` where that is an integer. A negative power of an integer other than
/// 1 or -1 is not one, and counts as zero, as an undefined value does in a sum.
pub open spec fn power(x: int, e: int) -> int {
    if e >= 0 {
        pow(x, e as nat)
    } else if x == 1 {
        1
    } else if x == -1 {
        if e % 2 == 0 {
            1
        } else {
            -1
        }
    } else {
        0
    }
}

/// The value of `t` at `x`.
pub open spec fn term_value(t: Term, x: int) -> int {
    t.coefficient * power(x, t.exponent as int)
}

/// The value at `x` of the sum of the terms of `s`.
pub open spec fn sum_value(s: Seq<Term>, x: int) -> int
    decreases s.len(),
{
    if s.len() == 0 {
        0
    } else {
        sum_value(s.drop_last(), x) + term_value(s.last(), x)
    }
}

/// `t` can be evaluated at `x` within `i64`.
pub open spec fn term_evaluable(t: Term, x: int) -> bool {
    &&& fits(term_value(t, x))
    &&& t.exponent >= 0 ==> t.exponent <= usize::MAX
}

/// The terms of `s` and each running total of their values at `x` fit in `i64`.
pub open spec fn sum_evaluable(s: Seq<Term>, x: int) -> bool {
    &&& forall|i: int| 0 <= i < s.len() ==> term_evaluable(#[trigger] s[i], x)
    &&& forall|i: int| 0 <= i <= s.len() ==> fits(#[trigger] sum_value(s.take(i), x))
}

/// The power rule: `c·x^e` becomes `(c*e)·x^(e-1)`.
pub open spec fn derived(t: Term) -> Term {
    Term {
        coefficient: (t.coefficient * t.exponent) as i64,
        exponent: (t.exponent - 1) as i64,
    }
}

pub open spec fn can_derive(t: Term) -> bool {
    fits(t.coefficient * t.exponent) && t.exponent > i64::MIN
}

/// The antiderivative rule: `c·x^e` becomes `(c/(e+1))·x^(e+1)`, with the
/// division rounding toward zero. It has no answer at `e == -1`.
pub open spec fn integrated(t: Term) -> Term {
    Term {
        coefficient: trunc_div(t.coefficient as int, t.exponent + 1) as i64,
        exponent: (t.exponent + 1) as i64,
    }
}

pub open spec fn can_integrate(t: Term) -> bool {
    t.exponent < i64::MAX && can_divide(t.coefficient as int, t.exponent + 1)
}

pub open spec fn derived_all(s: Seq<Term>) -> Seq<Term> {
    s.map_values(|t: Term| derived(t))
}

pub open spec fn integrated_all(s: Seq<Term>) -> Seq<Term> {
    s.map_values(|t: Term| integrated(t))
}

pub open spec fn can_derive_all(s: Seq<Term>) -> bool {
    forall|i: int| 0 <= i < s.len() ==> can_derive(#[trigger] s[i])
}

pub open spec fn can_integrate_all(s: Seq<Term>) -> bool {
    forall|i: int| 0 <= i < s.len() ==> can_integrate(#[trigger] s[i])
}

/// Relies on num_traits::checked_pow: `base` raised to `exp`, or `None` where
/// the power overflows.
#[verifier::external_body]
fn checked_power(base: i128, exp: usize) -> (r: Option<i128>)
    ensures
        r == (if i128::MIN <= pow(base as int, exp as nat) <= i128::MAX {
            Some(pow(base as int, exp as nat) as i128)
        } else {
            None::<i128>
        }),
{
    num_traits::checked_pow(base, exp)
}

proof fn lemma_power_bounded_by_term(c: int, p: int)
    requires
        c != 0,
        fits(c * p),
    ensures
        -0x8000_0000_0000_0000 <= p <= 0x8000_0000_0000_0000,
{
    assert(-0x8000_0000_0000_0000 <= p <= 0x8000_0000_0000_0000) by (nonlinear_arith)
        requires
            c != 0,
            -0x8000_0000_0000_0000 <= c * p <= 0x7fff_ffff_ffff_ffff,
    ;
}

/// The value of `t` at `x`.
pub fn evaluate_term(t: Term, x: i64) -> (r: i64)
    requires
        term_evaluable(t, x as int),
    ensures
        r == term_value(t, x as int),
{
    if t.coefficient == 0 {
        return 0;
    }
    let p: i128 = if t.exponent >= 0 {
        proof {
            lemma_power_bounded_by_term(t.coefficient as int, power(x as int, t.exponent as int));
        }
        match checked_power(x as i128, t.exponent as usize) {
            Some(p) => p,
            None => 0,
        }
    } else if x == 1 {
        1
    } else if x == -1 {
        if t.exponent.checked_rem(2) == Some(0i64) {
            1
        } else {
            -1
        }
    } else {
        0
    };
    (t.coefficient as i128 * p) as i64
}

/// The value at `x` of the sum of the terms of `s`.
pub fn evaluate_sum(s: &Vec<Term>, x: i64) -> (r: i64)
    requires
        sum_evaluable(s@, x as int),
    ensures
        r == sum_value(s@, x as int),
{
    let mut total: i64 = 0;
    let mut i: usize = 0;
    assert(s@.take(0) =~= Seq::<Term>::empty());
    while i < s.len()
        invariant
            sum_evaluable(s@, x as int),
            i <= s@.len(),
            total == sum_value(s@.take(i as int), x as int),
        decreases s@.len() - i,
    {
        let v = evaluate_term(s[i], x);
        assert(s@.take(i + 1).drop_last() =~= s@.take(i as int));
        assert(fits(sum_value(s@.take(i + 1), x as int)));
        total = total + v;
        i = i + 1;
    }
    assert(s@.take(i as int) =~= s@);
    total
}

/// The derivative of one term.
pub fn derive_term(t: Term) -> (r: Term)
    requires
        can_derive(t),
    ensures
        r == derived(t),
{
    Term::new(t.coefficient * t.exponent, t.exponent - 1)
}

/// The antiderivative of one term.
pub fn integrate_term(t: Term) -> (r: Term)
    requires
        can_integrate(t),
    ensures
        r == integrated(t),
{
    let exponent = t.exponent + 1;
    Term::new(quotient(t.coefficient, exponent), exponent)
}

pub fn derive_each(s: &Vec<Term>) -> (r: Vec<Term>)
    requires
        can_derive_all(s@),
    ensures
        r@ == derived_all(s@),
{
    let mut r: Vec<Term> = Vec::with_capacity(s.len());
    let mut i: usize = 0;
    while i < s.len()
        invariant
            can_derive_all(s@),
            i <= s@.len(),
            r@ =~= derived_all(s@.take(i as int)),
        decreases s@.len() - i,
    {
        r.push(derive_term(s[i]));
        i = i + 1;
        assert(derived_all(s@.take(i as int)) =~= derived_all(s@.take(i - 1)).push(
            derived(s@[i - 1]),
        ));
    }
    assert(s@.take(i as int) =~= s@);
    r
}

pub fn integrate_each(s: &Vec<Term>) -> (r: Vec<Term>)
    requires
        can_integrate_all(s@),
    ensures
        r@ == integrated_all(s@),
{
    let mut r: Vec<Term> = Vec::with_capacity(s.len());
    let mut i: usize = 0;
    while i < s.len()
        invariant
            can_integrate_all(s@),
            i <= s@.len(),
            r@ =~= integrated_all(s@.take(i as int)),
        decreases s@.len() - i,
    {
        r.push(integrate_term(s[i]));
        i = i + 1;
        assert(integrated_all(s@.take(i as int)) =~= integrated_all(s@.take(i - 1)).push(
            integrated(s@[i - 1]),
        ));
    }
    assert(s@.take(i as int) =~= s@);
    r
}

} // verus!
