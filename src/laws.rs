//! Laws that relate the library's operations to one another.
use vstd::prelude::*;

use crate::calculus::{
    can_derive, can_derive_all, can_integrate, can_integrate_all, derived, derived_all,
    integrated, integrated_all,
};
use crate::convolution::{
    lemma_coeff_cross, lemma_conv_commutes, lemma_conv_congruent, lemma_conv_gap,
    lemma_conv_gap_top, lemma_top_difference,
};
use crate::model::{
    coeff, is_normal_form_of, lemma_canonical_unique, lemma_coeff_absent, same_sum,
};
use crate::polynomial::{
    can_cross, can_scale_all, can_shrink_all, cross, divides_with, scaled_all, shrunk_all,
};
use crate::term::{can_divide, fits, lemma_trunc_div_of_multiple, Term};
use crate::traits::TermTrait;

verus! {

/// Simplifying an already simplified polynomial changes nothing: the normal
/// form of a normal form is itself.
pub proof fn lemma_simplify_idempotent(p: Seq<Term>, once: Seq<Term>, twice: Seq<Term>)
    requires
        is_normal_form_of(once, p),
        is_normal_form_of(twice, once),
    ensures
        twice == once,
{
    lemma_canonical_unique(twice, once);
}

/// Multiplying every coefficient by a non-zero scalar and then dividing by it
/// gives back the same polynomial, term for term.
pub proof fn lemma_scale_round_trip(p: Seq<Term>, k: int)
    requires
        k != 0,
        can_scale_all(p, k),
    ensures
        can_shrink_all(scaled_all(p, k), k),
        shrunk_all(scaled_all(p, k), k) == p,
{
    let scaled = scaled_all(p, k);
    assert forall|i: int| 0 <= i < scaled.len() implies can_divide(
        #[trigger] scaled[i].coefficient as int,
        k,
    ) by {
        assert(fits(p[i].coefficient * k));
        if k == -1 {
            assert(p[i].coefficient * k == -p[i].coefficient);
        }
    }
    assert forall|i: int| 0 <= i < p.len() implies #[trigger] shrunk_all(scaled, k)[i] == p[i] by {
        assert(fits(p[i].coefficient * k));
        lemma_trunc_div_of_multiple(p[i].coefficient as int, k);
    }
    assert(shrunk_all(scaled, k) =~= p);
}

/// The derivative of `c·x^e` is `(c*e)·x^(e-1)`.
pub proof fn lemma_power_rule(c: i64, e: i64)
    requires
        can_derive(Term { coefficient: c, exponent: e }),
    ensures
        derived(Term { coefficient: c, exponent: e }) == (Term {
            coefficient: (c * e) as i64,
            exponent: (e - 1) as i64,
        }),
{
}

/// Differentiation loses the constant term: adding a constant to a
/// polynomial does not change its derivative, so no integration of the
/// derivative can recover it.
pub proof fn lemma_constant_lost(p: Seq<Term>, c: i64)
    ensures
        same_sum(derived_all(p.push(Term { coefficient: c, exponent: 0 })), derived_all(p)),
{
    let constant = Term { coefficient: c, exponent: 0 };
    let with = derived_all(p.push(constant));
    assert(with.drop_last() =~= derived_all(p));
    assert(with.last() == derived(constant));
    assert(c * 0 == 0);
    assert(with.last().coefficient == 0);
    assert forall|e: int| #[trigger] coeff(with, e) == coeff(derived_all(p), e) by {
        assert(coeff(with, e) == coeff(with.drop_last(), e) + if with.last().exponent == e {
            with.last().coefficient as int
        } else {
            0
        });
    }
}

/// Integration undoes differentiation on every term but a constant one, whose
/// derivative is zero; on a polynomial without a constant term it gives back
/// the polynomial itself.
pub proof fn lemma_integral_of_derivative(p: Seq<Term>)
    requires
        can_derive_all(p),
    ensures
        forall|i: int|
            0 <= i < p.len() && p[i].exponent != 0 ==> can_integrate(derived(#[trigger] p[i]))
                && integrated(derived(p[i])) == p[i],
        forall|i: int| 0 <= i < p.len() && p[i].exponent == 0 ==> derived(#[trigger] p[i]).coefficient == 0,
        (forall|i: int| 0 <= i < p.len() ==> #[trigger] p[i].exponent != 0) ==> can_integrate_all(
            derived_all(p),
        ) && integrated_all(derived_all(p)) == p,
{
    assert forall|i: int| 0 <= i < p.len() && p[i].exponent != 0 implies can_integrate(
        derived(#[trigger] p[i]),
    ) && integrated(derived(p[i])) == p[i] by {
        let (c, e) = (p[i].coefficient as int, p[i].exponent as int);
        assert(can_derive(p[i]));
        lemma_trunc_div_of_multiple(c, e);
        assert(c * e == e * c) by (nonlinear_arith);
        if e == -1 {
            assert(c * e == -c);
        }
    }
    if forall|i: int| 0 <= i < p.len() ==> #[trigger] p[i].exponent != 0 {
        assert(integrated_all(derived_all(p)) =~= p);
    }
}

/// Long division is exact on a product: dividing `q * r` by `q` gives the
/// canonical form of `r`, whenever `r` has no negative exponent and no
/// product of their terms overflows.
pub proof fn lemma_division_exact(
    q: Seq<Term>,
    r: Seq<Term>,
    d: Seq<Term>,
    quotient: Seq<Term>,
    rem: Seq<Term>,
)
    requires
        can_cross(q, r),
        forall|i: int| 0 <= i < r.len() ==> #[trigger] r[i].exponent >= 0,
        is_normal_form_of(d, q),
        divides_with(cross(q, r), d, quotient, rem),
    ensures
        is_normal_form_of(quotient, r),
{
    if !same_sum(r, quotient) {
        let k = lemma_top_difference(r, quotient);
        let s = r + quotient;
        let w = choose|i: int| 0 <= i < s.len() && #[trigger] s[i].exponent == k;
        if w < r.len() {
            assert(s[w] == r[w]);
        } else {
            assert(s[w] == quotient[w - r.len()]);
        }
        assert(k >= 0);
        let m = d[0].exponent as int;
        let e = k + m;
        // The remainder has nothing at `e`, which is at least the divisor's degree.
        assert forall|i: int| 0 <= i < rem.len() implies rem[i].exponent != e by {
            if i > 0 {
                assert(rem[0].exponent > rem[i].exponent);
            }
        }
        lemma_coeff_absent(rem, e);
        // So `d * r` and `d * quotient` agree at `e`.
        lemma_coeff_cross(q, r, e);
        lemma_conv_commutes(q, r, e);
        lemma_conv_congruent(r, q, d, e);
        lemma_conv_commutes(r, d, e);
        lemma_coeff_cross(quotient, d, e);
        lemma_conv_commutes(quotient, d, e);
        lemma_conv_gap(d, r, quotient, e);
        // Yet there only the leading terms meet, and their product is not zero.
        lemma_conv_gap_top(d, r, quotient, k);
        let (lead, gap) = (d[0].coefficient as int, coeff(r, k) - coeff(quotient, k));
        assert(lead != 0);
        assert(lead * gap != 0) by (nonlinear_arith)
            requires
                lead != 0,
                gap != 0,
        ;
        assert(false);
    }
    assert forall|x: int| #[trigger] coeff(quotient, x) == coeff(r, x) by {}
}

/// Evaluating between two bounds and between the same bounds swapped give
/// opposite results.
pub proof fn lemma_sum_between_antisymmetric<F: TermTrait>(f: &F, a: int, b: int)
    ensures
        f.value_at(b) - f.value_at(a) == -(f.value_at(a) - f.value_at(b)),
{
}

} // verus!
