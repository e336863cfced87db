use vstd::prelude::*;

use crate::model::{
    coeff, is_canonical, is_normal_form_of, lemma_coeff_absent,
    lemma_canonical_unique, lemma_coeff_canonical, lemma_coeff_concat, lemma_coeff_single,
    lemma_signed_coeff_bound, lemma_signed_coeff_split, lemma_signed_coeff_unsigned, same_sum,
    signed_coeff, sums_fit,
};
use crate::convolution::{
    conv_gap, lemma_coeff_cross, lemma_conv_commutes, lemma_conv_congruent, lemma_conv_gap,
    lemma_conv_gap_above, lemma_conv_gap_top, lemma_top_difference,
};
use crate::term::{can_divide, fits, lemma_trunc_div_of_multiple, trunc_div, Term};

verus! {

/// Each term of `s` multiplied by `t`.
pub open spec fn times_all(s: Seq<Term>, t: Term) -> Seq<Term> {
    s.map_values(|x: Term| x.times(t))
}

/// `t` multiplied by each term of `s`.
pub open spec fn left_times_all(t: Term, s: Seq<Term>) -> Seq<Term> {
    s.map_values(|x: Term| t.times(x))
}

/// Each term of `s` divided by `t`.
pub open spec fn over_all(s: Seq<Term>, t: Term) -> Seq<Term> {
    s.map_values(|x: Term| x.over(t))
}

/// Each coefficient of `s` multiplied by `k`.
pub open spec fn scaled_all(s: Seq<Term>, k: int) -> Seq<Term> {
    s.map_values(|x: Term| x.scaled(k))
}

/// Each coefficient of `s` divided by `k`, rounding toward zero.
pub open spec fn shrunk_all(s: Seq<Term>, k: int) -> Seq<Term> {
    s.map_values(|x: Term| x.shrunk(k))
}

/// Each term of `s` with its coefficient's sign flipped.
pub open spec fn negated_all(s: Seq<Term>) -> Seq<Term> {
    s.map_values(|x: Term| x.negated())
}

/// Every product of a term of `a` with a term of `b`, row by row.
pub open spec fn cross(a: Seq<Term>, b: Seq<Term>) -> Seq<Term>
    decreases a.len(),
{
    if a.len() == 0 {
        Seq::empty()
    } else {
        cross(a.drop_last(), b) + left_times_all(a.last(), b)
    }
}

/// No product of a term of `s` with `t` overflows.
pub open spec fn can_times_all(s: Seq<Term>, t: Term) -> bool {
    forall|i: int| 0 <= i < s.len() ==> #[trigger] s[i].can_times(t)
}

/// No product of a term of `a` with a term of `b` overflows.
pub open spec fn can_cross(a: Seq<Term>, b: Seq<Term>) -> bool {
    forall|i: int, j: int| 0 <= i < a.len() && 0 <= j < b.len() ==> #[trigger] a[i].can_times(b[j])
}

/// Every term of `s` can be divided by `t` within `i64`.
pub open spec fn can_over_all(s: Seq<Term>, t: Term) -> bool {
    forall|i: int| 0 <= i < s.len() ==> #[trigger] s[i].can_over(t)
}

/// Every coefficient of `s` times `k` fits in an `i64`.
pub open spec fn can_scale_all(s: Seq<Term>, k: int) -> bool {
    forall|i: int| 0 <= i < s.len() ==> fits(#[trigger] s[i].coefficient * k)
}

/// Every coefficient of `s` can be divided by `k` within `i64`.
pub open spec fn can_shrink_all(s: Seq<Term>, k: int) -> bool {
    forall|i: int| 0 <= i < s.len() ==> can_divide(#[trigger] s[i].coefficient as int, k)
}

/// Every coefficient of `s` can be negated within `i64`.
pub open spec fn can_negate_all(s: Seq<Term>) -> bool {
    forall|i: int| 0 <= i < s.len() ==> #[trigger] s[i].coefficient != i64::MIN
}

fn times_each(s: &Vec<Term>, t: Term) -> (r: Vec<Term>)
    requires
        can_times_all(s@, t),
    ensures
        r@ == times_all(s@, t),
{
    let mut r: Vec<Term> = Vec::with_capacity(s.len());
    let mut i: usize = 0;
    while i < s.len()
        invariant
            can_times_all(s@, t),
            i <= s@.len(),
            r@ =~= times_all(s@.take(i as int), t),
        decreases s@.len() - i,
    {
        r.push(s[i].mul(t));
        i = i + 1;
        assert(times_all(s@.take(i as int), t) =~= times_all(s@.take(i - 1), t).push(s@[i - 1].times(t)));
    }
    assert(s@.take(i as int) =~= s@);
    r
}

fn left_times_each(t: Term, s: &Vec<Term>) -> (r: Vec<Term>)
    requires
        forall|i: int| 0 <= i < s@.len() ==> #[trigger] t.can_times(s@[i]),
    ensures
        r@ == left_times_all(t, s@),
{
    let mut r: Vec<Term> = Vec::with_capacity(s.len());
    let mut i: usize = 0;
    while i < s.len()
        invariant
            forall|i: int| 0 <= i < s@.len() ==> #[trigger] t.can_times(s@[i]),
            i <= s@.len(),
            r@ =~= left_times_all(t, s@.take(i as int)),
        decreases s@.len() - i,
    {
        r.push(t.mul(s[i]));
        i = i + 1;
        assert(left_times_all(t, s@.take(i as int)) =~= left_times_all(t, s@.take(i - 1)).push(t.times(s@[i - 1])));
    }
    assert(s@.take(i as int) =~= s@);
    r
}

fn over_each(s: &Vec<Term>, t: Term) -> (r: Vec<Term>)
    requires
        can_over_all(s@, t),
    ensures
        r@ == over_all(s@, t),
{
    let mut r: Vec<Term> = Vec::with_capacity(s.len());
    let mut i: usize = 0;
    while i < s.len()
        invariant
            can_over_all(s@, t),
            i <= s@.len(),
            r@ =~= over_all(s@.take(i as int), t),
        decreases s@.len() - i,
    {
        r.push(s[i].div(t));
        i = i + 1;
        assert(over_all(s@.take(i as int), t) =~= over_all(s@.take(i - 1), t).push(s@[i - 1].over(t)));
    }
    assert(s@.take(i as int) =~= s@);
    r
}

fn scale_each(s: &Vec<Term>, k: i64) -> (r: Vec<Term>)
    requires
        can_scale_all(s@, k as int),
    ensures
        r@ == scaled_all(s@, k as int),
{
    let mut r: Vec<Term> = Vec::with_capacity(s.len());
    let mut i: usize = 0;
    while i < s.len()
        invariant
            can_scale_all(s@, k as int),
            i <= s@.len(),
            r@ =~= scaled_all(s@.take(i as int), k as int),
        decreases s@.len() - i,
    {
        r.push(s[i].mul_scalar(k));
        i = i + 1;
        assert(scaled_all(s@.take(i as int), k as int) =~= scaled_all(s@.take(i - 1), k as int).push(s@[i - 1].scaled(k as int)));
    }
    assert(s@.take(i as int) =~= s@);
    r
}

fn shrink_each(s: &Vec<Term>, k: i64) -> (r: Vec<Term>)
    requires
        can_shrink_all(s@, k as int),
    ensures
        r@ == shrunk_all(s@, k as int),
{
    let mut r: Vec<Term> = Vec::with_capacity(s.len());
    let mut i: usize = 0;
    while i < s.len()
        invariant
            can_shrink_all(s@, k as int),
            i <= s@.len(),
            r@ =~= shrunk_all(s@.take(i as int), k as int),
        decreases s@.len() - i,
    {
        r.push(s[i].div_scalar(k));
        i = i + 1;
        assert(shrunk_all(s@.take(i as int), k as int) =~= shrunk_all(s@.take(i - 1), k as int).push(s@[i - 1].shrunk(k as int)));
    }
    assert(s@.take(i as int) =~= s@);
    r
}

fn negate_each(s: &Vec<Term>) -> (r: Vec<Term>)
    requires
        can_negate_all(s@),
    ensures
        r@ == negated_all(s@),
{
    let mut r: Vec<Term> = Vec::with_capacity(s.len());
    let mut i: usize = 0;
    while i < s.len()
        invariant
            can_negate_all(s@),
            i <= s@.len(),
            r@ =~= negated_all(s@.take(i as int)),
        decreases s@.len() - i,
    {
        r.push(s[i].neg());
        i = i + 1;
        assert(negated_all(s@.take(i as int)) =~= negated_all(s@.take(i - 1)).push(s@[i - 1].negated()));
    }
    assert(s@.take(i as int) =~= s@);
    r
}

fn cross_each(a: &Vec<Term>, b: &Vec<Term>) -> (r: Vec<Term>)
    requires
        can_cross(a@, b@),
    ensures
        r@ == cross(a@, b@),
{
    let mut r: Vec<Term> = Vec::new();
    let mut i: usize = 0;
    while i < a.len()
        invariant
            can_cross(a@, b@),
            i <= a@.len(),
            r@ == cross(a@.take(i as int), b@),
        decreases a@.len() - i,
    {
        let mut row = left_times_each(a[i], b);
        r.append(&mut row);
        i = i + 1;
        assert(a@.take(i as int).drop_last() =~= a@.take(i - 1));
    }
    assert(a@.take(i as int) =~= a@);
    r
}

/// `t` multiplied by each term of `s`, or `None` where a product overflows.
fn try_row(t: Term, s: &Vec<Term>) -> (r: Option<Vec<Term>>)
    ensures
        r is Some <==> forall|i: int| 0 <= i < s@.len() ==> #[trigger] t.can_times(s@[i]),
        r matches Some(v) ==> v@ == left_times_all(t, s@),
{
    let mut i: usize = 0;
    while i < s.len()
        invariant
            i <= s@.len(),
            forall|j: int| 0 <= j < i ==> #[trigger] t.can_times(s@[j]),
        decreases s@.len() - i,
    {
        let (a, b) = (t.coefficient, s[i].coefficient);
        proof {
            assert(-0x8000_0000_0000_0000 * 0x8000_0000_0000_0000 <= a * b
                <= 0x8000_0000_0000_0000 * 0x8000_0000_0000_0000) by (nonlinear_arith)
                requires
                    -0x8000_0000_0000_0000 <= a <= 0x7fff_ffff_ffff_ffff,
                    -0x8000_0000_0000_0000 <= b <= 0x7fff_ffff_ffff_ffff,
            ;
        }
        let c = a as i128 * b as i128;
        let e = t.exponent as i128 + s[i].exponent as i128;
        if c < i64::MIN as i128 || c > i64::MAX as i128 || e < i64::MIN as i128 || e
            > i64::MAX as i128 {
            assert(!t.can_times(s@[i as int]));
            return None;
        }
        i = i + 1;
    }
    Some(left_times_each(t, s))
}

/// Why polynomial long division can fail.
#[derive(Clone, Copy, Debug, PartialEq, Eq, Structural)]
pub enum DivisionError {
    /// The divisor is the zero polynomial.
    ZeroDivisor,
    /// A leading coefficient of the remainder is not a multiple of the
    /// divisor's leading coefficient, so no quotient with integer
    /// coefficients exists.
    Inexact,
    /// An intermediate coefficient or exponent does not fit in an `i64`.
    Overflow,
}

/// What long division of `p` by non-zero `d` establishes: `q` is canonical
/// with no negative exponent, `rem` is canonical of lower degree than `d`,
/// and `p == q * d + rem` coefficient by coefficient, with no product of a
/// term of `q` and a term of `d` overflowing.
pub open spec fn divides_with(p: Seq<Term>, d: Seq<Term>, q: Seq<Term>, rem: Seq<Term>) -> bool {
    &&& d.len() > 0
    &&& can_cross(q, d)
    &&& is_canonical(q)
    &&& forall|k: int| 0 <= k < q.len() ==> q[k].exponent >= 0
    &&& is_canonical(rem)
    &&& rem.len() > 0 ==> rem[0].exponent < d[0].exponent
    &&& forall|e: int| #[trigger] coeff(p, e) == coeff(cross(q, d), e) + coeff(rem, e)
}

/// Every remainder that long division of `p` by `d` passes through on its way
/// to the quotient `q` has all its coefficients within `i64`.
pub open spec fn remainders_fit(p: Seq<Term>, d: Seq<Term>, q: Seq<Term>) -> bool {
    forall|i: int, e: int|
        #![trigger coeff(cross(q.take(i), d), e)]
        0 <= i <= q.len() ==> fits(coeff(p, e) - coeff(cross(q.take(i), d), e))
}

/// Where part of the way through long division `p == qacc * d + rem`, and
/// `p` has a quotient `q2` by `d`, the two quotients differ, and the largest
/// exponent `t` at which they do is where `d`'s leading term meets `rem`'s:
/// `rem`'s leading coefficient is `d`'s times their difference there.
proof fn lemma_quotient_gap(
    p: Seq<Term>,
    d: Seq<Term>,
    qacc: Seq<Term>,
    rem: Seq<Term>,
    q2: Seq<Term>,
    r2: Seq<Term>,
) -> (t: int)
    requires
        is_canonical(d),
        d.len() > 0,
        can_cross(qacc, d),
        forall|k: int| 0 <= k < qacc.len() ==> qacc[k].exponent >= 0,
        is_canonical(rem),
        rem.len() > 0,
        rem[0].exponent >= d[0].exponent,
        forall|e: int| #[trigger] coeff(p, e) == coeff(cross(qacc, d), e) + coeff(rem, e),
        divides_with(p, d, q2, r2),
    ensures
        t + d[0].exponent == rem[0].exponent,
        rem[0].coefficient == d[0].coefficient * (coeff(q2, t) - coeff(qacc, t)),
        forall|x: int| x > t ==> #[trigger] coeff(q2, x) == coeff(qacc, x),
        exists|i: int| 0 <= i < (q2 + qacc).len() && #[trigger] (q2 + qacc)[i].exponent == t,
{
    let (m, k) = (d[0].exponent as int, rem[0].exponent as int);
    let (a, b) = (rem[0].coefficient as int, d[0].coefficient as int);
    assert forall|e: int| #[trigger] conv_gap(d, q2, qacc, e) == coeff(rem, e) - coeff(r2, e) by {
        lemma_coeff_cross(q2, d, e);
        lemma_coeff_cross(qacc, d, e);
        lemma_conv_commutes(q2, d, e);
        lemma_conv_commutes(qacc, d, e);
        lemma_conv_gap(d, q2, qacc, e);
        assert(coeff(p, e) == coeff(cross(q2, d), e) + coeff(r2, e));
    }
    assert forall|e: int| e >= m implies #[trigger] coeff(r2, e) == 0 by {
        assert forall|i: int| 0 <= i < r2.len() implies r2[i].exponent != e by {
            if i > 0 {
                assert(r2[0].exponent > r2[i].exponent);
            }
        }
        lemma_coeff_absent(r2, e);
    }
    assert forall|e: int| e > k implies #[trigger] coeff(rem, e) == 0 by {
        assert forall|i: int| 0 <= i < rem.len() implies rem[i].exponent != e by {
            if i > 0 {
                assert(rem[0].exponent > rem[i].exponent);
            }
        }
        lemma_coeff_absent(rem, e);
    }
    lemma_coeff_canonical(rem, k);
    assert(coeff(rem, k) == a);
    assert(coeff(r2, k) == 0);
    if same_sum(q2, qacc) {
        lemma_conv_congruent(d, q2, qacc, k);
        lemma_conv_gap(d, q2, qacc, k);
        assert(false);
        0
    } else {
        let t = lemma_top_difference(q2, qacc);
        let s = q2 + qacc;
        let w = choose|i: int| 0 <= i < s.len() && #[trigger] s[i].exponent == t;
        if w < q2.len() {
            assert(s[w] == q2[w]);
        } else {
            assert(s[w] == qacc[w - q2.len()]);
        }
        let g = coeff(q2, t) - coeff(qacc, t);
        lemma_conv_gap_top(d, q2, qacc, t);
        assert(b * g != 0) by (nonlinear_arith)
            requires
                b != 0,
                g != 0,
        ;
        assert(coeff(rem, t + m) != 0);
        if t + m < k {
            lemma_conv_gap_above(d, q2, qacc, t, k);
            assert(false);
        }
        assert(t + m == k);
        t
    }
}

/// Under the same conditions, `rem`'s leading coefficient is a multiple of
/// `d`'s.
proof fn lemma_quotient_needs_multiple(
    p: Seq<Term>,
    d: Seq<Term>,
    qacc: Seq<Term>,
    rem: Seq<Term>,
    q2: Seq<Term>,
    r2: Seq<Term>,
)
    requires
        is_canonical(d),
        d.len() > 0,
        can_cross(qacc, d),
        forall|k: int| 0 <= k < qacc.len() ==> qacc[k].exponent >= 0,
        is_canonical(rem),
        rem.len() > 0,
        rem[0].exponent >= d[0].exponent,
        forall|e: int| #[trigger] coeff(p, e) == coeff(cross(qacc, d), e) + coeff(rem, e),
        divides_with(p, d, q2, r2),
    ensures
        trunc_div(rem[0].coefficient as int, d[0].coefficient as int) * d[0].coefficient
            == rem[0].coefficient,
{
    let t = lemma_quotient_gap(p, d, qacc, rem, q2, r2);
    let (a, b, g) = (rem[0].coefficient as int, d[0].coefficient as int, coeff(q2, t) - coeff(qacc, t));
    assert(a == g * b) by (nonlinear_arith)
        requires
            a == b * g,
    ;
    lemma_trunc_div_of_multiple(g, b);
}

/// Where moreover `qacc` is the start of `q2`, the next term of `q2` is the
/// quotient of the leading terms of `rem` and `d`.
proof fn lemma_next_quotient_term(
    p: Seq<Term>,
    d: Seq<Term>,
    qacc: Seq<Term>,
    rem: Seq<Term>,
    q2: Seq<Term>,
    r2: Seq<Term>,
)
    requires
        is_canonical(d),
        d.len() > 0,
        can_cross(qacc, d),
        forall|k: int| 0 <= k < qacc.len() ==> qacc[k].exponent >= 0,
        is_canonical(rem),
        rem.len() > 0,
        rem[0].exponent >= d[0].exponent,
        forall|e: int| #[trigger] coeff(p, e) == coeff(cross(qacc, d), e) + coeff(rem, e),
        divides_with(p, d, q2, r2),
        qacc.len() <= q2.len(),
        qacc == q2.take(qacc.len() as int),
    ensures
        qacc.len() < q2.len(),
        q2[qacc.len() as int].exponent + d[0].exponent == rem[0].exponent,
        q2[qacc.len() as int].coefficient * d[0].coefficient == rem[0].coefficient,
{
    let t = lemma_quotient_gap(p, d, qacc, rem, q2, r2);
    let n = qacc.len() as int;
    let rest = q2.skip(n);
    assert(q2 =~= qacc + rest);
    assert forall|x: int| #[trigger] coeff(q2, x) - coeff(qacc, x) == coeff(rest, x) by {
        lemma_coeff_concat(qacc, rest, x);
    }
    if rest.len() == 0 {
        assert(coeff(rest, t) == 0);
        assert(false);
    }
    // `rest` is canonical, so its largest exponent is its first, and that is `t`.
    assert(is_canonical(rest)) by {
        assert forall|i: int, j: int| 0 <= i < j < rest.len() implies rest[i].exponent > rest[j].exponent by {
            assert(q2[n + i].exponent > q2[n + j].exponent);
        }
        assert forall|i: int| 0 <= i < rest.len() implies rest[i].coefficient != 0 by {
            assert(q2[n + i].coefficient != 0);
        }
    }
    lemma_coeff_canonical(rest, rest[0].exponent as int);
    lemma_coeff_canonical(rest, t);
    if rest[0].exponent > t {
        let x = rest[0].exponent as int;
        assert(coeff(q2, x) == coeff(qacc, x));
        assert(coeff(q2, x) - coeff(qacc, x) == coeff(rest, x));
        assert(false);
    }
    if rest[0].exponent < t {
        assert forall|j: int| 0 <= j < rest.len() implies rest[j].exponent != t by {
            if j > 0 {
                assert(rest[0].exponent > rest[j].exponent);
            }
        }
    }
    assert(rest[0] == q2[n]);
    let (b, c) = (d[0].coefficient as int, q2[n].coefficient as int);
    assert(b * c == c * b) by (nonlinear_arith);
}

/// What division establishes depends only on the coefficients of the dividend.
proof fn lemma_dividend_congruent(
    p1: Seq<Term>,
    p2: Seq<Term>,
    d: Seq<Term>,
    q: Seq<Term>,
    rem: Seq<Term>,
)
    requires
        same_sum(p1, p2),
        divides_with(p1, d, q, rem),
    ensures
        divides_with(p2, d, q, rem),
        remainders_fit(p1, d, q) ==> remainders_fit(p2, d, q),
{
    assert forall|e: int| #[trigger] coeff(p2, e) == coeff(cross(q, d), e) + coeff(rem, e) by {
        assert(coeff(p1, e) == coeff(p2, e));
    }
    if remainders_fit(p1, d, q) {
        assert forall|i: int, e: int| 0 <= i <= q.len() implies fits(
            coeff(p2, e) - #[trigger] coeff(cross(q.take(i), d), e),
        ) by {
            assert(coeff(p1, e) == coeff(p2, e));
            assert(fits(coeff(p1, e) - coeff(cross(q.take(i), d), e)));
        }
    }
}

/// A normal form of the divisor is the one `normal_form` computes.
proof fn lemma_same_divisor(dn: Seq<Term>, d: Seq<Term>, rhs: Seq<Term>)
    requires
        is_normal_form_of(dn, rhs),
        is_normal_form_of(d, rhs),
    ensures
        dn == d,
{
    assert forall|x: int| #[trigger] coeff(dn, x) == coeff(d, x) by {
        assert(coeff(dn, x) == coeff(rhs, x));
    }
    lemma_canonical_unique(dn, d);
}

/// Long division of canonical `p` by canonical, non-zero `d`.
fn long_division(p: Vec<Term>, d: &Vec<Term>) -> (r: Result<(Vec<Term>, Vec<Term>), DivisionError>)
    requires
        is_canonical(p@),
        is_canonical(d@),
        d@.len() > 0,
    ensures
        r matches Ok((q, rem)) ==> divides_with(p@, d@, q@, rem@),
        r == Err::<(Vec<Term>, Vec<Term>), DivisionError>(DivisionError::Inexact) ==> forall|
            q2: Seq<Term>,
            r2: Seq<Term>,
        | !#[trigger] divides_with(p@, d@, q2, r2),
        (exists|q2: Seq<Term>, r2: Seq<Term>|
            #[trigger] divides_with(p@, d@, q2, r2) && remainders_fit(p@, d@, q2)) ==> r is Ok,
        !(r is Err && r->Err_0 == DivisionError::ZeroDivisor),
{
    let lead = d[0];
    let mut rem = p;
    let mut q: Vec<Term> = Vec::new();
    proof {
        assert forall|e: int| #[trigger] coeff(p@, e) == coeff(cross(q@, d@), e) + coeff(rem@, e) by {
            assert(cross(q@, d@) =~= Seq::<Term>::empty());
        }
    }
    while rem.len() > 0 && rem[0].exponent >= lead.exponent
        invariant
            lead == d@[0],
            is_canonical(d@),
            d@.len() > 0,
            is_canonical(rem@),
            is_canonical(q@),
            can_cross(q@, d@),
            forall|k: int| 0 <= k < q@.len() ==> q@[k].exponent >= 0,
            q@.len() > 0 && rem@.len() > 0 ==> rem@[0].exponent - lead.exponent
                < q@.last().exponent,
            forall|e: int| #[trigger] coeff(p@, e) == coeff(cross(q@, d@), e) + coeff(rem@, e),
            forall|q2: Seq<Term>, r2: Seq<Term>|
                #[trigger] divides_with(p@, d@, q2, r2) ==> q@.len() <= q2.len() && q@ == q2.take(
                    q@.len() as int,
                ),
        decreases
            if rem@.len() > 0 && rem@[0].exponent >= lead.exponent {
                rem@[0].exponent - lead.exponent + 1
            } else {
                0
            },
    {
        let top = rem[0];
        let ghost n = q@.len() as int;
        // Any quotient there is continues with the quotient of the leading terms.
        assert forall|q2: Seq<Term>, r2: Seq<Term>| #[trigger] divides_with(p@, d@, q2, r2) implies n
            < q2.len() && q2[n].exponent + lead.exponent == top.exponent && q2[n].coefficient
            * lead.coefficient == top.coefficient by {
            lemma_next_quotient_term(p@, d@, q@, rem@, q2, r2);
        }
        if lead.coefficient == -1 && top.coefficient == i64::MIN {
            proof {
                assert forall|q2: Seq<Term>, r2: Seq<Term>| !#[trigger] divides_with(p@, d@, q2, r2) by {
                    if divides_with(p@, d@, q2, r2) {
                        assert(q2[n].coefficient * -1 == i64::MIN);
                    }
                }
            }
            return Err(DivisionError::Overflow);
        }
        let qc = crate::term::quotient(top.coefficient, lead.coefficient);
        proof {
            assert(-0x8000_0000_0000_0000 * 0x8000_0000_0000_0000 <= qc * lead.coefficient
                <= 0x8000_0000_0000_0000 * 0x8000_0000_0000_0000) by (nonlinear_arith)
                requires
                    -0x8000_0000_0000_0000 <= qc <= 0x7fff_ffff_ffff_ffff,
                    -0x8000_0000_0000_0000 <= lead.coefficient <= 0x7fff_ffff_ffff_ffff,
            ;
        }
        if qc as i128 * lead.coefficient as i128 != top.coefficient as i128 {
            proof {
                assert forall|q2: Seq<Term>, r2: Seq<Term>| !#[trigger] divides_with(p@, d@, q2, r2) by {
                    if divides_with(p@, d@, q2, r2) {
                        lemma_quotient_needs_multiple(p@, d@, q@, rem@, q2, r2);
                    }
                }
            }
            return Err(DivisionError::Inexact);
        }
        let qe_wide = top.exponent as i128 - lead.exponent as i128;
        if qe_wide > i64::MAX as i128 {
            proof {
                assert forall|q2: Seq<Term>, r2: Seq<Term>| !#[trigger] divides_with(p@, d@, q2, r2) by {
                    if divides_with(p@, d@, q2, r2) {
                        assert(q2[n].exponent == top.exponent - lead.exponent);
                    }
                }
            }
            return Err(DivisionError::Overflow);
        }
        let qe = qe_wide as i64;
        let qt = Term::new(qc, qe);
        let ghost old_q = q@;
        let ghost new_q = old_q.push(qt);
        proof {
            assert forall|q2: Seq<Term>, r2: Seq<Term>| #[trigger] divides_with(p@, d@, q2, r2) implies q2[n]
                == qt by {
                let (x, b) = (q2[n].coefficient as int, lead.coefficient as int);
                assert(x == qc as int) by (nonlinear_arith)
                    requires
                        x * b == qc * b,
                        b != 0,
                ;
            }
            assert forall|q2: Seq<Term>, r2: Seq<Term>| #[trigger] divides_with(p@, d@, q2, r2) implies new_q
                == q2.take(n + 1) by {
                assert(new_q =~= q2.take(n + 1));
            }
        }
        let row = match try_row(qt, d) {
            Some(v) => v,
            None => {
                proof {
                    assert forall|q2: Seq<Term>, r2: Seq<Term>| !#[trigger] divides_with(p@, d@, q2, r2) by {
                        if divides_with(p@, d@, q2, r2) {
                            assert forall|j: int| 0 <= j < d@.len() implies #[trigger] qt.can_times(d@[j]) by {
                                assert(q2[n].can_times(d@[j]));
                            }
                        }
                    }
                }
                return Err(DivisionError::Overflow);
            },
        };
        let mut combined = rem.clone();
        let split = combined.len();
        let mut tail = row.clone();
        combined.append(&mut tail);
        proof {
            assert(new_q.drop_last() =~= old_q);
            assert(cross(new_q, d@) == cross(old_q, d@) + row@);
            assert(combined@ =~= rem@ + row@);
            assert forall|e: int| #[trigger] signed_coeff(combined@, split as int, e) == coeff(p@, e)
                - coeff(cross(new_q, d@), e) by {
                lemma_signed_coeff_split(rem@, row@, e);
                lemma_coeff_concat(cross(old_q, d@), row@, e);
            }
        }
        let next = match signed_normal_form(&combined, split) {
            Some(v) => v,
            None => {
                proof {
                    let e = choose|e: int| !fits(#[trigger] signed_coeff(combined@, split as int, e));
                    assert forall|q2: Seq<Term>, r2: Seq<Term>| #[trigger] divides_with(p@, d@, q2, r2)
                        implies !remainders_fit(p@, d@, q2) by {
                        assert(new_q == q2.take(n + 1));
                        assert(!fits(coeff(p@, e) - coeff(cross(q2.take(n + 1), d@), e)));
                    }
                }
                return Err(DivisionError::Overflow);
            },
        };
        proof {
            assert forall|e: int| #[trigger] coeff(p@, e) == coeff(cross(new_q, d@), e) + coeff(next@, e) by {
                assert(coeff(next@, e) == signed_coeff(combined@, split as int, e));
            }
            assert forall|e: int| #[trigger] coeff(next@, e) == coeff(rem@, e) - coeff(row@, e) by {
                lemma_signed_coeff_split(rem@, row@, e);
            }
            // The leading term cancels, so the remainder's degree drops.
            let x = top.exponent as int;
            assert(qt.can_times(d@[0]));
            assert(row@[0] == qt.times(d@[0]));
            assert(row@[0].coefficient == top.coefficient);
            assert forall|y: int| y >= x implies #[trigger] coeff(next@, y) == 0 by {
                lemma_coeff_canonical(rem@, y);
                if y > x {
                    assert forall|j: int| 0 <= j < rem@.len() implies rem@[j].exponent != y by {
                        if j > 0 {
                            assert(rem@[0].exponent > rem@[j].exponent);
                        }
                    }
                    assert forall|j: int| 0 <= j < row@.len() implies row@[j].exponent != y by {
                        assert(qt.can_times(d@[j]));
                        if j > 0 {
                            assert(d@[0].exponent > d@[j].exponent);
                        }
                    }
                    lemma_coeff_absent(row@, y);
                } else {
                    assert forall|j: int| 0 <= j < row@.len() && j != 0 implies row@[j].exponent != y by {
                        assert(qt.can_times(d@[j]));
                        assert(d@[0].exponent > d@[j].exponent);
                    }
                    lemma_coeff_single(row@, 0, y);
                }
            }
            if next@.len() > 0 {
                lemma_coeff_canonical(next@, next@[0].exponent as int);
            }
            assert(new_q.last() == qt);
            assert forall|i: int, j: int| 0 <= i < new_q.len() && 0 <= j < d@.len() implies #[trigger] new_q[i].can_times(d@[j]) by {
                if i < old_q.len() {
                    assert(old_q[i].can_times(d@[j]));
                } else {
                    assert(qt.can_times(d@[j]));
                }
            }
        }
        q.push(qt);
        rem = next;
    }
    Ok((q, rem))
}

/// The coefficients of `s[..split] - s[split..]`, one per exponent, sorted
/// by strictly decreasing exponent, none of them zero.
pub open spec fn totals_of(acc: Seq<(i64, i128)>, s: Seq<Term>, split: int) -> bool {
    &&& forall|i: int, j: int| 0 <= i < j < acc.len() ==> acc[i].0 > acc[j].0
    &&& forall|k: int| 0 <= k < acc.len() ==> acc[k].1 != 0
    &&& forall|k: int| 0 <= k < acc.len() ==> acc[k].1 == signed_coeff(s, split, acc[k].0 as int)
    &&& forall|e: int|
        (forall|k: int| 0 <= k < acc.len() ==> acc[k].0 != e) ==> #[trigger] signed_coeff(
            s,
            split,
            e,
        ) == 0
}

/// Collects the coefficients of `s[..split] - s[split..]` per exponent,
/// sorted by decreasing exponent. The running totals are kept in `i128`, in
/// which no sum of fewer than 2^64 `i64` values overflows.
#[verifier::rlimit(40)]
fn collect_totals(s: &Vec<Term>, split: usize) -> (acc: Vec<(i64, i128)>)
    ensures
        totals_of(acc@, s@, split as int),
{
    let mut acc: Vec<(i64, i128)> = Vec::new();
    let n = s.len();
    let mut i: usize = 0;
    while i < n
        invariant
            n == s@.len(),
            i <= n,
            totals_of(acc@, s@.take(i as int), split as int),
        decreases n - i,
    {
        let t = s[i];
        let c: i128 = if i < split {
            t.coefficient as i128
        } else {
            -(t.coefficient as i128)
        };
        let ghost prev = s@.take(i as int);
        let ghost next = s@.take(i as int + 1);
        assert(next.drop_last() =~= prev);
        assert(forall|e: int| #[trigger]
            signed_coeff(next, split as int, e) == signed_coeff(prev, split as int, e)
                + if t.exponent == e {
                c as int
            } else {
                0
            });
        // Binary search for the first total whose exponent is not above `t`'s.
        let mut k: usize = 0;
        let mut hi: usize = acc.len();
        while k < hi
            invariant
                totals_of(acc@, prev, split as int),
                k <= hi <= acc@.len(),
                forall|j: int| 0 <= j < k ==> acc@[j].0 > t.exponent,
                forall|j: int| hi <= j < acc@.len() ==> acc@[j].0 <= t.exponent,
            decreases hi - k,
        {
            let mid = k + (hi - k) / 2;
            if acc[mid].0 > t.exponent {
                proof {
                    assert forall|j: int| 0 <= j <= mid implies acc@[j].0 > t.exponent by {
                        if j < mid {
                            assert(acc@[j].0 > acc@[mid as int].0);
                        }
                    }
                }
                k = mid + 1;
            } else {
                proof {
                    assert forall|j: int| mid <= j < acc@.len() implies acc@[j].0 <= t.exponent by {
                        if j > mid {
                            assert(acc@[mid as int].0 > acc@[j].0);
                        }
                    }
                }
                hi = mid;
            }
        }
        if k < acc.len() && acc[k].0 == t.exponent {
            proof {
                lemma_signed_coeff_bound(prev, split as int, t.exponent as int);
                assert(prev.len() == i);
                assert(i < 0x1_0000_0000_0000_0000);
                assert(i * 0x8000_0000_0000_0000 <= 0x7fff_ffff_ffff_ffff_8000_0000_0000_0000)
                    by (nonlinear_arith)
                    requires
                        i < 0x1_0000_0000_0000_0000,
                ;
            }
            let total: i128 = acc[k].1 + c;
            let ghost old_acc = acc@;
            assert forall|j: int| 0 <= j < old_acc.len() && j != k implies old_acc[j].0
                != t.exponent by {
                if j < k {
                    assert(old_acc[j].0 > old_acc[k as int].0);
                } else {
                    assert(old_acc[k as int].0 > old_acc[j].0);
                }
            }
            if total == 0 {
                acc.remove(k);
                assert forall|e: int|
                    (forall|j: int| 0 <= j < acc@.len() ==> acc@[j].0 != e) implies #[trigger]
                    signed_coeff(next, split as int, e) == 0 by {
                    if e != t.exponent {
                        assert forall|j: int| 0 <= j < old_acc.len() implies old_acc[j].0
                            != e by {
                            if j < k {
                                assert(acc@[j] == old_acc[j]);
                            } else if j > k {
                                assert(acc@[j - 1] == old_acc[j]);
                            }
                        }
                    }
                }
            } else {
                acc.set(k, (t.exponent, total));
                assert forall|e: int|
                    (forall|j: int| 0 <= j < acc@.len() ==> acc@[j].0 != e) implies #[trigger]
                    signed_coeff(next, split as int, e) == 0 by {
                    assert forall|j: int| 0 <= j < old_acc.len() implies old_acc[j].0 != e by {
                        assert(acc@[j].0 == old_acc[j].0);
                    }
                }
            }
        } else if c != 0 {
            proof {
                assert forall|j: int| 0 <= j < acc@.len() implies acc@[j].0 != t.exponent by {
                    if j >= k {
                        assert(acc@[j].0 <= acc@[k as int].0);
                    }
                }
            }
            let ghost old_acc = acc@;
            acc.insert(k, (t.exponent, c));
            assert forall|e: int|
                (forall|j: int| 0 <= j < acc@.len() ==> acc@[j].0 != e) implies #[trigger]
                signed_coeff(next, split as int, e) == 0 by {
                assert(acc@[k as int].0 == t.exponent);
                assert forall|j: int| 0 <= j < old_acc.len() implies old_acc[j].0 != e by {
                    if j < k {
                        assert(acc@[j] == old_acc[j]);
                    } else {
                        assert(acc@[j + 1] == old_acc[j]);
                    }
                }
            }
        } else {
            proof {
                assert forall|j: int| 0 <= j < acc@.len() implies acc@[j].0 != t.exponent by {
                    if j >= k {
                        assert(acc@[j].0 <= acc@[k as int].0);
                    }
                }
            }
        }
        i = i + 1;
    }
    assert(s@.take(n as int) =~= s@);
    acc
}

/// The canonical form of `s[..split] - s[split..]`, or `None` where one of
/// its coefficients does not fit in an `i64`.
fn signed_normal_form(s: &Vec<Term>, split: usize) -> (r: Option<Vec<Term>>)
    ensures
        r is Some <==> forall|e: int| #![trigger signed_coeff(s@, split as int, e)] fits(signed_coeff(s@, split as int, e)),
        r matches Some(out) ==> is_canonical(out@) && forall|e: int| #[trigger] coeff(out@, e) == signed_coeff(s@, split as int, e),
{
    let acc = collect_totals(s, split);
    let mut out: Vec<Term> = Vec::new();
    let mut k: usize = 0;
    while k < acc.len()
        invariant
            totals_of(acc@, s@, split as int),
            k <= acc@.len(),
            out@.len() == k,
            forall|j: int|
                0 <= j < k ==> out@[j].exponent == acc@[j].0 && out@[j].coefficient == acc@[j].1,
        decreases acc@.len() - k,
    {
        let (exponent, total) = acc[k];
        if total < i64::MIN as i128 || total > i64::MAX as i128 {
            assert(!fits(signed_coeff(s@, split as int, exponent as int)));
            return None;
        }
        out.push(Term::new(total as i64, exponent));
        k = k + 1;
    }
    assert forall|e: int| #[trigger] coeff(out@, e) == signed_coeff(s@, split as int, e) by {
        lemma_coeff_canonical(out@, e);
        if forall|j: int| 0 <= j < out@.len() ==> out@[j].exponent != e {
            assert(signed_coeff(s@, split as int, e) == 0);
        } else {
            let j = choose|j: int| 0 <= j < out@.len() && out@[j].exponent == e;
            assert(coeff(out@, e) == out@[j].coefficient);
        }
    }
    Some(out)
}

/// The canonical form of `s`, or `None` where one of its coefficients does
/// not fit in an `i64`.
pub fn normal_form(s: &Vec<Term>) -> (r: Option<Vec<Term>>)
    ensures
        r is Some <==> sums_fit(s@),
        r matches Some(out) ==> is_normal_form_of(out@, s@),
{
    proof {
        assert forall|e: int| #[trigger] signed_coeff(s@, s@.len() as int, e) == coeff(s@, e) by {
            lemma_signed_coeff_unsigned(s@, s@.len() as int, e);
        }
    }
    let r = signed_normal_form(s, s.len());
    proof {
        if r is Some {
            assert forall|e: int| #[trigger] coeff(s@, e) == coeff(s@, e) implies i64::MIN <= coeff(
                s@,
                e,
            ) <= i64::MAX by {
                assert(fits(signed_coeff(s@, s@.len() as int, e)));
            }
        } else {
            let e = choose|e: int| !fits(#[trigger] signed_coeff(s@, s@.len() as int, e));
            assert(!(i64::MIN <= coeff(s@, e) <= i64::MAX));
        }
    }
    r
}

/// A polynomial: the sum of its terms, in the order they were given.
#[derive(Clone, Debug)]
pub struct Polynomial(pub Vec<Term>);

impl View for Polynomial {
    type V = Seq<Term>;

    open spec fn view(&self) -> Seq<Term> {
        self.0@
    }
}

impl PartialEq for Polynomial {
    fn eq(&self, other: &Polynomial) -> (r: bool) {
        if self.0.len() != other.0.len() {
            return false;
        }
        let mut i: usize = 0;
        while i < self.0.len()
            invariant
                self@.len() == other@.len(),
                i <= self@.len(),
                forall|j: int| 0 <= j < i ==> self@[j] == other@[j],
            decreases self@.len() - i,
        {
            if self.0[i] != other.0[i] {
                return false;
            }
            i = i + 1;
        }
        assert(self@ =~= other@);
        true
    }
}

impl vstd::std_specs::cmp::PartialEqSpecImpl for Polynomial {
    open spec fn obeys_eq_spec() -> bool {
        true
    }

    open spec fn eq_spec(&self, other: &Polynomial) -> bool {
        self@ == other@
    }
}

impl Default for Polynomial {
    fn default() -> (r: Polynomial)
        ensures
            r@ == Seq::<Term>::empty(),
    {
        Polynomial(Vec::new())
    }
}

/// Builds a polynomial from a flat list of coefficient, exponent pairs.
pub fn terms(values: &[i64]) -> (r: Polynomial)
    requires
        values@.len() % 2 == 0,
    ensures
        r@.len() == values@.len() / 2,
        forall|i: int|
            0 <= i < r@.len() ==> #[trigger] r@[i] == (Term {
                coefficient: values@[2 * i],
                exponent: values@[2 * i + 1],
            }),
{
    let mut out: Vec<Term> = Vec::with_capacity(values.len() / 2);
    let mut i: usize = 0;
    while i + 1 < values.len()
        invariant
            values@.len() % 2 == 0,
            i % 2 == 0,
            i <= values@.len(),
            out@.len() == i / 2,
            forall|j: int|
                0 <= j < out@.len() ==> #[trigger] out@[j] == (Term {
                    coefficient: values@[2 * j],
                    exponent: values@[2 * j + 1],
                }),
        decreases values@.len() - i,
    {
        out.push(Term::new(values[i], values[i + 1]));
        i = i + 2;
    }
    Polynomial(out)
}

impl Polynomial {
    /// The empty polynomial, which denotes zero.
    pub fn new() -> (r: Polynomial)
        ensures
            r@ == Seq::<Term>::empty(),
    {
        Polynomial(Vec::new())
    }

    /// The empty polynomial, with room for `capacity` terms.
    pub fn with_capacity(capacity: usize) -> (r: Polynomial)
        ensures
            r@ == Seq::<Term>::empty(),
    {
        Polynomial(Vec::with_capacity(capacity))
    }

    /// The terms of `self` followed by those of `rhs`, not simplified.
    pub fn add(self, rhs: Polynomial) -> (r: Polynomial)
        ensures
            r@ == self@ + rhs@,
    {
        let mut r = self;
        r.add_assign(rhs);
        r
    }

    pub fn add_assign(&mut self, rhs: Polynomial)
        ensures
            final(self)@ == old(self)@ + rhs@,
    {
        let mut rhs = rhs;
        self.0.append(&mut rhs.0);
    }

    /// The terms of `self` followed by `rhs`.
    pub fn add_term(self, rhs: Term) -> (r: Polynomial)
        ensures
            r@ == self@.push(rhs),
    {
        let mut r = self;
        r.add_assign_term(rhs);
        r
    }

    pub fn add_assign_term(&mut self, rhs: Term)
        ensures
            final(self)@ == old(self)@.push(rhs),
    {
        self.0.push(rhs);
    }

    /// The terms of `self` followed by those of `rhs` negated, not simplified.
    pub fn sub(self, rhs: Polynomial) -> (r: Polynomial)
        requires
            can_negate_all(rhs@),
        ensures
            r@ == self@ + negated_all(rhs@),
    {
        let mut r = self;
        r.sub_assign(rhs);
        r
    }

    pub fn sub_assign(&mut self, rhs: Polynomial)
        requires
            can_negate_all(rhs@),
        ensures
            final(self)@ == old(self)@ + negated_all(rhs@),
    {
        let mut negated = negate_each(&rhs.0);
        self.0.append(&mut negated);
    }

    /// The terms of `self` followed by `rhs` negated.
    pub fn sub_term(self, rhs: Term) -> (r: Polynomial)
        requires
            rhs.coefficient != i64::MIN,
        ensures
            r@ == self@.push(rhs.negated()),
    {
        let mut r = self;
        r.sub_assign_term(rhs);
        r
    }

    pub fn sub_assign_term(&mut self, rhs: Term)
        requires
            rhs.coefficient != i64::MIN,
        ensures
            final(self)@ == old(self)@.push(rhs.negated()),
    {
        self.0.push(rhs.neg());
    }

    /// Every term of `self` times every term of `rhs`, not simplified.
    pub fn mul(self, rhs: Polynomial) -> (r: Polynomial)
        requires
            can_cross(self@, rhs@),
        ensures
            r@ == cross(self@, rhs@),
    {
        Polynomial(cross_each(&self.0, &rhs.0))
    }

    pub fn mul_assign(&mut self, rhs: Polynomial)
        requires
            can_cross(old(self)@, rhs@),
        ensures
            final(self)@ == cross(old(self)@, rhs@),
    {
        self.0 = cross_each(&self.0, &rhs.0);
    }

    /// Every term multiplied by `rhs`.
    pub fn mul_term(self, rhs: Term) -> (r: Polynomial)
        requires
            can_times_all(self@, rhs),
        ensures
            r@ == times_all(self@, rhs),
    {
        Polynomial(times_each(&self.0, rhs))
    }

    pub fn mul_assign_term(&mut self, rhs: Term)
        requires
            can_times_all(old(self)@, rhs),
        ensures
            final(self)@ == times_all(old(self)@, rhs),
    {
        self.0 = times_each(&self.0, rhs);
    }

    /// Every coefficient multiplied by `rhs`.
    pub fn mul_scalar(self, rhs: i64) -> (r: Polynomial)
        requires
            can_scale_all(self@, rhs as int),
        ensures
            r@ == scaled_all(self@, rhs as int),
    {
        Polynomial(scale_each(&self.0, rhs))
    }

    pub fn mul_assign_scalar(&mut self, rhs: i64)
        requires
            can_scale_all(old(self)@, rhs as int),
        ensures
            final(self)@ == scaled_all(old(self)@, rhs as int),
    {
        self.0 = scale_each(&self.0, rhs);
    }

    /// Every term divided by `rhs`, coefficients rounding toward zero.
    pub fn div_term(self, rhs: Term) -> (r: Polynomial)
        requires
            can_over_all(self@, rhs),
        ensures
            r@ == over_all(self@, rhs),
    {
        Polynomial(over_each(&self.0, rhs))
    }

    pub fn div_assign_term(&mut self, rhs: Term)
        requires
            can_over_all(old(self)@, rhs),
        ensures
            final(self)@ == over_all(old(self)@, rhs),
    {
        self.0 = over_each(&self.0, rhs);
    }

    /// Every coefficient divided by `rhs`, rounding toward zero.
    pub fn div_scalar(self, rhs: i64) -> (r: Polynomial)
        requires
            can_shrink_all(self@, rhs as int),
        ensures
            r@ == shrunk_all(self@, rhs as int),
    {
        Polynomial(shrink_each(&self.0, rhs))
    }

    pub fn div_assign_scalar(&mut self, rhs: i64)
        requires
            can_shrink_all(old(self)@, rhs as int),
        ensures
            final(self)@ == shrunk_all(old(self)@, rhs as int),
    {
        self.0 = shrink_each(&self.0, rhs);
    }

    /// Polynomial long division. Both sides are simplified first; the
    /// quotient is returned and the remainder, of lower degree than the
    /// divisor, is dropped. Fails with `ZeroDivisor` exactly when `rhs` is
    /// the zero polynomial, with `Inexact` only when no quotient with
    /// integer coefficients exists, and with `Overflow` only where a
    /// coefficient or exponent along the way leaves `i64`: where a quotient
    /// exists and every remainder on the way to it fits, it succeeds.
    pub fn div(self, rhs: Polynomial) -> (r: Result<Polynomial, DivisionError>)
        ensures
            (r == Err::<Polynomial, DivisionError>(DivisionError::ZeroDivisor)) <==> forall|e: int|
                #[trigger] coeff(rhs@, e) == 0,
            r is Ok ==> exists|d: Seq<Term>, rem: Seq<Term>|
                is_normal_form_of(d, rhs@) && #[trigger] divides_with(self@, d, r->Ok_0@, rem),
            r == Err::<Polynomial, DivisionError>(DivisionError::Inexact) ==> forall|
                d: Seq<Term>,
                q: Seq<Term>,
                rem: Seq<Term>,
            | is_normal_form_of(d, rhs@) ==> !#[trigger] divides_with(self@, d, q, rem),
            (exists|d: Seq<Term>, q: Seq<Term>, rem: Seq<Term>|
                is_normal_form_of(d, rhs@) && #[trigger] divides_with(self@, d, q, rem)
                    && remainders_fit(self@, d, q)) ==> r is Ok,
    {
        let d = match normal_form(&rhs.0) {
            Some(d) => d,
            None => {
                proof {
                    let e = choose|e: int| !(i64::MIN <= #[trigger] coeff(rhs@, e) <= i64::MAX);
                    assert(coeff(rhs@, e) != 0);
                    assert forall|dn: Seq<Term>| !#[trigger] is_normal_form_of(dn, rhs@) by {
                        if is_normal_form_of(dn, rhs@) {
                            lemma_coeff_canonical(dn, e);
                            assert(coeff(dn, e) == coeff(rhs@, e));
                            if forall|j: int| 0 <= j < dn.len() ==> dn[j].exponent != e {
                            } else {
                                let j = choose|j: int| 0 <= j < dn.len() && dn[j].exponent == e;
                                assert(coeff(dn, e) == dn[j].coefficient);
                            }
                        }
                    }
                }
                return Err(DivisionError::Overflow);
            },
        };
        if d.len() == 0 {
            proof {
                assert forall|e: int| #[trigger] coeff(rhs@, e) == 0 by {
                    lemma_coeff_absent(d@, e);
                }
                assert forall|dn: Seq<Term>, q: Seq<Term>, rem: Seq<Term>|
                    is_normal_form_of(dn, rhs@) implies !#[trigger] divides_with(self@, dn, q, rem) by {
                    lemma_same_divisor(dn, d@, rhs@);
                }
            }
            return Err(DivisionError::ZeroDivisor);
        }
        proof {
            lemma_coeff_canonical(d@, d@[0].exponent as int);
            assert(coeff(rhs@, d@[0].exponent as int) != 0);
        }
        let p = match normal_form(&self.0) {
            Some(p) => p,
            None => {
                proof {
                    let e = choose|e: int| !(i64::MIN <= #[trigger] coeff(self@, e) <= i64::MAX);
                    assert forall|dn: Seq<Term>, q: Seq<Term>, rem: Seq<Term>|
                        #[trigger] divides_with(self@, dn, q, rem) implies !remainders_fit(self@, dn, q) by {
                        assert(q.take(0) =~= Seq::<Term>::empty());
                        assert(cross(q.take(0), dn) =~= Seq::<Term>::empty());
                        assert(coeff(cross(q.take(0), dn), e) == 0);
                    }
                }
                return Err(DivisionError::Overflow);
            },
        };
        match long_division(p, &d) {
            Ok((q, rem)) => {
                proof {
                    assert forall|e: int| #[trigger] coeff(self@, e) == coeff(cross(q@, d@), e)
                        + coeff(rem@, e) by {
                        assert(coeff(p@, e) == coeff(self@, e));
                    }
                    assert(divides_with(self@, d@, q@, rem@));
                    assert(is_normal_form_of(d@, rhs@));
                }
                let result: Result<Polynomial, DivisionError> = Ok(Polynomial(q));
                assert(divides_with(self@, d@, result->Ok_0@, rem@));
                result
            },
            Err(e) => {
                proof {
                    assert forall|dn: Seq<Term>, q: Seq<Term>, rem: Seq<Term>|
                        is_normal_form_of(dn, rhs@) && #[trigger] divides_with(self@, dn, q, rem)
                        implies e != DivisionError::Inexact && !remainders_fit(self@, dn, q) by {
                        lemma_same_divisor(dn, d@, rhs@);
                        assert forall|x: int| #[trigger] coeff(self@, x) == coeff(p@, x) by {}
                        lemma_dividend_congruent(self@, p@, d@, q, rem);
                    }
                }
                Err(e)
            },
        }
    }

    /// Long division in place; on failure `self` is left as it was.
    pub fn div_assign(&mut self, rhs: Polynomial) -> (r: Result<(), DivisionError>)
        ensures
            (r == Err::<(), DivisionError>(DivisionError::ZeroDivisor)) <==> forall|e: int|
                #[trigger] coeff(rhs@, e) == 0,
            r is Err ==> final(self)@ == old(self)@,
            r is Ok ==> exists|d: Seq<Term>, rem: Seq<Term>|
                is_normal_form_of(d, rhs@) && #[trigger] divides_with(old(self)@, d, final(self)@, rem),
            r == Err::<(), DivisionError>(DivisionError::Inexact) ==> forall|
                d: Seq<Term>,
                q: Seq<Term>,
                rem: Seq<Term>,
            | is_normal_form_of(d, rhs@) ==> !#[trigger] divides_with(old(self)@, d, q, rem),
            (exists|d: Seq<Term>, q: Seq<Term>, rem: Seq<Term>|
                is_normal_form_of(d, rhs@) && #[trigger] divides_with(old(self)@, d, q, rem)
                    && remainders_fit(old(self)@, d, q)) ==> r is Ok,
    {
        let dividend = Polynomial(self.0.clone());
        assert(dividend@ == self@);
        match dividend.div(rhs) {
            Ok(q) => {
                *self = q;
                Ok(())
            },
            Err(e) => Err(e),
        }
    }

    /// Sorts the terms by decreasing exponent and merges like terms, dropping
    /// those whose coefficients cancel.
    pub fn simplify(&mut self)
        requires
            sums_fit(old(self)@),
        ensures
            is_normal_form_of(final(self)@, old(self)@),
    {
        match normal_form(&self.0) {
            Some(out) => {
                self.0 = out;
            },
            None => {},
        }
    }
}

} // verus!
