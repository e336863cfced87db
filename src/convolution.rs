//! Coefficients of a product: the coefficient of `a * b` at `e` is the sum,
//! over the terms `t` of `a`, of `t`'s coefficient times the coefficient of
//! `b` at `e - t`'s exponent.
use vstd::prelude::*;

use crate::model::{coeff, lemma_coeff_absent, lemma_coeff_concat, same_sum};
use crate::polynomial::{can_cross, cross, left_times_all};
use crate::term::Term;

verus! {

/// `Σ_i a[i].coefficient * coeff(b, e - a[i].exponent)`.
pub open spec fn conv(a: Seq<Term>, b: Seq<Term>, e: int) -> int
    decreases a.len(),
{
    if a.len() == 0 {
        0
    } else {
        conv(a.drop_last(), b, e) + a.last().coefficient * coeff(b, e - a.last().exponent)
    }
}

/// `Σ_i d[i].coefficient * (coeff(r, e - d[i].exponent) - coeff(q, e - d[i].exponent))`.
pub open spec fn conv_gap(d: Seq<Term>, r: Seq<Term>, q: Seq<Term>, e: int) -> int
    decreases d.len(),
{
    if d.len() == 0 {
        0
    } else {
        let x = e - d.last().exponent;
        conv_gap(d.drop_last(), r, q, e) + d.last().coefficient * (coeff(r, x) - coeff(q, x))
    }
}

pub proof fn lemma_coeff_left_times(t: Term, b: Seq<Term>, e: int)
    requires
        forall|j: int| 0 <= j < b.len() ==> #[trigger] t.can_times(b[j]),
    ensures
        coeff(left_times_all(t, b), e) == t.coefficient * coeff(b, e - t.exponent),
    decreases b.len(),
{
    if b.len() > 0 {
        let b2 = b.drop_last();
        assert(left_times_all(t, b).drop_last() =~= left_times_all(t, b2));
        lemma_coeff_left_times(t, b2, e);
        let x = b.last();
        assert(t.can_times(b[b.len() - 1]));
        let (c, y, z) = (t.coefficient as int, coeff(b2, e - t.exponent), x.coefficient as int);
        assert(c * (y + z) == c * y + c * z) by (nonlinear_arith);
    }
}

pub proof fn lemma_coeff_cross(a: Seq<Term>, b: Seq<Term>, e: int)
    requires
        can_cross(a, b),
    ensures
        coeff(cross(a, b), e) == conv(a, b, e),
    decreases a.len(),
{
    if a.len() > 0 {
        let a2 = a.drop_last();
        assert forall|i: int, j: int| 0 <= i < a2.len() && 0 <= j < b.len() implies #[trigger] a2[i].can_times(b[j]) by {
            assert(a[i].can_times(b[j]));
        }
        lemma_coeff_cross(a2, b, e);
        lemma_coeff_concat(cross(a2, b), left_times_all(a.last(), b), e);
        assert forall|j: int| 0 <= j < b.len() implies #[trigger] a.last().can_times(b[j]) by {
            assert(a[a.len() - 1].can_times(b[j]));
        }
        lemma_coeff_left_times(a.last(), b, e);
    }
}

proof fn lemma_conv_empty(b: Seq<Term>, e: int)
    ensures
        conv(b, Seq::empty(), e) == 0,
    decreases b.len(),
{
    if b.len() > 0 {
        lemma_conv_empty(b.drop_last(), e);
        lemma_coeff_absent(Seq::<Term>::empty(), e - b.last().exponent);
    }
}

proof fn lemma_conv_push(b: Seq<Term>, a: Seq<Term>, x: Term, e: int)
    ensures
        conv(b, a.push(x), e) == conv(b, a, e) + x.coefficient * coeff(b, e - x.exponent),
    decreases b.len(),
{
    if b.len() > 0 {
        let b2 = b.drop_last();
        lemma_conv_push(b2, a, x, e);
        let y = b.last();
        assert(a.push(x).drop_last() =~= a);
        let hit = x.exponent == e - y.exponent;
        let (yc, xc) = (y.coefficient as int, x.coefficient as int);
        let (ca, cb) = (coeff(a, e - y.exponent), coeff(b2, e - x.exponent));
        if hit {
            assert(yc * (ca + xc) == yc * ca + xc * yc) by (nonlinear_arith);
            assert(xc * (cb + yc) == xc * cb + xc * yc) by (nonlinear_arith);
        }
    }
}

/// Multiplication of polynomials commutes, coefficient by coefficient.
pub proof fn lemma_conv_commutes(a: Seq<Term>, b: Seq<Term>, e: int)
    ensures
        conv(a, b, e) == conv(b, a, e),
    decreases a.len(),
{
    if a.len() == 0 {
        assert(a =~= Seq::<Term>::empty());
        lemma_conv_empty(b, e);
    } else {
        lemma_conv_commutes(a.drop_last(), b, e);
        lemma_conv_push(b, a.drop_last(), a.last(), e);
        assert(a.drop_last().push(a.last()) =~= a);
    }
}

/// A product depends only on the coefficients of its factors.
pub proof fn lemma_conv_congruent(a: Seq<Term>, b: Seq<Term>, b2: Seq<Term>, e: int)
    requires
        same_sum(b, b2),
    ensures
        conv(a, b, e) == conv(a, b2, e),
    decreases a.len(),
{
    if a.len() > 0 {
        lemma_conv_congruent(a.drop_last(), b, b2, e);
        assert(coeff(b, e - a.last().exponent) == coeff(b2, e - a.last().exponent));
    }
}

pub proof fn lemma_conv_gap(d: Seq<Term>, r: Seq<Term>, q: Seq<Term>, e: int)
    ensures
        conv_gap(d, r, q, e) == conv(d, r, e) - conv(d, q, e),
    decreases d.len(),
{
    if d.len() > 0 {
        lemma_conv_gap(d.drop_last(), r, q, e);
        let x = e - d.last().exponent;
        let (c, u, v) = (d.last().coefficient as int, coeff(r, x), coeff(q, x));
        assert(c * (u - v) == c * u - c * v) by (nonlinear_arith);
    }
}

/// Where `r` and `q` agree above `k`, only the leading term of `d` reaches
/// exponent `k + d[0].exponent` of `d * (r - q)`.
pub proof fn lemma_conv_gap_top(d: Seq<Term>, r: Seq<Term>, q: Seq<Term>, k: int)
    requires
        d.len() > 0,
        forall|i: int, j: int| 0 <= i < j < d.len() ==> d[i].exponent > d[j].exponent,
        forall|x: int| x > k ==> #[trigger] coeff(r, x) == coeff(q, x),
    ensures
        conv_gap(d, r, q, k + d[0].exponent) == d[0].coefficient * (coeff(r, k) - coeff(q, k)),
    decreases d.len(),
{
    let e = k + d[0].exponent;
    if d.len() == 1 {
        assert(d.drop_last() =~= Seq::<Term>::empty());
        assert(conv_gap(d.drop_last(), r, q, e) == 0);
        assert(d.last() == d[0]);
        assert(e - d.last().exponent == k);
    } else {
        let d2 = d.drop_last();
        assert(d2[0] == d[0]);
        lemma_conv_gap_top(d2, r, q, k);
        let x = e - d.last().exponent;
        assert(d[0].exponent > d[d.len() - 1].exponent);
        assert(coeff(r, x) == coeff(q, x));
        assert(d.last().coefficient * (coeff(r, x) - coeff(q, x)) == 0);
        assert(conv_gap(d, r, q, e) == conv_gap(d2, r, q, e) + d.last().coefficient * (coeff(r, x) - coeff(q, x)));
    }
}

/// Among the exponents of `s` at which `r` and `q` differ, the largest.
pub proof fn lemma_top_gap(s: Seq<Term>, r: Seq<Term>, q: Seq<Term>) -> (k: int)
    requires
        exists|i: int| 0 <= i < s.len() && #[trigger] coeff(r, s[i].exponent as int) != coeff(q, s[i].exponent as int),
    ensures
        coeff(r, k) != coeff(q, k),
        exists|i: int| 0 <= i < s.len() && #[trigger] s[i].exponent == k,
        forall|i: int|
            0 <= i < s.len() && coeff(r, s[i].exponent as int) != coeff(q, s[i].exponent as int)
                ==> #[trigger] s[i].exponent <= k,
    decreases s.len(),
{
    let s2 = s.drop_last();
    let x = s.last().exponent as int;
    if exists|i: int| 0 <= i < s2.len() && #[trigger] coeff(r, s2[i].exponent as int) != coeff(q, s2[i].exponent as int) {
        let k2 = lemma_top_gap(s2, r, q);
        let w = choose|i: int| 0 <= i < s2.len() && #[trigger] s2[i].exponent == k2;
        assert(s[w].exponent == k2);
        if coeff(r, x) != coeff(q, x) && x > k2 {
            assert(s[s.len() - 1].exponent == x);
            assert forall|i: int|
                0 <= i < s.len() && coeff(r, s[i].exponent as int) != coeff(q, s[i].exponent as int)
                    implies #[trigger] s[i].exponent <= x by {
                if i < s2.len() {
                    assert(s2[i] == s[i]);
                }
            }
            x
        } else {
            assert forall|i: int|
                0 <= i < s.len() && coeff(r, s[i].exponent as int) != coeff(q, s[i].exponent as int)
                    implies #[trigger] s[i].exponent <= k2 by {
                if i < s2.len() {
                    assert(s2[i] == s[i]);
                }
            }
            k2
        }
    } else {
        let i0 = choose|i: int| 0 <= i < s.len() && #[trigger] coeff(r, s[i].exponent as int) != coeff(q, s[i].exponent as int);
        if i0 < s2.len() {
            assert(s2[i0] == s[i0]);
        }
        assert(s[s.len() - 1].exponent == x);
        assert forall|i: int|
            0 <= i < s.len() && coeff(r, s[i].exponent as int) != coeff(q, s[i].exponent as int)
                implies #[trigger] s[i].exponent <= x by {
            if i < s2.len() {
                assert(s2[i] == s[i]);
            } else {
                assert(i == s.len() - 1);
            }
        }
        x
    }
}

/// An exponent at which two term lists differ carries a term of one of them.
pub proof fn lemma_gap_has_index(r: Seq<Term>, q: Seq<Term>, x: int)
    requires
        coeff(r, x) != coeff(q, x),
    ensures
        exists|i: int| 0 <= i < (r + q).len() && #[trigger] (r + q)[i].exponent == x,
{
    let s = r + q;
    if forall|i: int| 0 <= i < s.len() ==> s[i].exponent != x {
        assert forall|i: int| 0 <= i < r.len() implies r[i].exponent != x by {
            assert(s[i] == r[i]);
        }
        assert forall|i: int| 0 <= i < q.len() implies q[i].exponent != x by {
            assert(s[r.len() + i] == q[i]);
        }
        lemma_coeff_absent(r, x);
        lemma_coeff_absent(q, x);
    }
}

/// The largest exponent at which two term lists differ, where they differ
/// at all.
pub proof fn lemma_top_difference(r: Seq<Term>, q: Seq<Term>) -> (k: int)
    requires
        !same_sum(r, q),
    ensures
        coeff(r, k) != coeff(q, k),
        forall|x: int| x > k ==> #[trigger] coeff(r, x) == coeff(q, x),
        exists|i: int| 0 <= i < (r + q).len() && #[trigger] (r + q)[i].exponent == k,
{
    let s = r + q;
    let x0 = choose|x: int| #[trigger] coeff(r, x) != coeff(q, x);
    lemma_gap_has_index(r, q, x0);
    let i0 = choose|i: int| 0 <= i < s.len() && #[trigger] s[i].exponent == x0;
    assert(coeff(r, s[i0].exponent as int) != coeff(q, s[i0].exponent as int));
    let k = lemma_top_gap(s, r, q);
    assert forall|x: int| x > k implies #[trigger] coeff(r, x) == coeff(q, x) by {
        if coeff(r, x) != coeff(q, x) {
            lemma_gap_has_index(r, q, x);
            let i = choose|i: int| 0 <= i < s.len() && #[trigger] s[i].exponent == x;
            assert(coeff(r, s[i].exponent as int) != coeff(q, s[i].exponent as int));
        }
    }
    k
}

/// Where `r` and `q` agree above `k`, `d * (r - q)` has nothing above
/// `k + d[0].exponent`.
pub proof fn lemma_conv_gap_above(d: Seq<Term>, r: Seq<Term>, q: Seq<Term>, k: int, e: int)
    requires
        d.len() > 0,
        forall|i: int, j: int| 0 <= i < j < d.len() ==> d[i].exponent > d[j].exponent,
        forall|x: int| x > k ==> #[trigger] coeff(r, x) == coeff(q, x),
        e > k + d[0].exponent,
    ensures
        conv_gap(d, r, q, e) == 0,
    decreases d.len(),
{
    let d2 = d.drop_last();
    if d.len() == 1 {
        assert(d2 =~= Seq::<Term>::empty());
        assert(d.last() == d[0]);
    } else {
        assert(d2[0] == d[0]);
        lemma_conv_gap_above(d2, r, q, k, e);
        assert(d[0].exponent > d[d.len() - 1].exponent);
    }
    let x = e - d.last().exponent;
    assert(coeff(r, x) == coeff(q, x));
    assert(d.last().coefficient * (coeff(r, x) - coeff(q, x)) == 0);
    assert(conv_gap(d2, r, q, e) == 0);
    assert(conv_gap(d, r, q, e) == conv_gap(d2, r, q, e) + d.last().coefficient * (coeff(r, x)
        - coeff(q, x)));
}

} // verus!
