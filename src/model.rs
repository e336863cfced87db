use vstd::prelude::*;

use crate::term::Term;

verus! {

/// The coefficient that a list of terms, read as their sum, has at exponent `e`.
pub open spec fn coeff(s: Seq<Term>, e: int) -> int
    decreases s.len(),
{
    if s.len() == 0 {
        0
    } else {
        coeff(s.drop_last(), e) + if s.last().exponent == e {
            s.last().coefficient as int
        } else {
            0
        }
    }
}

/// Like `coeff`, but the terms at index `split` and beyond count negatively:
/// the coefficient of `s[..split] - s[split..]`.
pub open spec fn signed_coeff(s: Seq<Term>, split: int, e: int) -> int
    decreases s.len(),
{
    if s.len() == 0 {
        0
    } else {
        signed_coeff(s.drop_last(), split, e) + if s.last().exponent != e {
            0
        } else if s.len() - 1 >= split {
            -s.last().coefficient
        } else {
            s.last().coefficient as int
        }
    }
}

/// Terms sorted by strictly decreasing exponent, none with a zero coefficient.
pub open spec fn is_canonical(s: Seq<Term>) -> bool {
    &&& forall|i: int, j: int| 0 <= i < j < s.len() ==> s[i].exponent > s[j].exponent
    &&& forall|i: int| 0 <= i < s.len() ==> s[i].coefficient != 0
}

/// Two term lists denote the same polynomial.
pub open spec fn same_sum(a: Seq<Term>, b: Seq<Term>) -> bool {
    forall|e: int| #[trigger] coeff(a, e) == coeff(b, e)
}

/// `out` is the canonical form of `s`.
pub open spec fn is_normal_form_of(out: Seq<Term>, s: Seq<Term>) -> bool {
    is_canonical(out) && same_sum(out, s)
}

/// Every coefficient of the polynomial that `s` denotes fits in an `i64`.
pub open spec fn sums_fit(s: Seq<Term>) -> bool {
    forall|e: int| #![trigger coeff(s, e)] i64::MIN <= coeff(s, e) <= i64::MAX
}

pub proof fn lemma_coeff_absent(s: Seq<Term>, e: int)
    requires
        forall|i: int| 0 <= i < s.len() ==> s[i].exponent != e,
    ensures
        coeff(s, e) == 0,
    decreases s.len(),
{
    if s.len() > 0 {
        lemma_coeff_absent(s.drop_last(), e);
    }
}

pub proof fn lemma_coeff_single(s: Seq<Term>, j: int, e: int)
    requires
        0 <= j < s.len(),
        s[j].exponent == e,
        forall|i: int| 0 <= i < s.len() && i != j ==> s[i].exponent != e,
    ensures
        coeff(s, e) == s[j].coefficient,
    decreases s.len(),
{
    if j == s.len() - 1 {
        lemma_coeff_absent(s.drop_last(), e);
    } else {
        lemma_coeff_single(s.drop_last(), j, e);
    }
}

/// In a canonical list the coefficient at an exponent is that of the one term
/// that carries it, or zero.
pub proof fn lemma_coeff_canonical(s: Seq<Term>, e: int)
    requires
        is_canonical(s),
    ensures
        forall|j: int| 0 <= j < s.len() && s[j].exponent == e ==> coeff(s, e) == s[j].coefficient,
        (forall|j: int| 0 <= j < s.len() ==> s[j].exponent != e) ==> coeff(s, e) == 0,
{
    assert forall|j: int| 0 <= j < s.len() && s[j].exponent == e implies coeff(s, e)
        == s[j].coefficient by {
        assert forall|i: int| 0 <= i < s.len() && i != j implies s[i].exponent != e by {
            if i < j {
                assert(s[i].exponent > s[j].exponent);
            } else {
                assert(s[j].exponent > s[i].exponent);
            }
        }
        lemma_coeff_single(s, j, e);
    }
    if forall|j: int| 0 <= j < s.len() ==> s[j].exponent != e {
        lemma_coeff_absent(s, e);
    }
}

pub proof fn lemma_coeff_concat(a: Seq<Term>, b: Seq<Term>, e: int)
    ensures
        coeff(a + b, e) == coeff(a, e) + coeff(b, e),
    decreases b.len(),
{
    if b.len() == 0 {
        assert(a + b =~= a);
    } else {
        assert((a + b).drop_last() =~= a + b.drop_last());
        lemma_coeff_concat(a, b.drop_last(), e);
    }
}

/// Two canonical lists that denote the same polynomial are the same list.
pub proof fn lemma_canonical_unique(a: Seq<Term>, b: Seq<Term>)
    requires
        is_canonical(a),
        is_canonical(b),
        same_sum(a, b),
    ensures
        a == b,
    decreases a.len() + b.len(),
{
    if a.len() == 0 && b.len() == 0 {
        assert(a =~= b);
    } else if a.len() == 0 {
        lemma_coeff_canonical(b, b.last().exponent as int);
        lemma_coeff_absent(a, b.last().exponent as int);
    } else if b.len() == 0 {
        lemma_coeff_canonical(a, a.last().exponent as int);
        lemma_coeff_absent(b, a.last().exponent as int);
    } else {
        let (x, y) = (a.last(), b.last());
        lemma_coeff_canonical(a, x.exponent as int);
        lemma_coeff_canonical(b, x.exponent as int);
        lemma_coeff_canonical(a, y.exponent as int);
        lemma_coeff_canonical(b, y.exponent as int);
        if x.exponent < y.exponent {
            assert(coeff(b, x.exponent as int) == 0);
            assert(coeff(a, x.exponent as int) == x.coefficient);
        } else if y.exponent < x.exponent {
            assert(coeff(a, y.exponent as int) == 0);
            assert(coeff(b, y.exponent as int) == y.coefficient);
        } else {
            assert(coeff(a, x.exponent as int) == x.coefficient);
            assert(coeff(b, x.exponent as int) == y.coefficient);
            assert forall|e: int| #[trigger]
                coeff(a.drop_last(), e) == coeff(b.drop_last(), e) by {
                assert(coeff(a, e) == coeff(b, e));
            }
            lemma_canonical_unique(a.drop_last(), b.drop_last());
            assert(a =~= a.drop_last().push(x));
            assert(b =~= b.drop_last().push(y));
        }
    }
}

pub proof fn lemma_signed_coeff_unsigned(s: Seq<Term>, split: int, e: int)
    requires
        split >= s.len(),
    ensures
        signed_coeff(s, split, e) == coeff(s, e),
    decreases s.len(),
{
    if s.len() > 0 {
        lemma_signed_coeff_unsigned(s.drop_last(), split, e);
    }
}

pub proof fn lemma_signed_coeff_split(a: Seq<Term>, b: Seq<Term>, e: int)
    ensures
        signed_coeff(a + b, a.len() as int, e) == coeff(a, e) - coeff(b, e),
    decreases b.len(),
{
    if b.len() == 0 {
        assert(a + b =~= a);
        lemma_signed_coeff_unsigned(a, a.len() as int, e);
    } else {
        assert((a + b).drop_last() =~= a + b.drop_last());
        lemma_signed_coeff_split(a, b.drop_last(), e);
    }
}

pub proof fn lemma_signed_coeff_bound(s: Seq<Term>, split: int, e: int)
    ensures
        -(s.len() * 0x8000_0000_0000_0000) <= signed_coeff(s, split, e) <= s.len()
            * 0x8000_0000_0000_0000,
    decreases s.len(),
{
    if s.len() > 0 {
        lemma_signed_coeff_bound(s.drop_last(), split, e);
    }
}

} // verus!
