use cakcukus::{terms, DivisionError, Polynomial, Term};

#[test]
fn mult_test_t() {
    let polynomial = terms(&[15, 2, 2, 1, 5, 0]);

    let mut polynomial_2 = polynomial.clone().mul_scalar(2);

    assert_eq!(polynomial_2, terms(&[30, 2, 4, 1, 10, 0]));

    polynomial_2.div_assign_scalar(2);

    assert_eq!(polynomial, polynomial_2);
}

#[test]
fn mult_test_term_t() {
    let polynomial = terms(&[15, 2, 2, 1, 5, 0]);

    let mut polynomial_2 = polynomial.clone().mul_term(Term::new(2, 2));

    assert_eq!(polynomial_2, terms(&[30, 4, 4, 3, 10, 2]));

    polynomial_2.div_assign_term(Term::new(2, 2));

    assert_eq!(polynomial, polynomial_2);
}

#[test]
fn mult_test_polynomial_t() {
    let polynomial = terms(&[15, 2, 2, 1, 5, 0]);

    let mut polynomial_2 = polynomial.clone().mul(terms(&[2, 4, 3, 2, 5, 0]));
    polynomial_2.simplify();

    assert_eq!(
        polynomial_2,
        terms(&[30, 6, 4, 5, 55, 4, 6, 3, 90, 2, 10, 1, 25, 0])
    );

    polynomial_2.mul_assign(terms(&[2, 3]));

    let mut polynomial = polynomial
        .mul(terms(&[2, 4, 3, 2, 5, 0]))
        .mul(terms(&[2, 3]));
    polynomial.simplify();

    assert_eq!(polynomial_2, polynomial);
}

#[test]
fn div_test_t() {
    let polynomial = terms(&[30, 2, 4, 1, 10, 0]);

    let mut polynomial_2 = polynomial.clone().div_scalar(2);

    assert_eq!(polynomial_2, terms(&[15, 2, 2, 1, 5, 0]));

    polynomial_2.mul_assign_scalar(2);

    assert_eq!(polynomial, polynomial_2);
}

#[test]
fn div_test_term_t() {
    let polynomial = terms(&[30, 4, 4, 3, 10, 2]);

    let mut polynomial_2 = polynomial.clone().div_term(Term::new(2, 2));

    assert_eq!(polynomial_2, terms(&[15, 2, 2, 1, 5, 0]));

    polynomial_2.mul_assign_term(Term::new(2, 2));

    assert_eq!(polynomial, polynomial_2);
}

#[test]
fn div_test_polynomial_t() {
    let polynomial = terms(&[1, 3, 3, 2, -10, 1, -24, 0]);

    let mut polynomial_2 = polynomial.clone().div(terms(&[1, 2, 6, 1, 8, 0])).unwrap();
    polynomial_2.simplify();

    assert_eq!(polynomial_2, terms(&[1, 1, -3, 0]));

    polynomial_2.mul_assign(terms(&[2, 3]));

    let mut polynomial = polynomial
        .div(terms(&[1, 2, 6, 1, 8, 0]))
        .unwrap()
        .mul(terms(&[2, 3]));
    polynomial.simplify();

    assert_eq!(polynomial_2, polynomial);
}

#[test]
fn simplify_merges_and_sorts() {
    let mut p = terms(&[3, 1, 5, 4, -3, 1, 2, 0, 1, 4, 0, 7]);
    p.simplify();
    assert_eq!(p, terms(&[6, 4, 2, 0]));
    let once = p.clone();
    p.simplify();
    assert_eq!(p, once);
}

#[test]
fn simplify_edges() {
    let mut empty = Polynomial::new();
    empty.simplify();
    assert_eq!(empty, Polynomial::new());
    let mut cancels = terms(&[4, 2, -4, 2]);
    cancels.simplify();
    assert_eq!(cancels, Polynomial::new());
    // running totals may leave i64 as long as each final coefficient fits
    let mut wide = terms(&[i64::MAX, 1, i64::MAX, 1, i64::MIN, 1, -5, 1]);
    wide.simplify();
    assert_eq!(wide, terms(&[i64::MAX - 6, 1]));
}

#[test]
fn add_and_sub_concatenate() {
    let a = terms(&[1, 2, 3, 0]);
    let b = terms(&[4, 1]);
    assert_eq!(a.clone().add(b.clone()), terms(&[1, 2, 3, 0, 4, 1]));
    assert_eq!(a.clone().sub(b.clone()), terms(&[1, 2, 3, 0, -4, 1]));
    assert_eq!(a.clone().add_term(Term::new(2, 2)), terms(&[1, 2, 3, 0, 2, 2]));
    assert_eq!(a.clone().sub_term(Term::new(2, 2)), terms(&[1, 2, 3, 0, -2, 2]));
    let mut c = a.clone();
    c.add_assign(b.clone());
    c.sub_assign(b);
    c.add_assign_term(Term::new(1, 9));
    c.sub_assign_term(Term::new(1, 9));
    c.simplify();
    assert_eq!(c, terms(&[1, 2, 3, 0]));
}

#[test]
fn scalar_round_trip_negative() {
    let p = terms(&[15, 2, -2, 1, 5, 0]);
    assert_eq!(p.clone().mul_scalar(-3).div_scalar(-3), p);
}

#[test]
fn division_exact_product() {
    // (x + 2)(3x^2 - x + 1) = 3x^3 + 5x^2 - x + 2
    let q = terms(&[1, 1, 2, 0]);
    let r = terms(&[3, 2, -1, 1, 1, 0]);
    let p = q.clone().mul(r.clone());
    assert_eq!(p.div(q).unwrap(), r);
}

#[test]
fn division_drops_remainder() {
    // (x^2 + 1) / x = x, remainder 1
    assert_eq!(terms(&[1, 2, 1, 0]).div(terms(&[1, 1])).unwrap(), terms(&[1, 1]));
    // a dividend of lower degree gives the zero polynomial
    assert_eq!(terms(&[5, 0]).div(terms(&[1, 1])).unwrap(), Polynomial::new());
}

#[test]
fn division_errors() {
    let p = terms(&[1, 2, 1, 0]);
    assert_eq!(p.clone().div(Polynomial::new()), Err(DivisionError::ZeroDivisor));
    assert_eq!(p.clone().div(terms(&[3, 1, -3, 1])), Err(DivisionError::ZeroDivisor));
    assert_eq!(p.clone().div(terms(&[2, 1])), Err(DivisionError::Inexact));
    assert_eq!(
        terms(&[1, i64::MAX]).div(terms(&[1, -1])),
        Err(DivisionError::Overflow)
    );
    let mut q = p.clone();
    assert_eq!(q.div_assign(terms(&[2, 1])), Err(DivisionError::Inexact));
    assert_eq!(q, p);
    assert_eq!(q.div_assign(terms(&[1, 1])), Ok(()));
    assert_eq!(q, terms(&[1, 1]));
}
