use cakcukus::traits::TermTrait;
use cakcukus::{terms, Polynomial, Term};

#[test]
fn term_terms() {
    let terms = terms(&[2, 2, -3, 1]);

    assert_eq!(
        terms,
        Polynomial(vec![Term::new(2, 2), Term::new(-3, 1)])
    );
}

#[test]
fn term_term() {
    let term = Term::new(5, 2);

    assert_eq!(term, Term::new(5, 2))
}

#[test]
fn mult() {
    let mut term = Term::new(2, 1);

    term.mul_assign_scalar(15);

    assert_eq!(term, Term::new(30, 1));

    assert_eq!(term.mul(Term::new(1, 3)), Term::new(30, 4));
}

#[test]
fn div() {
    let mut term = Term::new(30, 4);

    term.div_assign_scalar(15);

    assert_eq!(term, Term::new(2, 4));

    assert_eq!(term.div(Term::new(1, 3)), Term::new(2, 1));
}

#[test]
fn term_arithmetic_edges() {
    assert_eq!(Term::new(7, 2).div_scalar(-2), Term::new(-3, 2));
    assert_eq!(Term::new(-7, 2).div(Term::new(2, 5)), Term::new(-3, -3));
    assert_eq!(Term::new(-4, 3).neg(), Term::new(4, 3));
    assert_eq!(Term::new(3, 2).mul_scalar(-2), Term::new(-6, 2));
    let mut t = Term::new(3, 2);
    t.mul_assign(Term::new(2, -5));
    assert_eq!(t, Term::new(6, -3));
    t.div_assign(Term::new(3, 1));
    assert_eq!(t, Term::new(2, -4));
}

#[test]
fn term_evaluation() {
    // 5x^2 at x = 2
    assert_eq!(Term::new(5, 2).sum_with_respect_to(&2), 20);
    // 0^0 is taken as 1
    assert_eq!(Term::new(3, 0).sum_with_respect_to(&0), 3);
    // negative powers: integral only at 1 and -1, zero elsewhere
    assert_eq!(Term::new(3, -2).sum_with_respect_to(&1), 3);
    assert_eq!(Term::new(3, -3).sum_with_respect_to(&-1), -3);
    assert_eq!(Term::new(3, -2).sum_with_respect_to(&-1), 3);
    assert_eq!(Term::new(3, -1).sum_with_respect_to(&2), 0);
    // (-2)^63 is i64::MIN
    assert_eq!(Term::new(1, 63).sum_with_respect_to(&-2), i64::MIN);
    assert_eq!(Term::new(-1, 63).sum_with_respect_to(&2), i64::MIN);
}

#[test]
fn sum_between_swapped() {
    let p = Polynomial(vec![Term::new(2, 3), Term::new(-1, 1), Term::new(6, 0)]);
    assert_eq!(p.sum_between(-2, 3), 65);
    assert_eq!(p.sum_between(3, -2), -65);
    assert_eq!(p.sum_with_respect_to(&3), 57);
}
