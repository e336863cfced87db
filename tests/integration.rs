use cakcukus::traits::{Differentiation, Integration, Intergration, TermTrait};
use cakcukus::{Polynomial, Term};

#[test]
fn integrate_exact_coefficients() {
    // 5x^4 + 2x + 4 integrates to x^5 + x^2 + 4x
    let terms = Polynomial(vec![Term::new(5, 4), Term::new(2, 1), Term::new(4, 0)]);
    let integrated = terms.integrate_self();
    assert_eq!(
        integrated,
        Polynomial(vec![Term::new(1, 5), Term::new(1, 2), Term::new(4, 1)])
    );
    // 32 + 4 + 8
    assert_eq!(integrated.sum_between(0, 2), 44);
    assert_eq!(terms.integrate(0, 2), 44);
}

#[test]
fn integrate_rounds_toward_zero() {
    // x^4 integrates to x^5 / 5, whose coefficient rounds to 0
    let term = Term::new(1, 4);
    assert_eq!(term.integrate_self(), Term::new(0, 5));
    assert_eq!(Term::new(-7, 1).integrate_self(), Term::new(-3, 2));
}

#[test]
fn integrate_bounds_order() {
    let terms = Polynomial(vec![Term::new(3, 2)]);
    assert_eq!(terms.integrate(1, 3), 26);
    assert_eq!(terms.integrate(3, 1), -26);
    assert_eq!(Term::new(3, 2).integrate(1, 3), 26);
}

#[test]
fn intergrate_term_and_list() {
    let list = vec![Term::new(5, 4), Term::new(2, 1), Term::new(4, 0)];
    assert_eq!(
        list.intergrated_self(),
        vec![Term::new(1, 5), Term::new(1, 2), Term::new(4, 1)]
    );
    assert_eq!(list.intergrate(0, 2), 44);
    assert_eq!(Term::new(3, 2).intergrate(1, 3), 26);
    assert_eq!(Term::new(3, 2).intergrated_self(), Term::new(1, 3));
}

#[test]
fn integral_of_derivative() {
    let p = Polynomial(vec![Term::new(7, 3), Term::new(-2, 1), Term::new(4, -2)]);
    assert_eq!(p.differentiate_self().integrate_self(), p);
}

#[test]
fn integrate_truncates_fractional_coefficient() {
    // x^4 + 2x + 4: the x^5 coefficient 1/5 rounds toward zero
    let terms = Polynomial(vec![Term::new(1, 4), Term::new(2, 1), Term::new(4, 0)]);
    let integrated = terms.integrate_self();
    assert_eq!(
        integrated,
        Polynomial(vec![Term::new(0, 5), Term::new(1, 2), Term::new(4, 1)])
    );
    assert_eq!(integrated.sum_between(0, 2), 12);
}

#[test]
fn term_list_calculus() {
    let list = vec![Term::new(2, 2), Term::new(-3, 1), Term::new(5, 0)];
    let slope = list.differentiate_self();
    assert_eq!(slope, vec![Term::new(4, 1), Term::new(-3, 0), Term::new(0, -1)]);
    assert_eq!(list.differentiate(&7), 25);
    assert_eq!(list.sum_with_respect_to(&2), 7);
    assert_eq!(list.sum_between(0, 2), 2);
    let cubic = vec![Term::new(3, 2)];
    assert_eq!(cubic.integrate_self(), vec![Term::new(1, 3)]);
    assert_eq!(Integration::integrate(&cubic, 1, 3), 26);
}
