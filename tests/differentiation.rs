use cakcukus::traits::{Differentiation, TermTrait};
use cakcukus::{Polynomial, Term};

#[test]
fn differentiate_return() {
    // Build the initial equation, being 2x^2 - 3x + 5
    let terms = Polynomial(vec![
        Term::new(2, 2),
        Term::new(-3, 1),
        Term::new(5, 0),
    ]);

    // This differentiates into 4x - 3
    let differentiated = terms.differentiate_self();

    // At x = 7, the gradient should be 25
    assert_eq!(25, differentiated.sum_with_respect_to(&7));
}

#[test]
fn differentiate_terms_by_power_rule() {
    let terms = Polynomial(vec![Term::new(2, 2), Term::new(-3, 1), Term::new(5, 0)]);
    let differentiated = terms.differentiate_self();
    assert_eq!(
        differentiated,
        Polynomial(vec![Term::new(4, 1), Term::new(-3, 0), Term::new(0, -1)])
    );
    assert_eq!(terms.differentiate(&7), 25);
}

#[test]
fn derivative_loses_constant() {
    let without = Polynomial(vec![Term::new(2, 2), Term::new(-3, 1)]);
    let with = Polynomial(vec![Term::new(2, 2), Term::new(-3, 1), Term::new(9, 0)]);
    for x in -5..=5 {
        assert_eq!(without.differentiate(&x), with.differentiate(&x));
    }
}

#[test]
fn term_derivative() {
    let term = Term::new(3, 4);
    assert_eq!(term.differentiate_self(), Term::new(12, 3));
    assert_eq!(term.differentiate(&2), 96);
}
