use cakcukus::traits::{Differentiation, TermTrait};
use cakcukus::{terms, Polynomial, Term};

#[test]
fn test_vec() {
    // Build the initial equation, being 2x^2 - 3x + 5
    let terms = Polynomial(vec![
        Term::new(2, 2),
        Term::new(-3, 1),
        Term::new(5, 0),
    ]);

    // This differentiates into 4x - 3
    let differentiated = terms.differentiate_self();

    // At x = 7, the gradient should be 25
    assert_eq!(25, differentiated.sum_with_respect_to(&7));
}

#[test]
fn test_terms() {
    // Build the initial equation, being 2x^2 - 3x + 5
    let terms: Polynomial = terms(&[2, 2, -3, 1, 5, 0]);

    // This differentiates into 4x - 3
    let differentiated = terms.differentiate_self();

    // At x = 7, the gradient should be 25
    assert_eq!(25, differentiated.sum_with_respect_to(&7));
}
