use cakcukus::{terms, Polynomial, Term};

#[test]
fn general_terms() {
    let terms = terms(&[2, 2, -3, 1]);

    assert_eq!(terms, Polynomial(vec![Term::new(2, 2), Term::new(-3, 1)]));
}

#[test]
fn general_term() {
    let term = Term::new(5, 2);

    assert_eq!(term, Term::new(5, 2))
}

#[test]
fn empty_terms() {
    assert_eq!(terms(&[]), Polynomial::new());
    assert_eq!(Polynomial::default(), Polynomial::with_capacity(4));
}
