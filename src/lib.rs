//! Symbolic single-variable polynomials with `i64` coefficients and
//! exponents: exact arithmetic, canonicalisation, long division and
//! term-wise calculus, each with a verified contract.
//!
//! A [`Term`] is one monomial `coefficient * x^exponent`; a [`Polynomial`]
//! is the sum of a list of terms. Arithmetic on polynomials concatenates or
//! multiplies term lists without merging like terms;
//! [`Polynomial::simplify`] brings a polynomial to its canonical form.

pub mod calculus;
pub mod convolution;
pub mod laws;
pub mod model;
pub mod polynomial;
pub mod term;
pub mod traits;

pub use polynomial::{terms, DivisionError, Polynomial};
pub use term::Term;
pub use traits::Calculus;
