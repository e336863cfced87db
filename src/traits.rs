//! The calculus surface shared by [`Term`](crate::Term) and
//! [`Polynomial`](crate::Polynomial).
use vstd::prelude::*;

pub mod differentiation;
pub mod integration;
pub mod intergration;
pub mod term;

pub use differentiation::Differentiation;
pub use integration::Integration;
pub use intergration::Intergration;
pub use term::TermTrait;

use crate::polynomial::Polynomial;
use crate::term::Term;

verus! {

/// A type that can be evaluated, differentiated and integrated.
pub trait Calculus: Differentiation + Integration + TermTrait {

}

impl Calculus for Term {

}

impl Calculus for Polynomial {

}

impl Calculus for Vec<Term> {

}

} // verus!
