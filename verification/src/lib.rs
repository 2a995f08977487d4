//! Minimization of Boolean functions by the Quine-McCluskey method.
//!
//! A function over at most 32 variables is given by the assignments on
//! which it is true. Its prime implicants are generated by joining terms
//! that differ in one position; a cover is selected from them; the cover
//! is returned as an expression tree.

pub mod bits;
pub mod combine;
pub mod cover;
pub mod expr;
pub mod greedy;
pub mod implicant;
pub mod minimize;
pub mod optimal;
pub mod primes;
pub mod select;
pub mod seqs;
pub mod sorted;
pub mod term;

pub use cover::{essential_implicants, minimal_cover};
pub use expr::{build_expression, Formula, Node};
pub use minimize::{minimize, MinimizeError};
pub use primes::prime_implicants;
pub use term::Term;
