//! Arithmetic foundations: the field, multilinear and univariate
//! polynomials, and the Fiat-Shamir transcript.
pub mod expansion;
pub mod field;
pub mod lagrange;
pub mod padding;
pub mod poly;
pub mod fermat;
pub mod transcript;
