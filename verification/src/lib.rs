//! Verified core of a zero-knowledge machine-learning prover over the
//! Goldilocks field: field arithmetic, multilinear polynomials, a
//! Fiat-Shamir transcript, the (zero-knowledge) linear sumcheck protocol,
//! and the witness-generation kernels of the advice basic blocks.
pub mod basicblock;
pub mod crypto;
pub mod dag;
pub mod util;

use vstd::prelude::*;

verus! {

} // verus!
