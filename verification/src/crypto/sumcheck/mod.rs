//! The sumcheck protocol for `H = Σ_{x ∈ {0,1}^n} Π_i p_i(x)`, with an
//! optional zero-knowledge mask.
pub mod general_prover;
pub mod linear_prover;
pub mod prover;
pub mod runs;
pub mod sumcheck_verifier;
pub mod table_committer;
pub mod zk_linear_prover;

pub use general_prover::GeneralLinearSumcheckProver;
pub use linear_prover::LinearSumcheckProver;
pub use prover::{MaskCommitter, ProveContext, SumcheckProver};
pub use sumcheck_verifier::SumcheckVerifier;
pub use zk_linear_prover::{
    eval_univariate, recompute_mask_eval, recompute_mask_sum, replay_mask_opening_transcript,
    verify_mask_consistency, ZkLinearSumcheckProver,
};
