//! Cryptographic protocols: the sumcheck protocol and polynomial
//! commitments.
pub mod polycommit;
pub mod sumcheck;

pub use sumcheck::prover::{MaskCommitter, ProveContext, SumcheckProof};
pub use sumcheck::{
    eval_univariate, recompute_mask_eval, recompute_mask_sum, replay_mask_opening_transcript,
    verify_mask_consistency, GeneralLinearSumcheckProver, LinearSumcheckProver, SumcheckProver,
    SumcheckVerifier,
    ZkLinearSumcheckProver,
};
