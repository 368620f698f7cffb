//! Multilinear polynomial commitments.
pub mod kzh2;

use crate::util::field::{fvals, Fe};
use crate::util::poly::{mle, DenseMLPoly};
use vstd::prelude::*;

verus! {

/// Operations on the first source group of a pairing that the pairing-based
/// commitment schemes use: multi-scalar multiplications and conversions.
pub trait PairingG1: Sized {
    type ScalarField;
    type Affine: Clone + PairingAffine;

    /// `Σ_i bases[i]·scalars[i]`, or an error when the lengths differ.
    fn msm(bases: &[Self::Affine], scalars: &[Self::ScalarField]) -> Result<Self, String>;

    /// `Σ_i bases[i]·scalars[i]`, without checking the lengths.
    fn msm_unchecked(bases: &[Self::Affine], scalars: &[Self::ScalarField]) -> Self;

    /// `Σ_i all_bases[indices[i]]·scalars[i]`, indexing into the bases
    /// instead of copying them.
    fn sparse_msm(all_bases: &[Self::Affine], indices: &[usize], scalars: &[Self::ScalarField]) -> Result<Self, String>;

    /// The identity element.
    fn zero() -> Self;

    /// The affine representation.
    fn into_affine(self) -> Self::Affine;
}

/// Coordinates of an affine curve point.
pub trait PairingAffine: Sized {
    type BaseField;

    fn x(&self) -> Self::BaseField;

    fn y(&self) -> Self::BaseField;
}

/// A commitment that can be absorbed into a Fiat-Shamir transcript.
pub trait Commitment: Sized {
    /// The binding part of the commitment, serialized.
    fn to_transcript_bytes(&self) -> Vec<u8>;
}

/// A commitment scheme for dense multilinear polynomials.
pub trait MLPolyCommit {
    type CommitmentKey;
    type VerifierKey;
    type Commitment;
    type Proof;

    /// The polynomials the scheme commits to.
    spec fn poly_ok(poly: &DenseMLPoly) -> bool;

    /// The points at which a commitment can be opened.
    spec fn point_ok(commitment: &Self::Commitment, point: Seq<Fe>) -> bool;

    fn setup(n: usize, sf_log: usize, offset: i128, size: usize) -> Self::CommitmentKey;

    fn commit(poly: &DenseMLPoly, key: &Self::CommitmentKey) -> (c: Self::Commitment)
        requires
            Self::poly_ok(poly),
    ;

    fn open(
        commitment: &Self::Commitment,
        poly: &DenseMLPoly,
        key: &Self::CommitmentKey,
        point: &[Fe],
    ) -> Self::Proof
        requires
            Self::point_ok(commitment, point@),
    ;

    fn verify(
        commitment: &Self::Commitment,
        proof: &Self::Proof,
        key: &Self::VerifierKey,
        point: &[Fe],
    ) -> bool
        requires
            Self::point_ok(commitment, point@),
    ;
}

/// The trivial scheme: the commitment is the polynomial itself (perfectly
/// binding, not hiding), and an opening is the claimed evaluation.  For
/// testing the commitment interface.
#[derive(Clone, Debug)]
pub struct NaiveMLPolyCommit;

/// A naive commitment: the committed polynomial.
#[derive(Clone, Debug)]
pub struct NaiveCommitment(pub DenseMLPoly);

impl Commitment for NaiveCommitment {
    /// A naive commitment puts nothing into the transcript: its bytes are
    /// empty.
    fn to_transcript_bytes(&self) -> (bytes: Vec<u8>)
        ensures
            bytes@ == Seq::<u8>::empty(),
    {
        Vec::new()
    }
}

impl MLPolyCommit for NaiveMLPolyCommit {
    type CommitmentKey = ();
    type VerifierKey = ();
    type Commitment = NaiveCommitment;
    type Proof = Fe;

    open spec fn poly_ok(poly: &DenseMLPoly) -> bool {
        poly.wf()
    }

    open spec fn point_ok(commitment: &NaiveCommitment, point: Seq<Fe>) -> bool {
        commitment.0.wf() && point.len() == commitment.0.num_vars
    }

    fn setup(_n: usize, _sf_log: usize, _offset: i128, _size: usize) {
    }

    fn commit(poly: &DenseMLPoly, _key: &()) -> (c: NaiveCommitment)
        ensures
            c.0.num_vars == poly.num_vars,
            c.0.evaluations@ == poly.evaluations@,
    {
        NaiveCommitment(DenseMLPoly {
            num_vars: poly.num_vars,
            evaluations: crate::util::poly::copy_fes(&poly.evaluations),
        })
    }

    /// The evaluation of the committed polynomial at `point`.
    fn open(commitment: &NaiveCommitment, _poly: &DenseMLPoly, _key: &(), point: &[Fe]) -> (proof: Fe)
        ensures
            proof@ == mle(commitment.0.table(), fvals(point@)),
    {
        commitment.0.evaluate_at_point(point)
    }

    /// Accepts exactly when the proof is the committed polynomial's value.
    fn verify(commitment: &NaiveCommitment, proof: &Fe, _key: &(), point: &[Fe]) -> (r: bool)
        ensures
            r == (proof@ == mle(commitment.0.table(), fvals(point@))),
    {
        let v = commitment.0.evaluate_at_point(point);
        v.equals(proof)
    }
}

} // verus!
