//! Sumcheck proofs, the proving context, and the transcript schedule that
//! prover and verifier share.
use crate::util::field::{fvals, Fe};
use crate::util::poly::{mle, DenseMLPoly};
use crate::util::transcript::{
    t_after_challenge, t_append_u64, t_challenge, Transcript, LABEL_CHALLENGE, LABEL_ROUND_MESSAGE,
};
use vstd::prelude::*;

verus! {

/// Size in bytes of a serialized field element.
pub const FIELD_ELEMENT_BYTES: usize = 32;

/// A sumcheck proof; the `zk_*` fields are present in zero-knowledge mode.
#[derive(Clone, Debug)]
pub struct SumcheckProof {
    pub final_eval: Fe,
    pub round_messages: Vec<Vec<Fe>>,
    /// Mask sum `P = Σ_{x∈{0,1}^n} p(x)`.
    pub zk_mask_sum: Option<Fe>,
    /// Univariate mask coefficients `s_i`, each of `degree + 1` entries.
    pub zk_mask_coeffs: Option<Vec<Vec<Fe>>>,
    /// Commitment to the packed mask coefficients (opaque bytes).
    pub zk_mask_commitment: Option<Vec<u8>>,
    /// Opening proof for the packed mask coefficients (opaque bytes).
    pub zk_mask_opening_proof: Option<Vec<u8>>,
    /// Point at which the packed mask coefficients were opened.
    pub zk_mask_opening_point: Option<Vec<Fe>>,
    /// Claimed evaluation of the packed mask coefficients at that point.
    pub zk_mask_opening_eval: Option<Fe>,
}

/// `Σ_{i<k} v[i].len()`.
pub open spec fn nested_len(v: Seq<Vec<Fe>>, k: nat) -> int
    decreases k,
{
    if k == 0 {
        0
    } else {
        nested_len(v, (k - 1) as nat) + v[k - 1].len()
    }
}

proof fn lemma_nested_len_mono(v: Seq<Vec<Fe>>, i: nat, k: nat)
    requires
        i <= k,
    ensures
        0 <= nested_len(v, i) <= nested_len(v, k),
    decreases k,
{
    if k > 0 && i < k {
        lemma_nested_len_mono(v, i, (k - 1) as nat);
    }
    if k > 0 && i == k {
        lemma_nested_len_mono(v, (i - 1) as nat, (k - 1) as nat);
    }
}

impl SumcheckProof {
    /// Bytes the zero-knowledge fields add to a serialized proof.
    pub open spec fn zk_extra_bytes_spec(&self) -> int {
        let fe = FIELD_ELEMENT_BYTES as int;
        (if self.zk_mask_sum is Some {
            fe
        } else {
            0
        }) + (match self.zk_mask_coeffs {
            Some(c) => fe * nested_len(c@, c@.len()),
            None => 0,
        }) + (match self.zk_mask_commitment {
            Some(c) => c.len() as int,
            None => 0,
        }) + (match self.zk_mask_opening_proof {
            Some(c) => c.len() as int,
            None => 0,
        }) + (match self.zk_mask_opening_point {
            Some(c) => fe * c.len(),
            None => 0,
        }) + (if self.zk_mask_opening_eval is Some {
            fe
        } else {
            0
        })
    }

    /// Number of extra bytes the zero-knowledge fields add when serialized
    /// (32 bytes per field element).
    pub fn zk_extra_bytes(&self) -> (r: usize)
        requires
            self.zk_extra_bytes_spec() <= usize::MAX,
        ensures
            r == self.zk_extra_bytes_spec(),
    {
        let fe = FIELD_ELEMENT_BYTES;
        let ghost total = self.zk_extra_bytes_spec();
        let mut t: usize = 0;
        if self.zk_mask_sum.is_some() {
            t = t + fe;
        }
        let ghost t1 = t as int;
        match &self.zk_mask_coeffs {
            Some(coeffs) => {
                let mut i: usize = 0;
                let mut s: usize = 0;
                proof {
                    lemma_nested_len_mono(coeffs@, 0, coeffs@.len());
                }
                while i < coeffs.len()
                    invariant
                        i <= coeffs.len(),
                        s == fe * nested_len(coeffs@, i as nat),
                        t == t1,
                        fe == FIELD_ELEMENT_BYTES,
                        t1 + fe * nested_len(coeffs@, coeffs@.len()) <= total,
                        total <= usize::MAX,
                        t1 >= 0,
                    decreases coeffs.len() - i,
                {
                    proof {
                        lemma_nested_len_mono(coeffs@, (i + 1) as nat, coeffs@.len());
                        assert(nested_len(coeffs@, (i + 1) as nat) == nested_len(coeffs@, i as nat)
                            + coeffs@[i as int].len());
                    }
                    s = s + coeffs[i].len() * fe;
                    i = i + 1;
                }
                t = t + s;
            },
            None => {},
        }
        match &self.zk_mask_commitment {
            Some(c) => {
                t = t + c.len();
            },
            None => {},
        }
        match &self.zk_mask_opening_proof {
            Some(c) => {
                t = t + c.len();
            },
            None => {},
        }
        match &self.zk_mask_opening_point {
            Some(c) => {
                t = t + c.len() * fe;
            },
            None => {},
        }
        if self.zk_mask_opening_eval.is_some() {
            t = t + fe;
        }
        t
    }
}

/// Commits to and opens the packed mask-coefficient polynomial, binding
/// the mask before the masking scalar is drawn.  Implemented by polynomial
/// commitment schemes: what its commitment binds (`binds`) and which
/// openings it accepts (`accepts`) are the scheme's own; an opening gives
/// the polynomial's value at the point.
pub trait MaskCommitter {
    /// Whether `commitment` is what this scheme commits to the table
    /// `table` with.
    spec fn binds(&self, table: Seq<int>, commitment: Seq<u8>) -> bool;

    /// Whether this scheme accepts `proof` as an opening of `commitment` at
    /// `point` to the value `eval`.
    spec fn accepts(&self, commitment: Seq<u8>, proof: Seq<u8>, point: Seq<int>, eval: int) -> bool;

    /// Commits to a packed coefficients polynomial; returns opaque bytes.
    fn commit(&self, poly: &DenseMLPoly) -> (c: Vec<u8>)
        requires
            poly.wf(),
        ensures
            self.binds(poly.table(), c@),
    ;

    /// Opens at `point`; returns the proof bytes and the polynomial's value
    /// there.
    fn open(&self, poly: &DenseMLPoly, point: &[Fe]) -> (r: (Vec<u8>, Fe))
        requires
            poly.wf(),
            point.len() == poly.num_vars,
        ensures
            r.1@ == mle(poly.table(), fvals(point@)),
    ;

    /// Checks an opening.
    fn verify(&self, commitment: &[u8], proof: &[u8], point: &[Fe], eval: Fe) -> (r: bool)
        ensures
            r == self.accepts(commitment@, proof@, fvals(point@), eval@),
    ;
}

/// Context threaded through proving in zero-knowledge mode.
pub struct ProveContext<C: MaskCommitter> {
    pub zk: bool,
    pub mask_committer: Option<C>,
}

impl<C: MaskCommitter> ProveContext<C> {
    pub fn new(zk: bool) -> (r: Self)
        ensures
            r.zk == zk,
            r.mask_committer is None,
    {
        ProveContext { zk, mask_committer: None }
    }

    pub fn with_mask_committer(zk: bool, committer: C) -> (r: Self)
        ensures
            r.zk == zk,
            r.mask_committer == Some(committer),
    {
        ProveContext { zk, mask_committer: Some(committer) }
    }
}

/// Log after absorbing the round message `msg`, entry by entry.
pub open spec fn t_absorb_msg(log: Seq<u8>, msg: Seq<int>) -> Seq<u8>
    decreases msg.len(),
{
    if msg.len() == 0 {
        log
    } else {
        t_append_u64(t_absorb_msg(log, msg.drop_last()), LABEL_ROUND_MESSAGE, msg.last() as u64)
    }
}

/// The challenge that follows round message `msg`.
pub open spec fn round_challenge(log: Seq<u8>, msg: Seq<int>) -> int {
    t_challenge(t_absorb_msg(log, msg), LABEL_CHALLENGE)
}

/// Log after round message `msg` and its challenge.
pub open spec fn round_log(log: Seq<u8>, msg: Seq<int>) -> Seq<u8> {
    t_after_challenge(t_absorb_msg(log, msg), LABEL_CHALLENGE)
}

/// Log after the rounds `msgs`.
pub open spec fn rounds_log(log: Seq<u8>, msgs: Seq<Seq<int>>) -> Seq<u8>
    decreases msgs.len(),
{
    if msgs.len() == 0 {
        log
    } else {
        round_log(rounds_log(log, msgs.drop_last()), msgs.last())
    }
}

/// Challenges drawn in the rounds `msgs`.
pub open spec fn rounds_challenges(log: Seq<u8>, msgs: Seq<Seq<int>>) -> Seq<int>
    decreases msgs.len(),
{
    if msgs.len() == 0 {
        seq![]
    } else {
        rounds_challenges(log, msgs.drop_last()).push(
            round_challenge(rounds_log(log, msgs.drop_last()), msgs.last()),
        )
    }
}

/// Residues of a sequence of round messages.
pub open spec fn msgs_vals(m: Seq<Vec<Fe>>) -> Seq<Seq<int>> {
    m.map_values(|v: Vec<Fe>| fvals(v@))
}

/// Absorbs a round message into the transcript, entry by entry, and draws
/// the round's challenge.
pub fn absorb_round(transcript: &mut Transcript, msg: &Vec<Fe>) -> (c: Fe)
    ensures
        c@ == round_challenge(old(transcript)@, fvals(msg@)),
        final(transcript)@ == round_log(old(transcript)@, fvals(msg@)),
        c.v < crate::util::field::MODULUS,
{
    let ghost log0 = transcript@;
    let mut j: usize = 0;
    while j < msg.len()
        invariant
            j <= msg.len(),
            transcript@ == t_absorb_msg(log0, fvals(msg@).take(j as int)),
        decreases msg.len() - j,
    {
        transcript.append_scalar(LABEL_ROUND_MESSAGE, &msg[j]);
        proof {
            let t = fvals(msg@).take(j as int + 1);
            assert(t.drop_last() =~= fvals(msg@).take(j as int));
            assert(t.last() == msg@[j as int]@);
        }
        j = j + 1;
    }
    proof {
        assert(fvals(msg@).take(msg.len() as int) =~= fvals(msg@));
    }
    transcript.challenge_scalar(LABEL_CHALLENGE)
}

/// A sumcheck prover for instances of type `Instance`.
pub trait SumcheckProver: Sized {
    type Instance;

    /// Whether `prove` can run on `instances` from this state.
    spec fn ready(&self, instances: &Self::Instance) -> bool;

    /// A prover for `num_polys` polynomials in `n` variables; the instance
    /// size is absorbed into the transcript.
    fn new(n: usize, num_polys: usize, transcript: &mut Transcript) -> Self;

    /// Runs the protocol on `instances`, drawing the verifier's challenges
    /// from the transcript.
    fn prove(&mut self, instances: &Self::Instance, transcript: &mut Transcript) -> SumcheckProof
        requires
            old(self).ready(instances),
    ;
}

} // verus!
