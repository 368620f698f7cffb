//! Sumcheck runs on a list of polynomials, described through their tables:
//! what a plain or a zero-knowledge proof establishes, and the two provers
//! run on freshly built instances.
use crate::crypto::sumcheck::linear_prover::{
    bound_tables, hypercube_sum, lemma_msg_correct_by_tables, mle_prod, poly_tables, tables_msg_correct,
    LinearSumcheckProver,
};
use crate::crypto::sumcheck::prover::{
    msgs_vals, rounds_challenges, rounds_log, MaskCommitter, ProveContext, SumcheckProof, SumcheckProver,
};
use crate::crypto::sumcheck::sumcheck_verifier::{
    lemma_completeness, lemma_rounds_take, verify_spec, zk_preamble_log,
};
use crate::crypto::sumcheck::zk_linear_prover::{
    coeffs_vals, is_ceil_log2, lemma_zk_completeness, lemma_zk_msg_correct_by_tables,
    mask_commitment_view, mask_eval, mask_sum, tables_zk_msg_correct, ZkLinearSumcheckProver,
};
use crate::util::field::{fadd, fmul, fvals, lemma_fe_range, p, Fe, MODULUS};
use crate::util::poly::{copy_fes, folds, mle, DenseMLPoly};
use crate::util::transcript::{
    t_after_challenge, t_after_challenges, t_append_u64, t_challenge, t_challenges, Transcript, LABEL_MASK_OPEN,
    LABEL_NUM_POLY, LABEL_NUM_VAR, LABEL_RHO,
};
use vstd::arithmetic::power2::pow2;
use vstd::prelude::*;

verus! {

/// `Π_{i<k} mle(tabs[i], point)`.
pub open spec fn tables_mle_prod(tabs: Seq<Seq<int>>, point: Seq<int>, k: nat) -> int
    decreases k,
{
    if k == 0 {
        1
    } else {
        fmul(tables_mle_prod(tabs, point, (k - 1) as nat), mle(tabs[k - 1], point))
    }
}

proof fn lemma_mle_prod_tables(polys: Seq<DenseMLPoly>, point: Seq<int>, k: nat)
    requires
        k <= polys.len(),
    ensures
        mle_prod(polys, point, k) == tables_mle_prod(poly_tables(polys), point, k),
    decreases k,
{
    if k > 0 {
        lemma_mle_prod_tables(polys, point, (k - 1) as nat);
    }
}

/// A plain sumcheck proof of `Σ_x Π_i tabs[i][x]` over `n` variables, run
/// from the transcript `log1` and leaving it at `log2`: every round message
/// (of `tabs.len() + 1` values) is correct for the challenges it led to,
/// the final value is the product of the tables' extensions there, and
/// the verifier given the true sum accepts with the same challenges and
/// transcript.
#[verifier::opaque]
pub open spec fn sumcheck_proof_ok(tabs: Seq<Seq<int>>, proof: SumcheckProof, log1: Seq<u8>, n: nat, log2: Seq<u8>) -> bool {
    let l = tabs.len();
    let ms = msgs_vals(proof.round_messages@);
    let chs = rounds_challenges(log1, ms);
    &&& proof.round_messages.len() == n
    &&& forall|k: int| 0 <= k < n ==> #[trigger] proof.round_messages@[k].len() == l + 1
    &&& forall|k: int| 0 <= k < n ==> #[trigger] tables_msg_correct(tabs, chs, k, ms[k], n)
    &&& proof.final_eval@ == tables_mle_prod(tabs, chs, l)
    &&& proof.zk_mask_sum is None
    &&& proof.zk_mask_coeffs is None
    &&& proof.zk_mask_commitment is None
    &&& proof.zk_mask_opening_proof is None
    &&& proof.zk_mask_opening_point is None
    &&& proof.zk_mask_opening_eval is None
    &&& log2 == rounds_log(log1, ms)
    &&& verify_spec(n, l, log1, ms, hypercube_sum(tabs, pow2(n))) == (
        true,
        tables_mle_prod(tabs, chs, l),
        chs,
        log2,
    )
}

/// Round messages that are both correct for the same tables, from the same
/// log, agree on their first `k` rounds: each round's message is fixed by
/// the tables and the challenges drawn before it.
proof fn lemma_msgs_agree(tabs: Seq<Seq<int>>, m1: Seq<Seq<int>>, m2: Seq<Seq<int>>, log1: Seq<u8>, n: nat, k: nat)
    requires
        k <= n,
        m1.len() == n,
        m2.len() == n,
        forall|j: int| 0 <= j < n ==> (#[trigger] m1[j]).len() == tabs.len() + 1,
        forall|j: int| 0 <= j < n ==> (#[trigger] m2[j]).len() == tabs.len() + 1,
        forall|j: int| 0 <= j < n ==> #[trigger] tables_msg_correct(tabs, rounds_challenges(log1, m1), j, m1[j], n),
        forall|j: int| 0 <= j < n ==> #[trigger] tables_msg_correct(tabs, rounds_challenges(log1, m2), j, m2[j], n),
    ensures
        m1.take(k as int) == m2.take(k as int),
    decreases k,
{
    if k > 0 {
        let j = (k - 1) as int;
        lemma_msgs_agree(tabs, m1, m2, log1, n, (k - 1) as nat);
        lemma_rounds_take(log1, m1, j as nat);
        lemma_rounds_take(log1, m2, j as nat);
        let c1 = rounds_challenges(log1, m1);
        let c2 = rounds_challenges(log1, m2);
        assert(c1.take(j) == c2.take(j));
        assert(tables_msg_correct(tabs, c1, j, m1[j], n));
        assert(tables_msg_correct(tabs, c2, j, m2[j], n));
        assert(m1[j] =~= m2[j]);
        assert(m1.take(k as int) =~= m1.take(j).push(m1[j]));
        assert(m2.take(k as int) =~= m2.take(j).push(m2[j]));
    }
}

/// A plain sumcheck proof is determined by its tables and the log it starts
/// from: two proofs correct for the same tables, variables and starting log
/// have the same round messages, final value and challenges, and leave
/// the same log.
pub proof fn lemma_plain_proof_determined(
    tabs: Seq<Seq<int>>,
    p1: SumcheckProof,
    p2: SumcheckProof,
    log1: Seq<u8>,
    n: nat,
    l2a: Seq<u8>,
    l2b: Seq<u8>,
)
    requires
        sumcheck_proof_ok(tabs, p1, log1, n, l2a),
        sumcheck_proof_ok(tabs, p2, log1, n, l2b),
    ensures
        msgs_vals(p1.round_messages@) == msgs_vals(p2.round_messages@),
        p1.final_eval@ == p2.final_eval@,
        rounds_challenges(log1, msgs_vals(p1.round_messages@)) == rounds_challenges(
            log1,
            msgs_vals(p2.round_messages@),
        ),
        l2a == l2b,
{
    reveal(sumcheck_proof_ok);
    let m1 = msgs_vals(p1.round_messages@);
    let m2 = msgs_vals(p2.round_messages@);
    assert forall|j: int| 0 <= j < n implies (#[trigger] m1[j]).len() == tabs.len() + 1 by {
        assert(p1.round_messages@[j].len() == tabs.len() + 1);
    }
    assert forall|j: int| 0 <= j < n implies (#[trigger] m2[j]).len() == tabs.len() + 1 by {
        assert(p2.round_messages@[j].len() == tabs.len() + 1);
    }
    lemma_msgs_agree(tabs, m1, m2, log1, n, n);
    assert(m1.take(n as int) =~= m1);
    assert(m2.take(n as int) =~= m2);
}

/// The log after absorbing the mask commitment and the mask sum of `proof`.
pub open spec fn zk_start_preamble(proof: SumcheckProof, log1: Seq<u8>) -> Seq<u8> {
    zk_preamble_log(
        log1,
        mask_commitment_view(proof),
        match proof.zk_mask_sum {
            Some(v) => v@,
            None => 0,
        },
    )
}

/// The log after the zero-knowledge preamble of `proof` (mask commitment,
/// mask sum, `ρ`) from `log1`.
pub open spec fn zk_rounds_start(proof: SumcheckProof, log1: Seq<u8>) -> Seq<u8> {
    t_after_challenge(zk_start_preamble(proof, log1), LABEL_RHO)
}

/// A zero-knowledge sumcheck proof of `Σ_x Π_i tabs[i][x]` over `n`
/// variables, run from the transcript `log1` and leaving it at `log2`, with
/// or without a mask committer: the mask has one polynomial of
/// `tabs.len() + 1` coefficients per round and its sum is the claimed one,
/// every round message is correct for the masked sum, the final value is
/// the product of the extensions plus `ρ` times the mask, at the
/// challenges, and the verifier given the true sum plus `ρ` times the mask
/// sum accepts with the same challenges.
#[verifier::opaque]
pub open spec fn zk_sumcheck_proof_ok(
    tabs: Seq<Seq<int>>,
    proof: SumcheckProof,
    log1: Seq<u8>,
    n: nat,
    with_committer: bool,
    log2: Seq<u8>,
) -> bool {
    let l = tabs.len();
    &&& proof.zk_mask_coeffs is Some
    &&& proof.zk_mask_sum is Some
    &&& ({
        let c = proof.zk_mask_coeffs->0;
        let cs = coeffs_vals(c@);
        let sm = proof.zk_mask_sum->0@;
        let rho = t_challenge(zk_start_preamble(proof, log1), LABEL_RHO);
        let l1 = zk_rounds_start(proof, log1);
        let ms = msgs_vals(proof.round_messages@);
        let chs = rounds_challenges(l1, ms);
        let l2 = rounds_log(l1, ms);
        &&& proof.round_messages.len() == n
        &&& forall|k: int| 0 <= k < n ==> #[trigger] proof.round_messages@[k].len() == l + 1
        &&& c.len() == n
        &&& forall|i: int| 0 <= i < n ==> (#[trigger] c@[i]).len() == l + 1
        &&& sm == mask_sum(cs)
        &&& forall|k: int| 0 <= k < n ==> #[trigger] tables_zk_msg_correct(tabs, cs, rho, chs, k, ms[k], n)
        &&& fadd(ms[0][0], ms[0][1]) == fadd(hypercube_sum(tabs, pow2(n)), fmul(rho, sm))
        &&& proof.final_eval@ == fadd(tables_mle_prod(tabs, chs, l), fmul(rho, mask_eval(cs, chs, n)))
        &&& verify_spec(n, l, l1, ms, fadd(hypercube_sum(tabs, pow2(n)), fmul(rho, sm))) == (
            true,
            fadd(tables_mle_prod(tabs, chs, l), fmul(rho, mask_eval(cs, chs, n))),
            chs,
            l2,
        )
        &&& !with_committer ==> {
            &&& proof.zk_mask_commitment is None
            &&& proof.zk_mask_opening_proof is None
            &&& proof.zk_mask_opening_point is None
            &&& proof.zk_mask_opening_eval is None
            &&& log2 == l2
        }
        &&& with_committer ==> {
            &&& proof.zk_mask_commitment is Some
            &&& proof.zk_mask_opening_proof is Some
            &&& proof.zk_mask_opening_point is Some
            &&& proof.zk_mask_opening_eval is Some
            &&& is_ceil_log2(n * (l + 1), proof.zk_mask_opening_point->0.len() as nat)
            &&& fvals(proof.zk_mask_opening_point->0@) == t_challenges(
                l2,
                LABEL_MASK_OPEN,
                proof.zk_mask_opening_point->0.len() as nat,
            )
            &&& log2 == t_after_challenges(l2, LABEL_MASK_OPEN, proof.zk_mask_opening_point->0.len() as nat)
        }
    })
}

/// Runs the plain sumcheck on `instances`, polynomials in `n` variables;
/// returns its proof and challenges.
pub(crate) fn run_sumcheck(n: usize, instances: &Vec<DenseMLPoly>, transcript: &mut Transcript) -> (r: (
    SumcheckProof,
    Vec<Fe>,
))
    requires
        instances.len() >= 1,
        instances.len() < MODULUS,
        instances.len() < usize::MAX,
        forall|i: int| 0 <= i < instances.len() ==> (#[trigger] instances@[i]).evaluations.len() == pow2(n as nat),
    ensures
        ({
            let log1 = t_append_u64(
                t_append_u64(old(transcript)@, LABEL_NUM_VAR, n as u64),
                LABEL_NUM_POLY,
                instances.len() as u64,
            );
            &&& sumcheck_proof_ok(poly_tables(instances@), r.0, log1, n as nat, final(transcript)@)
            &&& fvals(r.1@) == rounds_challenges(log1, msgs_vals(r.0.round_messages@))
            &&& r.1.len() == n
        }),
{
    let l = instances.len();
    let mut sumcheck_prover = LinearSumcheckProver::new(n, l, transcript);
    let ghost log1 = transcript@;
    let ghost tabs = poly_tables(instances@);
    let proof = sumcheck_prover.prove(instances, transcript);
    let challenges = copy_fes(&sumcheck_prover.challenges);
    proof {
        let ms = msgs_vals(proof.round_messages@);
        let chs = rounds_challenges(log1, ms);
        lemma_rounds_take(log1, ms, 0);
        assert(fvals(challenges@) == chs);
        assert forall|k: int| 0 <= k < n implies #[trigger] tables_msg_correct(tabs, chs, k, ms[k], n as nat) by {
            lemma_msg_correct_by_tables(instances@, chs, k, ms[k], n as nat);
        }
        lemma_mle_prod_tables(instances@, chs, l as nat);
        assert(bound_tables(instances@, seq![]) =~= tabs) by {
            assert forall|i: int| 0 <= i < l implies folds(#[trigger] instances@[i].table(), seq![]) == tabs[i] by {
            }
        }
        assert forall|j: int| 0 <= j < n implies (#[trigger] ms[j]).len() == l + 1 by {
            assert(proof.round_messages@[j].len() == l + 1);
        }
        lemma_completeness(instances@, ms, log1, n as nat, l as nat);
        assert(sumcheck_proof_ok(tabs, proof, log1, n as nat, transcript@)) by {
            reveal(sumcheck_proof_ok);
        }
    }
    (proof, challenges)
}

/// Runs the zero-knowledge sumcheck on `instances`, polynomials in `n`
/// variables; returns its proof and challenges.
pub(crate) fn run_zk_sumcheck<C: MaskCommitter>(
    n: usize,
    instances: &Vec<DenseMLPoly>,
    transcript: &mut Transcript,
    ctx: &mut ProveContext<C>,
) -> (r: (SumcheckProof, Vec<Fe>))
    requires
        1 <= n <= 64,
        instances.len() >= 1,
        instances.len() < MODULUS,
        instances.len() < usize::MAX,
        n * (instances.len() + 1) <= usize::MAX / 2,
        forall|i: int| 0 <= i < instances.len() ==> (#[trigger] instances@[i]).evaluations.len() == pow2(n as nat),
    ensures
        *final(ctx) == *old(ctx),
        ({
            let log1 = t_append_u64(
                t_append_u64(old(transcript)@, LABEL_NUM_VAR, n as u64),
                LABEL_NUM_POLY,
                instances.len() as u64,
            );
            &&& zk_sumcheck_proof_ok(
                poly_tables(instances@),
                r.0,
                log1,
                n as nat,
                old(ctx).mask_committer is Some,
                final(transcript)@,
            )
            &&& fvals(r.1@) == rounds_challenges(zk_rounds_start(r.0, log1), msgs_vals(r.0.round_messages@))
            &&& r.1.len() == n
        }),
{
    let l = instances.len();
    let mut zk_prover = ZkLinearSumcheckProver::new(n, l, transcript);
    let ghost log1 = transcript@;
    let ghost tabs = poly_tables(instances@);
    proof {
        assert(bound_tables(instances@, seq![]) =~= tabs) by {
            assert forall|i: int| 0 <= i < l implies folds(#[trigger] instances@[i].table(), seq![]) == tabs[i] by {
            }
        }
    }
    let proof = zk_prover.prove_zk(instances, transcript, ctx);
    let challenges = copy_fes(&zk_prover.challenges);
    proof {
        let ms = msgs_vals(proof.round_messages@);
        let l1 = zk_rounds_start(proof, log1);
        let chs = rounds_challenges(l1, ms);
        let c = proof.zk_mask_coeffs->0;
        let cs = coeffs_vals(c@);
        let rho = t_challenge(zk_start_preamble(proof, log1), LABEL_RHO);
        lemma_rounds_take(l1, ms, 0);
        assert(fvals(zk_prover.challenges@) == chs);
        assert forall|k: int| 0 <= k < n implies #[trigger] tables_zk_msg_correct(
            tabs,
            cs,
            rho,
            chs,
            k,
            ms[k],
            n as nat,
        ) by {
            lemma_zk_msg_correct_by_tables(instances@, cs, rho, chs, k, ms[k], n as nat);
        }
        lemma_mle_prod_tables(instances@, chs, l as nat);
        assert forall|j: int| 0 <= j < n implies (#[trigger] ms[j]).len() == l + 1 by {
            assert(proof.round_messages@[j].len() == l + 1);
        }
        assert forall|i: int| 0 <= i < n implies (#[trigger] cs[i]).len() == l + 1 by {
            assert(c@[i].len() == l + 1);
        }
        assert forall|i: int, j: int| 0 <= i < n && 0 <= j < l + 1 implies 0 <= #[trigger] cs[i][j] < p() by {
            lemma_fe_range(c@[i]@[j]);
        }
        lemma_zk_completeness(instances@, cs, rho, ms, l1, n as nat, l as nat);
        assert(zk_sumcheck_proof_ok(tabs, proof, log1, n as nat, old(ctx).mask_committer is Some, transcript@)) by {
            reveal(zk_sumcheck_proof_ok);
        }
    }
    (proof, challenges)
}

/// A copy of round messages, entry by entry.
pub(crate) fn copy_round_messages(m: &Vec<Vec<Fe>>) -> (r: Vec<Vec<Fe>>)
    ensures
        msgs_vals(r@) == msgs_vals(m@),
{
    let mut r: Vec<Vec<Fe>> = Vec::new();
    let mut i: usize = 0;
    while i < m.len()
        invariant
            i <= m.len(),
            r.len() == i,
            forall|k: int| 0 <= k < i ==> (#[trigger] r@[k])@ == m@[k]@,
        decreases m.len() - i,
    {
        r.push(copy_fes(&m[i]));
        i = i + 1;
    }
    assert(msgs_vals(r@) =~= msgs_vals(m@)) by {
        assert forall|k: int| 0 <= k < r.len() implies msgs_vals(r@)[k] == msgs_vals(m@)[k] by {
            assert(r@[k]@ == m@[k]@);
        }
    }
    r
}

} // verus!
