//! The sumcheck verifier, with Fiat-Shamir challenges.
use crate::crypto::sumcheck::prover::{msgs_vals, round_challenge, round_log, rounds_challenges, rounds_log, absorb_round};
use crate::crypto::sumcheck::linear_prover::{
    bound_tables, g_prod, hypercube_sum, lemma_bound_tables_facts, lemma_point_prod_mle,
    lemma_point_prod_range, lemma_round_chain, lemma_round_chain_last, lemma_round_poly, mle_prod,
    point_prod, round_msg_correct, round_poly, round_value,
};
use crate::util::field::{
    cong, fadd, fmul, fvals, lemma_cong_mod, lemma_cong_residues, lemma_residue, p, Fe, MODULUS,
};
use crate::util::lagrange::{lemma_interpolation_exact, peval};
use crate::util::poly::{interp_defined, DenseMLPoly};
use crate::util::fermat::lemma_interp_defined;
use vstd::arithmetic::power2::{lemma2_to64, pow2};
use crate::util::poly::{evaluate_univariate_polynomial, interpolate};
use crate::util::transcript::{
    t_after_challenge, t_append_bytes, t_append_u64, t_challenge, Transcript, LABEL_MASK_COMMIT,
    LABEL_MASK_SUM, LABEL_NUM_POLY, LABEL_NUM_VAR, LABEL_RHO,
};
use vstd::prelude::*;

verus! {

/// The rounds' checks from the running claim `running` on: each message
/// has `num_poly + 1` entries, its values at 0 and 1 add up to the running
/// claim, and the next claim is its interpolation at the round's challenge.
/// Returns whether all checks pass, the final claim, the challenges, and the
/// transcript log.
pub open spec fn verify_rounds(
    num_poly: nat,
    log: Seq<u8>,
    msgs: Seq<Seq<int>>,
    running: int,
    acc: Seq<int>,
) -> (bool, int, Seq<int>, Seq<u8>)
    decreases msgs.len(),
{
    if msgs.len() == 0 {
        (true, running, acc, log)
    } else {
        let m = msgs[0];
        if m.len() != num_poly + 1 || fadd(m[0], m[1]) != running {
            (false, 0, seq![], log)
        } else {
            let ch = round_challenge(log, m);
            let log2 = round_log(log, m);
            match interpolate(m, ch) {
                None => (false, 0, seq![], log2),
                Some(v) => verify_rounds(num_poly, log2, msgs.drop_first(), v, acc.push(ch)),
            }
        }
    }
}

/// The whole verification: the number of rounds must be `num_var`.
pub open spec fn verify_spec(
    num_var: nat,
    num_poly: nat,
    log: Seq<u8>,
    msgs: Seq<Seq<int>>,
    claimed: int,
) -> (bool, int, Seq<int>, Seq<u8>) {
    if msgs.len() != num_var {
        (false, 0, seq![], log)
    } else {
        verify_rounds(num_poly, log, msgs, claimed, seq![])
    }
}

/// Log of the zero-knowledge preamble: the mask commitment (if any) and the
/// mask sum are absorbed, then `ρ` is drawn.
pub open spec fn zk_preamble_log(log: Seq<u8>, commitment: Option<Seq<u8>>, mask_sum: int) -> Seq<u8> {
    let l1 = match commitment {
        Some(c) => t_append_bytes(log, LABEL_MASK_COMMIT, c),
        None => log,
    };
    t_append_u64(l1, LABEL_MASK_SUM, mask_sum as u64)
}

/// A verifier that accepts exactly the successful runs replays the
/// prover's transcript: its challenges and final log are those the prover
/// derives from the same messages.
pub proof fn lemma_verify_rounds_replays(
    num_poly: nat,
    log: Seq<u8>,
    msgs: Seq<Seq<int>>,
    running: int,
    acc: Seq<int>,
    log0: Seq<u8>,
    done: Seq<Seq<int>>,
)
    requires
        verify_rounds(num_poly, log, msgs, running, acc).0,
        log == rounds_log(log0, done),
        acc == rounds_challenges(log0, done),
    ensures
        verify_rounds(num_poly, log, msgs, running, acc).2 == rounds_challenges(log0, done + msgs),
        verify_rounds(num_poly, log, msgs, running, acc).3 == rounds_log(log0, done + msgs),
    decreases msgs.len(),
{
    if msgs.len() == 0 {
        assert(done + msgs =~= done);
    } else {
        let m = msgs[0];
        let done2 = done.push(m);
        assert(done2.drop_last() =~= done);
        assert(done + msgs =~= done2 + msgs.drop_first());
        let ch = round_challenge(log, m);
        let v = interpolate(m, ch)->0;
        lemma_verify_rounds_replays(
            num_poly,
            round_log(log, m),
            msgs.drop_first(),
            v,
            acc.push(ch),
            log0,
            done2,
        );
    }
}

/// The claim entering round `k` of a run on the messages `ms` with
/// challenges `chs`, from the claimed sum: the claimed sum in round 0,
/// afterwards the previous message interpolated at the previous challenge.
pub open spec fn entering_claim(claimed: int, ms: Seq<Seq<int>>, chs: Seq<int>, k: int) -> int {
    if k == 0 {
        claimed
    } else {
        interpolate(ms[k - 1], chs[k - 1])->0
    }
}

/// Accepted rounds after the rounds `done`: each has `num_poly + 1`
/// values, its values at 0 and 1 add up to the claim entering it, and it
/// interpolates at its challenge; the final claim is the last
/// interpolation.
proof fn lemma_accepted_rounds_consistent(
    num_poly: nat,
    log0: Seq<u8>,
    done: Seq<Seq<int>>,
    msgs: Seq<Seq<int>>,
    running: int,
)
    requires
        verify_rounds(num_poly, rounds_log(log0, done), msgs, running, rounds_challenges(log0, done)).0,
        done.len() == 0 || running == interpolate(done.last(), rounds_challenges(log0, done).last())->0,
    ensures
        ({
            let all = done + msgs;
            let chs = rounds_challenges(log0, all);
            let d = done.len() as int;
            let out = verify_rounds(num_poly, rounds_log(log0, done), msgs, running, rounds_challenges(log0, done));
            &&& forall|k: int|
                d <= k < all.len() ==> {
                    &&& (#[trigger] all[k]).len() == num_poly + 1
                    &&& fadd(all[k][0], all[k][1]) == (if k == d { running } else { entering_claim(0, all, chs, k) })
                    &&& interpolate(all[k], chs[k]) is Some
                }
            &&& out.1 == (if msgs.len() == 0 { running } else { interpolate(all.last(), chs.last())->0 })
        }),
    decreases msgs.len(),
{
    let all = done + msgs;
    let chs = rounds_challenges(log0, all);
    let d = done.len() as int;
    lemma_rounds_take(log0, all, d as nat);
    assert(all.take(d) =~= done);
    if msgs.len() == 0 {
        assert(all =~= done);
    } else {
        let m = msgs[0];
        let log = rounds_log(log0, done);
        let acc = rounds_challenges(log0, done);
        let ch = round_challenge(log, m);
        let v = interpolate(m, ch)->0;
        let done2 = done.push(m);
        assert(done2.drop_last() =~= done);
        assert(rounds_log(log0, done2) == round_log(log, m));
        assert(rounds_challenges(log0, done2) == acc.push(ch));
        assert(all =~= done2 + msgs.drop_first());
        lemma_rounds_take(log0, all, (d + 1) as nat);
        assert(all.take(d + 1) =~= done2);
        assert(chs[d] == rounds_challenges(log0, done2)[d]);
        assert(chs[d] == ch);
        lemma_accepted_rounds_consistent(num_poly, log0, done2, msgs.drop_first(), v);
        assert(all[d] == m);
    }
}

/// What acceptance means: the verifier accepts the messages `ms` of a
/// proof of the claimed sum only if there are `n` of them, each of
/// `num_poly + 1` values, and in every round the message's values at 0 and
/// 1 add up (in the field) to the claim entering the round (the claimed
/// sum first, then the previous message interpolated at the previous
/// challenge), and it interpolates at its challenge.  It then ends with
/// the last interpolation and the challenges the transcript derives from
/// the messages.
pub proof fn lemma_verify_accepts_consistent_rounds(
    num_var: nat,
    num_poly: nat,
    log: Seq<u8>,
    ms: Seq<Seq<int>>,
    claimed: int,
)
    requires
        verify_spec(num_var, num_poly, log, ms, claimed).0,
    ensures
        ({
            let chs = rounds_challenges(log, ms);
            let out = verify_spec(num_var, num_poly, log, ms, claimed);
            &&& ms.len() == num_var
            &&& forall|k: int|
                0 <= k < num_var ==> {
                    &&& (#[trigger] ms[k]).len() == num_poly + 1
                    &&& fadd(ms[k][0], ms[k][1]) == entering_claim(claimed, ms, chs, k)
                    &&& interpolate(ms[k], chs[k]) is Some
                }
            &&& out.1 == entering_claim(claimed, ms, chs, num_var as int)
            &&& out.2 == chs
        }),
{
    let empty = Seq::<Seq<int>>::empty();
    assert(rounds_log(log, empty) == log);
    assert(rounds_challenges(log, empty) =~= seq![]);
    lemma_accepted_rounds_consistent(num_poly, log, empty, ms, claimed);
    assert(empty + ms =~= ms);
    lemma_verify_rounds_replays(num_poly, log, ms, claimed, seq![], log, empty);
    lemma_rounds_take(log, ms, 0);
}

pub(crate) proof fn lemma_rounds_take(log0: Seq<u8>, ms: Seq<Seq<int>>, k: nat)
    requires
        k <= ms.len(),
    ensures
        rounds_challenges(log0, ms.take(k as int)) == rounds_challenges(log0, ms).take(k as int),
        rounds_challenges(log0, ms).len() == ms.len(),
    decreases ms.len(),
{
    if ms.len() == 0 {
        assert(ms.take(k as int) =~= ms);
        assert(rounds_challenges(log0, ms).take(k as int) =~= rounds_challenges(log0, ms));
    } else if k == ms.len() {
        lemma_rounds_take(log0, ms.drop_last(), (k - 1) as nat);
        assert(ms.take(k as int) =~= ms);
        assert(rounds_challenges(log0, ms).take(k as int) =~= rounds_challenges(log0, ms));
    } else {
        lemma_rounds_take(log0, ms.drop_last(), k);
        assert(ms.drop_last().take(k as int) =~= ms.take(k as int));
        assert(rounds_challenges(log0, ms).take(k as int) =~= rounds_challenges(log0, ms.drop_last()).take(
            k as int,
        ));
    }
}

/// The claim entering round `k` of an honest run: the sum over the
/// hypercube for the first round, then the previous round's polynomial at
/// the previous challenge.
pub open spec fn honest_claim(polys: Seq<DenseMLPoly>, chs: Seq<int>, k: nat, n: nat) -> int {
    if k == 0 {
        hypercube_sum(bound_tables(polys, seq![]), pow2(n))
    } else {
        round_value(bound_tables(polys, chs.take(k - 1)), chs[k - 1], pow2((n - k) as nat))
    }
}

/// The hypotheses of an honest run: correct rounds of the right degree.
pub open spec fn honest_run(polys: Seq<DenseMLPoly>, ms: Seq<Seq<int>>, log0: Seq<u8>, n: nat, l: nat) -> bool {
    &&& l >= 1
    &&& polys.len() == l
    &&& forall|i: int| 0 <= i < polys.len() ==> (#[trigger] polys[i]).evaluations.len() == pow2(n)
    &&& ms.len() == n
    &&& forall|j: int| 0 <= j < n ==> (#[trigger] ms[j]).len() == l + 1
    &&& forall|j: int|
        0 <= j < n ==> #[trigger] round_msg_correct(polys, rounds_challenges(log0, ms), j, ms[j], n)
}

proof fn lemma_step_sum(polys: Seq<DenseMLPoly>, ms: Seq<Seq<int>>, log0: Seq<u8>, n: nat, l: nat, k: nat)
    requires
        honest_run(polys, ms, log0, n, l),
        k < n,
    ensures
        fadd(ms[k as int][0], ms[k as int][1]) == honest_claim(polys, rounds_challenges(log0, ms), k, n),
{
    let chs = rounds_challenges(log0, ms);
    lemma_rounds_take(log0, ms, k);
    assert(round_msg_correct(polys, chs, k as int, ms[k as int], n));
    if k == 0 {
        assert(chs.take(0) =~= seq![]);
    } else {
        lemma_round_chain(polys, chs, ms, n);
        assert(fadd(ms[(k - 1) + 1][0], ms[(k - 1) + 1][1]) == round_value(
            bound_tables(polys, chs.take(k - 1)),
            chs[k - 1],
            pow2((n - (k - 1) - 1) as nat),
        ));
    }
}

pub(crate) proof fn lemma_step_challenge(log0: Seq<u8>, ms: Seq<Seq<int>>, k: nat)
    requires
        k < ms.len(),
    ensures
        ({
            let chs = rounds_challenges(log0, ms);
            let log_k = rounds_log(log0, ms.take(k as int));
            &&& round_challenge(log_k, ms[k as int]) == chs[k as int]
            &&& round_log(log_k, ms[k as int]) == rounds_log(log0, ms.take(k + 1 as int))
            &&& chs.take(k as int).push(chs[k as int]) == chs.take(k + 1 as int)
        }),
{
    let chs = rounds_challenges(log0, ms);
    let m = ms[k as int];
    lemma_rounds_take(log0, ms, k);
    lemma_rounds_take(log0, ms, k + 1);
    assert(ms.take(k + 1 as int).drop_last() =~= ms.take(k as int));
    assert(ms.take(k + 1 as int).last() == m);
    assert(chs[k as int] == chs.take(k + 1 as int)[k as int]);
    assert(chs.take(k as int).push(chs[k as int]) =~= chs.take(k + 1 as int));
}

proof fn lemma_step_interp(polys: Seq<DenseMLPoly>, ms: Seq<Seq<int>>, log0: Seq<u8>, n: nat, l: nat, k: nat)
    requires
        honest_run(polys, ms, log0, n, l),
        interp_defined(l + 1),
        k < n,
    ensures
        interpolate(ms[k as int], rounds_challenges(log0, ms)[k as int]) == Some(
            honest_claim(polys, rounds_challenges(log0, ms), k + 1, n),
        ),
{
    let chs = rounds_challenges(log0, ms);
    lemma_rounds_take(log0, ms, k);
    let m = ms[k as int];
    let ch = chs[k as int];
    assert(round_msg_correct(polys, chs, k as int, m, n));
    let ts = bound_tables(polys, chs.take(k as int));
    let h = pow2((n - k - 1) as nat);
    lemma_bound_tables_facts(polys, chs.take(k as int), n);
    assert(ts.len() == l);
    lemma_round_poly(ts, h, ch);
    assert forall|j: int| 0 <= j < m.len() implies cong(#[trigger] m[j], peval(round_poly(ts, h), j)) by {
        lemma_round_poly(ts, h, j);
        assert(m[j] == round_value(ts, j, h));
    }
    lemma_interpolation_exact(round_poly(ts, h), m, ch);
    lemma_round_value_range(ts, ch, h);
    lemma_cong_mod(peval(round_poly(ts, h), ch));
    lemma_residue(peval(round_poly(ts, h), ch));
    lemma_cong_residues(round_value(ts, ch, h), peval(round_poly(ts, h), ch) % p());
    assert((n - (k + 1)) as nat == (n - k - 1) as nat);
}

proof fn lemma_accept_last(polys: Seq<DenseMLPoly>, ms: Seq<Seq<int>>, log0: Seq<u8>, n: nat, l: nat)
    requires
        honest_run(polys, ms, log0, n, l),
    ensures
        honest_claim(polys, rounds_challenges(log0, ms), n, n) == mle_prod(polys, rounds_challenges(log0, ms), l),
{
    let chs = rounds_challenges(log0, ms);
    lemma_rounds_take(log0, ms, n);
    if n >= 1 {
        lemma_round_chain_last(polys, chs, n);
        assert((n - n) as nat == 0);
        lemma2_to64();
        assert(honest_claim(polys, chs, n, n) == round_value(
            bound_tables(polys, chs.take(n - 1)),
            chs[n - 1],
            1,
        ));
    } else {
        assert(chs =~= seq![]);
        lemma2_to64();
        lemma_bound_tables_facts(polys, seq![], n);
        let ts = bound_tables(polys, seq![]);
        lemma_point_prod_mle(polys, seq![], l);
        assert(hypercube_sum(ts, 0) == 0);
        assert(hypercube_sum(ts, 1) == fadd(0, point_prod(ts, 0, ts.len())));
        lemma_point_prod_range(ts, 0, ts.len());
        vstd::arithmetic::div_mod::lemma_small_mod(point_prod(ts, 0, ts.len()) as nat, p() as nat);
    }
}

/// The verifier accepts from round `k` on whenever every round's message
/// sums at 0 and 1 to the claim entering it, its interpolation at its
/// challenge is the next claim, and it has `num_poly + 1` entries.
pub(crate) proof fn lemma_accept_generic(
    claim: spec_fn(nat) -> int,
    ms: Seq<Seq<int>>,
    log0: Seq<u8>,
    n: nat,
    l: nat,
    k: nat,
)
    requires
        ms.len() == n,
        forall|j: int| 0 <= j < n ==> (#[trigger] ms[j]).len() == l + 1,
        forall|j: nat| j < n ==> fadd(ms[j as int][0], ms[j as int][1]) == #[trigger] claim(j),
        forall|j: nat|
            j < n ==> #[trigger] interpolate(ms[j as int], rounds_challenges(log0, ms)[j as int]) == Some(
                claim(j + 1),
            ),
        k <= n,
    ensures
        ({
            let chs = rounds_challenges(log0, ms);
            verify_rounds(
                l,
                rounds_log(log0, ms.take(k as int)),
                ms.skip(k as int),
                claim(k),
                chs.take(k as int),
            ) == (true, claim(n), chs, rounds_log(log0, ms))
        }),
    decreases n - k,
{
    let chs = rounds_challenges(log0, ms);
    lemma_rounds_take(log0, ms, k);
    if k == n {
        assert(ms.take(k as int) =~= ms);
        assert(ms.skip(k as int) =~= seq![]);
        assert(chs.take(k as int) =~= chs);
    } else {
        let m = ms[k as int];
        assert(ms.skip(k as int)[0] == m);
        assert(ms.skip(k as int).drop_first() =~= ms.skip(k + 1 as int));
        assert(fadd(ms[k as int][0], ms[k as int][1]) == claim(k));
        assert(interpolate(ms[k as int], chs[k as int]) == Some(claim(k + 1)));
        lemma_step_challenge(log0, ms, k);
        lemma_accept_generic(claim, ms, log0, n, l, k + 1);
    }
}

pub(crate) proof fn lemma_round_value_range(ts: Seq<Seq<int>>, c: int, h: nat)
    ensures
        0 <= round_value(ts, c, h) < p(),
{
    if h == 0 {
    } else {
        lemma_residue(round_value(ts, c, (h - 1) as nat) + g_prod(ts, c, h - 1, ts.len()));
    }
}

/// Completeness: the verifier accepts the round messages of an honest run
/// against the true sum `H = Σ_{x∈{0,1}^n} Π_i p_i(x)`, derives the
/// prover's challenges and transcript, and ends with the claim
/// `Π_i p_i(r)` at the challenge point `r`.
pub proof fn lemma_completeness(polys: Seq<DenseMLPoly>, ms: Seq<Seq<int>>, log0: Seq<u8>, n: nat, l: nat)
    requires
        l >= 1,
        polys.len() == l,
        forall|i: int| 0 <= i < polys.len() ==> (#[trigger] polys[i]).evaluations.len() == pow2(n),
        ms.len() == n,
        forall|j: int| 0 <= j < n ==> (#[trigger] ms[j]).len() == l + 1,
        forall|j: int|
            0 <= j < n ==> #[trigger] round_msg_correct(polys, rounds_challenges(log0, ms), j, ms[j], n),
        l + 1 <= p(),
    ensures
        verify_spec(n, l, log0, ms, hypercube_sum(bound_tables(polys, seq![]), pow2(n))) == (
            true,
            mle_prod(polys, rounds_challenges(log0, ms), l),
            rounds_challenges(log0, ms),
            rounds_log(log0, ms),
        ),
{
    lemma_interp_defined(l + 1);
    let chs = rounds_challenges(log0, ms);
    let claim = |k: nat| honest_claim(polys, chs, k, n);
    assert forall|j: nat| j < n implies fadd(ms[j as int][0], ms[j as int][1]) == #[trigger] claim(j) by {
        lemma_step_sum(polys, ms, log0, n, l, j);
    }
    assert forall|j: nat| j < n implies #[trigger] interpolate(ms[j as int], chs[j as int]) == Some(claim(j + 1)) by {
        lemma_step_interp(polys, ms, log0, n, l, j);
    }
    lemma_accept_generic(claim, ms, log0, n, l, 0);
    lemma_accept_last(polys, ms, log0, n, l);
    assert(ms.take(0) =~= seq![]);
    assert(ms.skip(0) =~= ms);
    assert(chs.take(0) =~= seq![]);
    assert(rounds_log(log0, seq![]) == log0);
}

/// Verifier for sumcheck proofs with `num_var` rounds of degree `num_poly`.
pub struct SumcheckVerifier {
    pub num_var: usize,
    pub num_poly: usize,
}

impl SumcheckVerifier {
    /// A verifier; absorbs the instance size like the prover does.
    pub fn new(num_var: usize, num_poly: usize, transcript: &mut Transcript) -> (r: Self)
        ensures
            r.num_var == num_var,
            r.num_poly == num_poly,
            final(transcript)@ == t_append_u64(
                t_append_u64(old(transcript)@, LABEL_NUM_VAR, num_var as u64),
                LABEL_NUM_POLY,
                num_poly as u64,
            ),
    {
        transcript.append_u64(LABEL_NUM_VAR, num_var as u64);
        transcript.append_u64(LABEL_NUM_POLY, num_poly as u64);
        SumcheckVerifier { num_var, num_poly }
    }

    /// Checks the round messages against `claimed_sum`; on success returns
    /// the final claim (to be checked against the polynomials at the
    /// challenge point) and the challenges, otherwise `None` and no
    /// challenges.
    pub fn verify(&mut self, transcript: &mut Transcript, round_messages: Vec<Vec<Fe>>, claimed_sum: Fe) -> (r: (
        Option<Fe>,
        Vec<Fe>,
    ))
        requires
            old(self).num_poly == 0 && round_messages.len() == old(self).num_var && round_messages.len() > 0
                ==> round_messages[0].len() != 1,
            old(self).num_poly + 1 < MODULUS,
            old(self).num_poly < usize::MAX,
        ensures
            *final(self) == *old(self),
            ({
                let out = verify_spec(
                    old(self).num_var as nat,
                    old(self).num_poly as nat,
                    old(transcript)@,
                    msgs_vals(round_messages@),
                    claimed_sum@,
                );
                &&& final(transcript)@ == out.3
                &&& out.0 ==> r.0 is Some && r.0->0@ == out.1 && fvals(r.1@) == out.2
                &&& !out.0 ==> r.0 is None && r.1.len() == 0
            }),
            r.0 is Some ==> {
                let ms = msgs_vals(round_messages@);
                let chs = rounds_challenges(old(transcript)@, ms);
                &&& round_messages.len() == old(self).num_var
                &&& forall|k: int|
                    0 <= k < old(self).num_var ==> {
                        &&& (#[trigger] ms[k]).len() == old(self).num_poly + 1
                        &&& fadd(ms[k][0], ms[k][1]) == entering_claim(claimed_sum@, ms, chs, k)
                    }
                &&& r.0->0@ == entering_claim(claimed_sum@, ms, chs, old(self).num_var as int)
            },
    {
        let ghost ms = msgs_vals(round_messages@);
        let ghost log0 = transcript@;
        if round_messages.len() != self.num_var {
            return (None, Vec::new());
        }
        if self.num_poly == 0 && round_messages.len() > 0 {
            // a first message of other than one value is rejected
            proof {
                assert(ms[0] == fvals(round_messages@[0]@));
            }
            return (None, Vec::new());
        }
        let mut challenges: Vec<Fe> = Vec::new();
        let mut running = claimed_sum;
        let mut k: usize = 0;
        proof {
            assert(ms.skip(0) =~= ms);
            assert(fvals(challenges@) =~= seq![]);
        }
        while k < round_messages.len()
            invariant
                k <= round_messages.len(),
                ms == msgs_vals(round_messages@),
                self.num_poly >= 1 || round_messages.len() == 0,
                self.num_poly + 1 < MODULUS,
                self.num_poly < usize::MAX,
                log0 == old(transcript)@,
                round_messages.len() == self.num_var,
                *self == *old(self),
                verify_rounds(self.num_poly as nat, log0, ms, claimed_sum@, seq![])
                    == verify_rounds(
                    self.num_poly as nat,
                    transcript@,
                    ms.skip(k as int),
                    running@,
                    fvals(challenges@),
                ),
            decreases round_messages.len() - k,
        {
            let msg = &round_messages[k];
            proof {
                assert(ms.skip(k as int)[0] == fvals(msg@));
                assert(fvals(msg@).len() == msg.len());
                assert(ms.skip(k as int).drop_first() =~= ms.skip(k as int + 1));
            }
            if msg.len() != self.num_poly + 1 {
                return (None, Vec::new());
            }
            let s01 = msg[0].add(&msg[1]);
            proof {
                assert(fvals(msg@)[0] == msg@[0]@);
                assert(fvals(msg@)[1] == msg@[1]@);
            }
            if !s01.equals(&running) {
                return (None, Vec::new());
            }
            let challenge = absorb_round(transcript, msg);
            match evaluate_univariate_polynomial(msg.as_slice(), &challenge) {
                Some(v) => {
                    running = v;
                },
                None => {
                    return (None, Vec::new());
                },
            }
            proof {
                assert(fvals(challenges@.push(challenge)) =~= fvals(challenges@).push(challenge@));
            }
            challenges.push(challenge);
            k = k + 1;
        }
        proof {
            assert(ms.skip(k as int) =~= seq![]);
            lemma_verify_accepts_consistent_rounds(
                self.num_var as nat,
                self.num_poly as nat,
                log0,
                ms,
                claimed_sum@,
            );
        }
        (Some(running), challenges)
    }

    /// Verifies a zero-knowledge sumcheck proof: absorbs the mask
    /// commitment (if any) and the mask sum, draws `ρ`, and runs the plain
    /// verification on `claimed_sum + ρ · mask_sum`.  Returns the result of
    /// that verification and `ρ`.
    pub fn verify_zk(
        &mut self,
        transcript: &mut Transcript,
        round_messages: Vec<Vec<Fe>>,
        claimed_sum: Fe,
        mask_sum: Fe,
        mask_commitment: Option<&[u8]>,
    ) -> (r: (Option<Fe>, Vec<Fe>, Fe))
        requires
            old(self).num_poly == 0 && round_messages.len() == old(self).num_var && round_messages.len() > 0
                ==> round_messages[0].len() != 1,
            old(self).num_poly + 1 < MODULUS,
            old(self).num_poly < usize::MAX,
        ensures
            *final(self) == *old(self),
            ({
                let pre = zk_preamble_log(
                    old(transcript)@,
                    match mask_commitment {
                        Some(c) => Some(c@),
                        None => None,
                    },
                    mask_sum@,
                );
                let rho = t_challenge(pre, LABEL_RHO);
                let out = verify_spec(
                    old(self).num_var as nat,
                    old(self).num_poly as nat,
                    t_after_challenge(pre, LABEL_RHO),
                    msgs_vals(round_messages@),
                    fadd(claimed_sum@, fmul(rho, mask_sum@)),
                );
                &&& r.2@ == rho
                &&& final(transcript)@ == out.3
                &&& out.0 ==> r.0 is Some && r.0->0@ == out.1 && fvals(r.1@) == out.2
                &&& !out.0 ==> r.0 is None && r.1.len() == 0
            }),
    {
        match mask_commitment {
            Some(c) => {
                transcript.append_bytes(LABEL_MASK_COMMIT, c);
            },
            None => {},
        }
        transcript.append_scalar(LABEL_MASK_SUM, &mask_sum);
        let rho = transcript.challenge_scalar(LABEL_RHO);
        let adjusted_sum = claimed_sum.add(&rho.mul(&mask_sum));
        let (result, challenges) = self.verify(transcript, round_messages, adjusted_sum);
        (result, challenges, rho)
    }
}

} // verus!
