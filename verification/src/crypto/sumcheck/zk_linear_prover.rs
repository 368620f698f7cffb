//! Zero-knowledge sumcheck by the masking-polynomial technique: the mask is
//! `p(x) = Σ_i s_i(x_i)` with univariate `s_i` of degree `ℓ`; the prover
//! runs the sumcheck on `g + ρ·p`, where `ρ` is drawn after the mask sum
//! `P = Σ_{x∈{0,1}^n} p(x)` is absorbed.
use crate::crypto::sumcheck::prover::{
    absorb_round, msgs_vals, rounds_challenges, rounds_log, MaskCommitter, ProveContext, SumcheckProof,
    SumcheckProver,
};
use crate::util::field::{
    cong, fadd, fmul, fsub, fvals, lemma_cong_add, lemma_cong_mod, lemma_cong_mul,
    lemma_cong_residues, lemma_cong_sub, lemma_fe_range, lemma_residue, p, Fe, MODULUS,
};
use crate::crypto::sumcheck::linear_prover::{
    bound_tables, hypercube_sum, lemma_bound_tables_facts, lemma_bound_tables_push,
    lemma_point_prod_mle, lemma_round_chain_last, lemma_round_sum, lemma_round_value_at_challenge,
    lemma_round_poly, mle_prod, poly_tables, round_msg_correct, round_poly, round_value,
    LinearSumcheckProver,
};
use crate::crypto::sumcheck::sumcheck_verifier::{
    lemma_accept_generic, lemma_rounds_take, verify_spec, zk_preamble_log,
};
use crate::util::lagrange::{
    lemma_interpolation_exact, lemma_padd, lemma_peval_power_sum, lemma_scale, padd, peval,
    power_sum, scale,
};
use crate::util::poly::{copy_fes, folds, interp_defined, interpolate, mle, pow2_usize, DenseMLPoly};
use crate::util::fermat::lemma_interp_defined;
use crate::util::transcript::{
    t_after_challenge, t_after_challenges, t_append_u64, t_challenge, t_challenges, Transcript,
    LABEL_NUM_POLY, LABEL_NUM_VAR,
    LABEL_MASK_COMMIT, LABEL_MASK_OPEN, LABEL_MASK_SUM, LABEL_RHO,
};
use vstd::arithmetic::div_mod::*;
use vstd::arithmetic::power2::*;
use vstd::prelude::*;

verus! {

/// `s(c)` for the coefficients `cs` (lowest degree first), in Horner form:
/// `cs[0] + c·(cs[1] + c·(...))`.
pub open spec fn horner(cs: Seq<int>, c: int) -> int
    decreases cs.len(),
{
    if cs.len() == 0 {
        0
    } else if cs.len() == 1 {
        cs[0]
    } else {
        fadd(fmul(horner(cs.drop_first(), c), c), cs[0])
    }
}

/// `Σ_{i<k} s_i(chs[i])`: the mask at the challenge point.
pub open spec fn mask_eval(coeffs: Seq<Seq<int>>, chs: Seq<int>, k: nat) -> int
    decreases k,
{
    if k == 0 {
        0
    } else {
        fadd(mask_eval(coeffs, chs, (k - 1) as nat), horner(coeffs[k - 1], chs[k - 1]))
    }
}

/// `Σ_{i<k} (s_i(0) + s_i(1))`.
pub open spec fn mask_01_sum(coeffs: Seq<Seq<int>>, k: nat) -> int
    decreases k,
{
    if k == 0 {
        0
    } else {
        fadd(
            fadd(mask_01_sum(coeffs, (k - 1) as nat), horner(coeffs[k - 1], 0)),
            horner(coeffs[k - 1], 1),
        )
    }
}

/// The mask sum `2^(n-1) · Σ_i (s_i(0) + s_i(1))` for `n` univariates.
pub open spec fn mask_sum(coeffs: Seq<Seq<int>>) -> int {
    fmul(pow2((coeffs.len() - 1) as nat) as int % p(), mask_01_sum(coeffs, coeffs.len()))
}

/// Residues of a sequence of coefficient vectors.
pub open spec fn coeffs_vals(c: Seq<Vec<Fe>>) -> Seq<Seq<int>> {
    c.map_values(|v: Vec<Fe>| fvals(v@))
}

/// The coefficients laid end to end.
pub open spec fn concat_coeffs(c: Seq<Vec<Fe>>) -> Seq<Fe>
    decreases c.len(),
{
    if c.len() == 0 {
        seq![]
    } else {
        concat_coeffs(c.drop_last()) + c.last()@
    }
}

/// `s` cut or zero-padded to length `m`.
pub open spec fn resize_fes(s: Seq<Fe>, m: nat) -> Seq<Fe> {
    if m <= s.len() {
        s.take(m as int)
    } else {
        s + Seq::new((m - s.len()) as nat, |i: int| Fe { v: 0 })
    }
}

/// `k` is the exponent of the least power of two that is at least `x`.
pub open spec fn is_ceil_log2(x: nat, k: nat) -> bool {
    &&& pow2(k) >= x
    &&& (k == 0 || pow2((k - 1) as nat) < x)
}

/// Number of coefficients packed: `n · (length of the first)`.
pub open spec fn packed_total(c: Seq<Vec<Fe>>) -> nat {
    if c.len() > 0 {
        (c.len() * c[0].len()) as nat
    } else {
        0
    }
}

/// The mask `Σ_{j>=i} s_j(x_j)` over the integers at the point whose
/// coordinates from `x_i` on are the bits of `x`, lowest first.
pub open spec fn mask_point(cs: Seq<Seq<int>>, x: int, i: nat) -> int
    decreases cs.len() - i,
{
    if i >= cs.len() {
        0
    } else {
        horner(cs[i as int], x % 2) + mask_point(cs, x / 2, i + 1)
    }
}

/// `Σ_{x<m} mask_point(cs, x, i)`: the mask summed over the first `m`
/// points.
pub open spec fn mask_cube_sum(cs: Seq<Seq<int>>, i: nat, m: nat) -> int
    decreases m,
{
    if m == 0 {
        0
    } else {
        mask_cube_sum(cs, i, (m - 1) as nat) + mask_point(cs, (m - 1) as int, i)
    }
}

/// `Σ_{j>=i} (s_j(0) + s_j(1))` over the integers.
spec fn tail_01_int(cs: Seq<Seq<int>>, i: nat) -> int
    decreases cs.len() - i,
{
    if i >= cs.len() {
        0
    } else {
        horner(cs[i as int], 0) + horner(cs[i as int], 1) + tail_01_int(cs, i + 1)
    }
}

/// `Σ_{j<k} (s_j(0) + s_j(1))` over the integers.
spec fn head_01_int(cs: Seq<Seq<int>>, k: nat) -> int
    decreases k,
{
    if k == 0 {
        0
    } else {
        head_01_int(cs, (k - 1) as nat) + horner(cs[k - 1], 0) + horner(cs[k - 1], 1)
    }
}

/// Pairing the points `2y` and `2y + 1` over the first `2m` points.
proof fn lemma_mask_cube_pairs(cs: Seq<Seq<int>>, i: nat, m: nat)
    requires
        i < cs.len(),
    ensures
        mask_cube_sum(cs, i, 2 * m) == 2 * mask_cube_sum(cs, i + 1, m) + m * (horner(
            cs[i as int],
            0,
        ) + horner(cs[i as int], 1)),
    decreases m,
{
    let h0 = horner(cs[i as int], 0);
    let h1 = horner(cs[i as int], 1);
    if m == 0 {
        assert(m * (h0 + h1) == 0) by (nonlinear_arith)
            requires
                m == 0,
        ;
    } else {
        let mm = (m - 1) as nat;
        lemma_mask_cube_pairs(cs, i, mm);
        let y = mm as int;
        assert((2 * y) % 2 == 0 && (2 * y) / 2 == y) by (nonlinear_arith);
        assert((2 * y + 1) % 2 == 1 && (2 * y + 1) / 2 == y) by (nonlinear_arith);
        assert(mask_point(cs, 2 * y, i) == h0 + mask_point(cs, y, i + 1));
        assert(mask_point(cs, 2 * y + 1, i) == h1 + mask_point(cs, y, i + 1));
        assert(2 * m - 1 == 2 * y + 1);
        assert(((2 * m - 1) as nat) as int - 1 == 2 * y);
        assert(mask_cube_sum(cs, i, 2 * m) == mask_cube_sum(cs, i, (2 * m - 1) as nat)
            + mask_point(cs, 2 * y + 1, i));
        assert(mask_cube_sum(cs, i, (2 * m - 1) as nat) == mask_cube_sum(cs, i, 2 * mm)
            + mask_point(cs, 2 * y, i));
        assert(mask_cube_sum(cs, i + 1, m) == mask_cube_sum(cs, i + 1, mm) + mask_point(cs, y, i + 1));
        assert(m * (h0 + h1) == mm * (h0 + h1) + (h0 + h1)) by (nonlinear_arith)
            requires
                m == mm + 1,
        ;
    }
}

/// Over the `2^(n-i)` points of the remaining variables, the mask sums to
/// `2^(n-i-1) · Σ_{j>=i} (s_j(0) + s_j(1))`.
proof fn lemma_mask_cube_tail(cs: Seq<Seq<int>>, i: nat)
    requires
        i < cs.len(),
    ensures
        mask_cube_sum(cs, i, pow2((cs.len() - i) as nat)) == pow2((cs.len() - i - 1) as nat)
            * tail_01_int(cs, i),
    decreases cs.len() - i,
{
    let n = cs.len();
    let h = horner(cs[i as int], 0) + horner(cs[i as int], 1);
    let half = pow2((n - i - 1) as nat);
    lemma_pow2_unfold((n - i) as nat);
    lemma_mask_cube_pairs(cs, i, half);
    if i + 1 == n {
        assert(half == 1) by {
            lemma2_to64();
        }
        assert(mask_cube_sum(cs, i + 1, 1) == mask_cube_sum(cs, i + 1, 0) + mask_point(cs, 0, i + 1));
        assert(tail_01_int(cs, i + 1) == 0);
    } else {
        lemma_mask_cube_tail(cs, i + 1);
        let q = pow2((n - i - 2) as nat);
        lemma_pow2_unfold((n - i - 1) as nat);
        assert(half == 2 * q);
        let t1 = tail_01_int(cs, i + 1);
        assert(2 * (q * t1) + half * h == half * (h + t1)) by (nonlinear_arith)
            requires
                half == 2 * q,
        ;
    }
}

proof fn lemma_head_tail(cs: Seq<Seq<int>>, i: nat)
    requires
        i <= cs.len(),
    ensures
        head_01_int(cs, i) + tail_01_int(cs, i) == head_01_int(cs, cs.len()),
    decreases cs.len() - i,
{
    if i < cs.len() {
        lemma_head_tail(cs, i + 1);
    }
}

proof fn lemma_mask_01_sum_cong(cs: Seq<Seq<int>>, k: nat)
    requires
        k <= cs.len(),
    ensures
        cong(mask_01_sum(cs, k), head_01_int(cs, k)),
    decreases k,
{
    if k > 0 {
        let km = (k - 1) as nat;
        lemma_mask_01_sum_cong(cs, km);
        let a = mask_01_sum(cs, km);
        let h0 = horner(cs[km as int], 0);
        let h1 = horner(cs[km as int], 1);
        lemma_cong_mod(a + h0);
        lemma_cong_add(a, h0, head_01_int(cs, km), h0);
        lemma_cong_add(fadd(a, h0), h1, head_01_int(cs, km) + h0, h1);
        lemma_cong_mod(fadd(a, h0) + h1);
    }
}

/// The mask sum is the mask polynomial `p(x) = Σ_i s_i(x_i)` summed over
/// the whole hypercube `{0,1}^n`.
pub proof fn lemma_mask_sum_is_cube_sum(cs: Seq<Seq<int>>)
    requires
        cs.len() >= 1,
    ensures
        mask_sum(cs) == mask_cube_sum(cs, 0, pow2(cs.len())) % p(),
{
    let n = cs.len();
    lemma_mask_cube_tail(cs, 0);
    lemma_head_tail(cs, 0);
    lemma_mask_01_sum_cong(cs, n);
    let a = pow2((n - 1) as nat) as int;
    let t = mask_01_sum(cs, n);
    let hn = head_01_int(cs, n);
    assert(tail_01_int(cs, 0) == hn);
    lemma_cong_mod(a);
    lemma_cong_mul(a % p(), t, a, hn);
    lemma_cong_mod(a % p() * t);
    lemma_residue(a % p() * t);
    lemma_residue(a * hn);
    lemma_cong_mod(a * hn);
    lemma_cong_residues(mask_sum(cs), (a * hn) % p());
}

/// Horner's form evaluates the polynomial: for residue coefficients,
/// `horner(cs, c)` is `Σ_j cs[j]·c^j` reduced modulo `p`.
pub proof fn lemma_horner_power_sum(cs: Seq<int>, c: int)
    requires
        forall|j: int| 0 <= j < cs.len() ==> 0 <= #[trigger] cs[j] < p(),
    ensures
        horner(cs, c) == power_sum(cs, c, cs.len()) % p(),
    decreases cs.len(),
{
    lemma_peval_power_sum(cs, c);
    lemma_horner_peval(cs, c);
}

/// For residue coefficients, `horner(cs, c)` is `peval(cs, c)` reduced
/// modulo `p`.
pub proof fn lemma_horner_peval(cs: Seq<int>, c: int)
    requires
        forall|j: int| 0 <= j < cs.len() ==> 0 <= #[trigger] cs[j] < p(),
    ensures
        horner(cs, c) == peval(cs, c) % p(),
    decreases cs.len(),
{
    if cs.len() == 0 {
        lemma_small_mod(0, p() as nat);
    } else if cs.len() == 1 {
        assert(cs.drop_first().len() == 0);
        assert(peval(cs.drop_first(), c) == 0);
        assert(c * 0 == 0) by (nonlinear_arith);
        lemma_small_mod(cs[0] as nat, p() as nat);
    } else {
        let rest = cs.drop_first();
        assert forall|j: int| 0 <= j < rest.len() implies 0 <= #[trigger] rest[j] < p() by {
            assert(rest[j] == cs[j + 1]);
        }
        lemma_horner_peval(rest, c);
        let hv = horner(rest, c);
        let pv = peval(rest, c);
        lemma_cong_mod(pv);
        lemma_cong_mul(hv, c, pv, c);
        lemma_cong_mod(hv * c);
        lemma_cong_add(fmul(hv, c), cs[0], pv * c, cs[0]);
        lemma_cong_mod(fmul(hv, c) + cs[0]);
        assert(pv * c == c * pv) by (nonlinear_arith);
        lemma_residue(fmul(hv, c) + cs[0]);
        lemma_residue(peval(cs, c));
        lemma_cong_mod(peval(cs, c));
        lemma_cong_residues(horner(cs, c), peval(cs, c) % p());
    }
}

/// Evaluates `s(c) = Σ_j coeffs[j] · c^j` by Horner's method.
pub fn eval_univariate(coeffs: &[Fe], c: &Fe) -> (r: Fe)
    requires
        coeffs.len() > 0,
    ensures
        r@ == horner(fvals(coeffs@), c@),
{
    let n = coeffs.len();
    let ghost cs = fvals(coeffs@);
    let mut val = coeffs[n - 1];
    let mut j: usize = n - 1;
    proof {
        assert(cs.skip(n - 1).len() == 1);
        assert(cs.skip(n - 1)[0] == coeffs@[n - 1]@);
    }
    while j > 0
        invariant
            j < n,
            n == coeffs.len(),
            cs == fvals(coeffs@),
            val@ == horner(cs.skip(j as int), c@),
        decreases j,
    {
        proof {
            assert(cs.skip(j - 1).drop_first() =~= cs.skip(j as int));
            assert(cs.skip(j - 1)[0] == coeffs@[j - 1]@);
        }
        val = val.mul(c).add(&coeffs[j - 1]);
        j = j - 1;
    }
    proof {
        assert(cs.skip(0) =~= cs);
    }
    val
}

/// `mask_eval = Σ_i s_i(r_i)`: the mask at the challenge point, recomputed
/// from its coefficients.
pub fn recompute_mask_eval(mask_coeffs: &[Vec<Fe>], challenges: &[Fe]) -> (r: Fe)
    requires
        mask_coeffs.len() == challenges.len(),
        forall|i: int| 0 <= i < mask_coeffs.len() ==> (#[trigger] mask_coeffs@[i]).len() > 0,
    ensures
        r@ == mask_eval(coeffs_vals(mask_coeffs@), fvals(challenges@), mask_coeffs.len() as nat),
{
    let mut sum = Fe::zero();
    let mut i: usize = 0;
    while i < mask_coeffs.len()
        invariant
            i <= mask_coeffs.len(),
            mask_coeffs.len() == challenges.len(),
            forall|k: int| 0 <= k < mask_coeffs.len() ==> (#[trigger] mask_coeffs@[k]).len() > 0,
            sum@ == mask_eval(coeffs_vals(mask_coeffs@), fvals(challenges@), i as nat),
        decreases mask_coeffs.len() - i,
    {
        let v = eval_univariate(mask_coeffs[i].as_slice(), &challenges[i]);
        proof {
            assert(coeffs_vals(mask_coeffs@)[i as int] == fvals(mask_coeffs@[i as int]@));
            assert(fvals(challenges@)[i as int] == challenges@[i as int]@);
        }
        sum = sum.add(&v);
        i = i + 1;
    }
    sum
}

/// `P = 2^(n-1) · Σ_i (s_i(0) + s_i(1))`, recomputed from the mask
/// coefficients.
pub fn recompute_mask_sum(mask_coeffs: &[Vec<Fe>]) -> (r: Fe)
    requires
        mask_coeffs.len() > 0,
        mask_coeffs.len() <= 64,
        forall|i: int| 0 <= i < mask_coeffs.len() ==> (#[trigger] mask_coeffs@[i]).len() > 0,
    ensures
        r@ == mask_sum(coeffs_vals(mask_coeffs@)),
{
    let n = mask_coeffs.len();
    let zero = Fe::zero();
    let one = Fe::one();
    let mut total = Fe::zero();
    let mut i: usize = 0;
    while i < n
        invariant
            i <= n,
            n == mask_coeffs.len(),
            zero@ == 0,
            one@ == 1,
            forall|k: int| 0 <= k < mask_coeffs.len() ==> (#[trigger] mask_coeffs@[k]).len() > 0,
            total@ == mask_01_sum(coeffs_vals(mask_coeffs@), i as nat),
        decreases n - i,
    {
        let s0 = eval_univariate(mask_coeffs[i].as_slice(), &zero);
        let s1 = eval_univariate(mask_coeffs[i].as_slice(), &one);
        proof {
            assert(coeffs_vals(mask_coeffs@)[i as int] == fvals(mask_coeffs@[i as int]@));
        }
        total = total.add(&s0).add(&s1);
        i = i + 1;
    }
    proof {
        lemma_pow2_strictly_increases((n - 1) as nat, 64);
        lemma2_to64_rest();
        vstd::bits::lemma_u64_shl_is_mul(1, (n - 1) as u64);
    }
    let scale = Fe::from_u64(1u64 << ((n - 1) as u64));
    scale.mul(&total)
}

/// The exponent of the least power of two `>= x`.
pub(crate) fn ceil_log2(x: usize) -> (k: usize)
    requires
        x <= usize::MAX / 2,
    ensures
        is_ceil_log2(x as nat, k as nat),
        pow2(k as nat) <= usize::MAX,
{
    let mut p2: usize = 1;
    let mut k: usize = 0;
    proof {
        lemma2_to64();
    }
    assert(x <= usize::MAX / 2);
    while p2 < x
        invariant
            p2 == pow2(k as nat),
            p2 >= 1,
            k <= p2,
            x <= usize::MAX / 2,
            k == 0 || pow2((k - 1) as nat) < x,
        decreases usize::MAX - p2,
    {
        proof {
            lemma_pow2_unfold((k + 1) as nat);
        }
        p2 = p2 * 2;
        k = k + 1;
    }
    k
}

/// Lays the mask coefficients end to end in a multilinear polynomial,
/// zero-padded (or cut) to the least power of two at least
/// `n · (degree + 1)` entries.
pub fn pack_mask_coeffs(mask_coeffs: &[Vec<Fe>]) -> (r: DenseMLPoly)
    requires
        packed_total(mask_coeffs@) <= usize::MAX / 2,
    ensures
        r.wf(),
        is_ceil_log2(packed_total(mask_coeffs@), r.num_vars as nat),
        r.evaluations@ == resize_fes(concat_coeffs(mask_coeffs@), pow2(r.num_vars as nat)),
{
    let n = mask_coeffs.len();
    let degree_plus_1 = if n > 0 {
        mask_coeffs[0].len()
    } else {
        0
    };
    let total_coeffs = n * degree_plus_1;
    let num_vars = ceil_log2(total_coeffs);
    let packed_size = pow2_usize(num_vars);
    let mut packed: Vec<Fe> = Vec::new();
    let mut i: usize = 0;
    proof {
        assert(concat_coeffs(mask_coeffs@.take(0)) =~= seq![]);
    }
    while i < n
        invariant
            i <= n,
            n == mask_coeffs.len(),
            packed@ == concat_coeffs(mask_coeffs@.take(i as int)),
        decreases n - i,
    {
        packed.extend_from_slice(mask_coeffs[i].as_slice());
        proof {
            assert(mask_coeffs@.take(i as int + 1).drop_last() =~= mask_coeffs@.take(i as int));
        }
        i = i + 1;
    }
    proof {
        assert(mask_coeffs@.take(n as int) =~= mask_coeffs@);
    }
    let ghost cat = packed@;
    let z = Fe::zero();
    packed.resize(packed_size, z);
    proof {
        if packed_size > cat.len() {
            assert(packed@ =~= resize_fes(cat, packed_size as nat)) by {
                assert forall|j: int| cat.len() <= j < packed_size implies packed@[j] == Fe { v: 0 } by {
                    assert(cloned(z, packed@[j]));
                }
            }
        }
    }
    DenseMLPoly::new(num_vars, packed)
}

/// Whether the packed-coefficient opening in `proof` checks: the point has
/// one coordinate per packed variable and the claimed evaluation is the
/// packed polynomial's value there.
pub open spec fn mask_opening_checks(proof: SumcheckProof, packed: Seq<Fe>, num_vars: nat) -> bool {
    match (proof.zk_mask_opening_point, proof.zk_mask_opening_eval) {
        (Some(pt), Some(ev)) => pt.len() == num_vars && ev@ == mle(fvals(packed), fvals(pt@)),
        _ => true,
    }
}

/// The checks on the mask that need no commitment scheme: the claimed mask
/// sum is the recomputed one, and, when an opening is present, it matches
/// the packed coefficients.
pub open spec fn mask_checks(proof: SumcheckProof) -> bool {
    match (proof.zk_mask_coeffs, proof.zk_mask_sum) {
        (Some(c), Some(s)) => {
            let nv = choose|k: nat| is_ceil_log2(packed_total(c@), k);
            let packed = resize_fes(concat_coeffs(c@), pow2(nv));
            let all_present = proof.zk_mask_commitment is Some && proof.zk_mask_opening_proof is Some
                && proof.zk_mask_opening_point is Some && proof.zk_mask_opening_eval is Some;
            &&& s@ == mask_sum(coeffs_vals(c@))
            &&& all_present ==> mask_opening_checks(proof, packed, nv)
        },
        _ => false,
    }
}

/// The mask fields of a zero-knowledge proof that the checks below apply to.
pub open spec fn mask_fields_valid(c: Seq<Vec<Fe>>) -> bool {
    &&& c.len() > 0
    &&& c.len() <= 64
    &&& forall|i: int| 0 <= i < c.len() ==> (#[trigger] c[i]).len() > 0
    &&& packed_total(c) <= usize::MAX / 2
}

/// The packed mask table: the coefficients one after another, padded with
/// zeros (or cut) to `2^nv` entries.
pub open spec fn packed_mask_table(c: Seq<Vec<Fe>>, nv: nat) -> Seq<int> {
    fvals(resize_fes(concat_coeffs(c), pow2(nv)))
}

/// The packed coefficients depend on the polynomials' entries only.
proof fn lemma_concat_coeffs_views(a: Seq<Vec<Fe>>, b: Seq<Vec<Fe>>)
    requires
        a.len() == b.len(),
        forall|i: int| 0 <= i < a.len() ==> (#[trigger] a[i])@ == b[i]@,
    ensures
        concat_coeffs(a) == concat_coeffs(b),
    decreases a.len(),
{
    if a.len() > 0 {
        lemma_concat_coeffs_views(a.drop_last(), b.drop_last());
    }
}

/// Whether the mask coefficients, if a proof carries them, have the shape
/// the mask checks apply to, with one polynomial per round of `n`.
pub open spec fn mask_shape_ok(proof: SumcheckProof, n: nat) -> bool {
    proof.zk_mask_coeffs matches Some(c) ==> mask_fields_valid(c@) && c.len() == n
}

/// Tests the shape of mask coefficients: one nonempty polynomial per
/// round, `n` rounds (at most 64), and a packed size that fits.
pub fn mask_fields_ok(c: &Vec<Vec<Fe>>, n: usize) -> (r: bool)
    ensures
        r == (mask_fields_valid(c@) && c.len() == n),
{
    if c.len() == 0 || c.len() > 64 || c.len() != n {
        return false;
    }
    let mut i: usize = 0;
    while i < c.len()
        invariant
            i <= c.len(),
            forall|j: int| 0 <= j < i ==> (#[trigger] c@[j]).len() > 0,
        decreases c.len() - i,
    {
        if c[i].len() == 0 {
            return false;
        }
        i = i + 1;
    }
    match c.len().checked_mul(c[0].len()) {
        Some(t) => t <= usize::MAX / 2,
        None => false,
    }
}

/// The committer's verdict on the mask opening a proof carries: what the
/// committer accepts when one is given and all four opening fields are
/// present, otherwise `true` (no opening is put to a committer).
pub open spec fn committer_verdict<C: MaskCommitter>(proof: SumcheckProof, committer: Option<C>) -> bool {
    match (
        committer,
        proof.zk_mask_commitment,
        proof.zk_mask_opening_proof,
        proof.zk_mask_opening_point,
        proof.zk_mask_opening_eval,
    ) {
        (Some(cm), Some(c), Some(op), Some(pt), Some(e)) => cm.accepts(c@, op@, fvals(pt@), e@),
        _ => true,
    }
}

/// Checks the mask of a zero-knowledge sumcheck proof: the claimed mask sum
/// must equal the one recomputed from the coefficients, and when an opening
/// is present, the claimed evaluation must be the packed coefficients'
/// value at the opening point, and the commitment opening must verify
/// with the committer, if one is given.  A proof without mask
/// coefficients passes.
pub fn verify_mask_consistency<C: MaskCommitter>(proof: &SumcheckProof, mask_committer: Option<&C>) -> (r: bool)
    requires
        proof.zk_mask_coeffs matches Some(c) ==> mask_fields_valid(c@),
    ensures
        proof.zk_mask_coeffs is None ==> r,
        proof.zk_mask_coeffs is Some ==> (r <==> mask_checks(*proof) && committer_verdict(
            *proof,
            match mask_committer {
                Some(c) => Some(*c),
                None => None,
            },
        )),
{
    let mask_coeffs = match &proof.zk_mask_coeffs {
        Some(c) => c,
        None => {
            return true;
        },
    };
    let mask_sum_v = match proof.zk_mask_sum {
        Some(s) => s,
        None => {
            return false;
        },
    };
    let recomputed_sum = recompute_mask_sum(mask_coeffs.as_slice());
    if !recomputed_sum.equals(&mask_sum_v) {
        return false;
    }
    match (
        &proof.zk_mask_commitment,
        &proof.zk_mask_opening_proof,
        &proof.zk_mask_opening_point,
        proof.zk_mask_opening_eval,
    ) {
        (Some(commitment), Some(opening_proof), Some(opening_point), Some(opening_eval)) => {
            let packed_poly = pack_mask_coeffs(mask_coeffs.as_slice());
            proof {
                lemma_ceil_log2_unique(packed_total(mask_coeffs@), packed_poly.num_vars as nat);
            }
            if opening_point.len() != packed_poly.num_vars {
                return false;
            }
            let recomputed_eval = packed_poly.evaluate_at_point(opening_point.as_slice());
            if !recomputed_eval.equals(&opening_eval) {
                return false;
            }
            match mask_committer {
                Some(committer) => {
                    if !committer.verify(commitment.as_slice(), opening_proof.as_slice(), opening_point.as_slice(), opening_eval) {
                        return false;
                    }
                },
                None => {},
            }
            true
        },
        _ => true,
    }
}

pub(crate) proof fn lemma_ceil_log2_unique(x: nat, k: nat)
    requires
        is_ceil_log2(x, k),
    ensures
        (choose|j: nat| is_ceil_log2(x, j)) == k,
{
    let j = choose|j: nat| is_ceil_log2(x, j);
    assert(is_ceil_log2(x, j));
    if j < k {
        if j < k - 1 {
            lemma_pow2_strictly_increases(j, (k - 1) as nat);
        }
    } else if j > k {
        if k < j - 1 {
            lemma_pow2_strictly_increases(k, (j - 1) as nat);
        }
    }
}

/// Draws the mask-opening challenges again (one per coordinate of the
/// opening point, if any), keeping a verifier's transcript in step with
/// the prover's.
pub fn replay_mask_opening_transcript(proof: &SumcheckProof, transcript: &mut Transcript)
    ensures
        final(transcript)@ == t_after_challenges(
            old(transcript)@,
            LABEL_MASK_OPEN,
            match proof.zk_mask_opening_point {
                Some(pt) => pt.len() as nat,
                None => 0,
            },
        ),
{
    match &proof.zk_mask_opening_point {
        Some(opening_point) => {
            let mut i: usize = 0;
            while i < opening_point.len()
                invariant
                    i <= opening_point.len(),
                    transcript@ == t_after_challenges(old(transcript)@, LABEL_MASK_OPEN, i as nat),
                decreases opening_point.len() - i,
            {
                let _c = transcript.challenge_scalar(LABEL_MASK_OPEN);
                i = i + 1;
            }
        },
        None => {},
    }
}

/// `Σ_{i<=j<n} (s_j(0) + s_j(1))`: what is left of `mask_01_sum` after the
/// first `i` univariates.
pub open spec fn mask_tail_01(cs: Seq<Seq<int>>, i: nat) -> int {
    fsub(mask_01_sum(cs, cs.len()), mask_01_sum(cs, i))
}

/// The mask's round polynomial in round `k` at `c`, with the first `k`
/// variables bound to `chs`:
/// `2^(n-k-1)·(Σ_{i<k} s_i(chs[i]) + s_k(c)) + 2^(n-k-2)·Σ_{i>k} (s_i(0) + s_i(1))`
/// (the last term only when `k + 1 < n`).
pub open spec fn mask_round(cs: Seq<Seq<int>>, chs: Seq<int>, k: nat, c: int) -> int {
    let n = cs.len();
    let main = fmul(
        pow2((n - k - 1) as nat) as int % p(),
        fadd(mask_eval(cs, chs, k), horner(cs[k as int], c)),
    );
    if k + 1 < n {
        fadd(main, fmul(pow2((n - k - 2) as nat) as int % p(), mask_tail_01(cs, k + 1)))
    } else {
        main
    }
}

/// `fmul(a % p, x)` is congruent to `a·y` when `x` is congruent to `y`.
proof fn lemma_cong_scaled(a: int, x: int, y: int)
    requires
        cong(x, y),
    ensures
        cong(fmul(a % p(), x), a * y),
{
    lemma_cong_mod(a);
    lemma_cong_mul(a % p(), x, a, y);
    lemma_cong_mod(a % p() * x);
}

/// The mask's round polynomials chain: round `k + 1`'s at 0 plus at 1 is
/// round `k`'s at the challenge `chs[k]`.
pub proof fn lemma_mask_round_chain(cs: Seq<Seq<int>>, chs: Seq<int>, k: nat)
    requires
        k + 1 < cs.len(),
        k < chs.len(),
    ensures
        fadd(mask_round(cs, chs.take(k + 1 as int), k + 1, 0), mask_round(cs, chs.take(k + 1 as int), k + 1, 1))
            == mask_round(cs, chs.take(k as int), k, chs[k as int]),
{
    let n = cs.len();
    let pre = chs.take(k as int);
    let pre1 = chs.take(k + 1 as int);
    let r = chs[k as int];
    let e = mask_eval(cs, pre, k);
    let hr = horner(cs[k as int], r);
    let e1 = mask_eval(cs, pre1, k + 1);
    let h0 = horner(cs[k + 1 as int], 0);
    let h1 = horner(cs[k + 1 as int], 1);
    let a = pow2((n - k - 1) as nat) as int;
    let b = pow2((n - k - 2) as nat) as int;
    let t1 = mask_tail_01(cs, k + 1);
    lemma_pow2_unfold((n - k - 1) as nat);
    assert(a == 2 * b);
    // e1 ≡ e + hr
    lemma_mask_eval_prefix(cs, pre1, pre, k);
    assert(pre1[k as int] == r);
    lemma_cong_mod(e + hr);
    assert(cong(e1, e + hr));
    // round k at r ≡ a·(e + hr) + b·t1
    let mk = mask_round(cs, pre, k, r);
    lemma_cong_mod(e + hr);
    lemma_cong_scaled(a, fadd(e, hr), e + hr);
    lemma_cong_mod(t1);
    lemma_cong_scaled(b, t1, t1);
    lemma_cong_add(fmul(a % p(), fadd(e, hr)), fmul(b % p(), t1), a * (e + hr), b * t1);
    lemma_cong_mod(fmul(a % p(), fadd(e, hr)) + fmul(b % p(), t1));
    assert(cong(mk, a * (e + hr) + b * t1));
    // the tail after k + 1 is the pair at k + 1 plus the tail after k + 2
    lemma_tail_step(cs, k + 1);
    let t2 = mask_tail_01(cs, k + 2);
    lemma_cong_mod(t1 - fadd(h0, h1));
    lemma_cong_mod(h0 + h1);
    lemma_cong_sub(t1, fadd(h0, h1), t1, h0 + h1);
    assert(cong(t2, t1 - (h0 + h1)));
    // round k + 1 at c ≡ b·(e1 + h_c) (+ b'·t2)
    let m0 = mask_round(cs, pre1, k + 1, 0);
    let m1 = mask_round(cs, pre1, k + 1, 1);
    lemma_cong_mod(e1 + h0);
    lemma_cong_mod(e1 + h1);
    lemma_cong_add(e1, h0, e + hr, h0);
    lemma_cong_add(e1, h1, e + hr, h1);
    lemma_cong_scaled(b, fadd(e1, h0), e + hr + h0);
    lemma_cong_scaled(b, fadd(e1, h1), e + hr + h1);
    let main0 = fmul(b % p(), fadd(e1, h0));
    let main1 = fmul(b % p(), fadd(e1, h1));
    if k + 2 < n {
        let b2 = pow2((n - k - 3) as nat) as int;
        lemma_pow2_unfold((n - k - 2) as nat);
        assert(b == 2 * b2);
        lemma_cong_scaled(b2, t2, t1 - (h0 + h1));
        let w = fmul(b2 % p(), t2);
        assert(m0 == fadd(main0, w));
        assert(m1 == fadd(main1, w));
        lemma_cong_add(main0, w, b * (e + hr + h0), b2 * (t1 - (h0 + h1)));
        lemma_cong_add(main1, w, b * (e + hr + h1), b2 * (t1 - (h0 + h1)));
        lemma_cong_mod(main0 + w);
        lemma_cong_mod(main1 + w);
        lemma_cong_add(
            m0,
            m1,
            b * (e + hr + h0) + b2 * (t1 - (h0 + h1)),
            b * (e + hr + h1) + b2 * (t1 - (h0 + h1)),
        );
        assert(b * (e + hr + h0) + b2 * (t1 - (h0 + h1)) + (b * (e + hr + h1) + b2 * (t1 - (h0
            + h1))) == a * (e + hr) + b * t1) by (nonlinear_arith)
            requires
                a == 2 * b,
                b == 2 * b2,
        ;
    } else {
        assert(b == 1) by {
            lemma2_to64();
        }
        assert(m0 == main0);
        assert(m1 == main1);
        // t2 is the empty tail
        assert(k + 2 == n);
        lemma_residue(mask_01_sum(cs, n) - mask_01_sum(cs, n));
        assert(t2 == 0) by {
            assert(mask_01_sum(cs, n) - mask_01_sum(cs, n) == 0);
        }
        lemma_cong_add(m0, m1, b * (e + hr + h0), b * (e + hr + h1));
        assert(b * (e + hr + h0) + b * (e + hr + h1) == 2 * (e + hr) + (h0 + h1)) by (nonlinear_arith)
            requires
                b == 1,
        ;
        assert(a * (e + hr) + b * t1 == 2 * (e + hr) + t1) by (nonlinear_arith)
            requires
                a == 2,
                b == 1,
        ;
        // t1 ≡ h0 + h1 since t2 = 0
        assert(cong(t1, h0 + h1)) by {
            lemma_cong_add(t2, h0 + h1, t1 - (h0 + h1), h0 + h1);
        }
        lemma_cong_add(2 * (e + hr), h0 + h1, 2 * (e + hr), t1);
    }
    lemma_cong_mod(m0 + m1);
    lemma_residue(m0 + m1);
    lemma_residue(fmul(a % p(), fadd(e, hr)) + fmul(b % p(), t1));
    lemma_cong_residues(fadd(m0, m1), mk);
}

/// Round `k`'s message of the masked sumcheck: at each `j`, the round
/// polynomial of `Π_i p_i` plus `ρ` times the mask's, both with the first
/// `k` variables bound to the first `k` challenges.
pub open spec fn zk_round_msg_correct(
    polys: Seq<DenseMLPoly>,
    cs: Seq<Seq<int>>,
    rho: int,
    chs: Seq<int>,
    k: int,
    msg: Seq<int>,
    n: nat,
) -> bool {
    let pre = chs.take(k);
    let ts = bound_tables(polys, pre);
    forall|j: int|
        0 <= j < msg.len() ==> #[trigger] msg[j] == fadd(
            round_value(ts, j, pow2((n - k - 1) as nat)),
            fmul(rho, mask_round(cs, pre, k as nat, j)),
        )
}

/// The mask commitment of a proof, as bytes, if present.
pub open spec fn mask_commitment_view(proof: SumcheckProof) -> Option<Seq<u8>> {
    match proof.zk_mask_commitment {
        Some(b) => Some(b@),
        None => None,
    }
}

/// `zk_round_msg_correct` for polynomials given by their tables.
pub open spec fn tables_zk_msg_correct(
    tabs: Seq<Seq<int>>,
    cs: Seq<Seq<int>>,
    rho: int,
    chs: Seq<int>,
    k: int,
    msg: Seq<int>,
    n: nat,
) -> bool {
    let pre = chs.take(k);
    let ts = Seq::new(tabs.len(), |i: int| folds(tabs[i], pre));
    forall|j: int|
        0 <= j < msg.len() ==> #[trigger] msg[j] == fadd(
            round_value(ts, j, pow2((n - k - 1) as nat)),
            fmul(rho, mask_round(cs, pre, k as nat, j)),
        )
}

/// Whether a zero-knowledge round message is correct depends on the
/// polynomials through their tables only.
pub proof fn lemma_zk_msg_correct_by_tables(
    polys: Seq<DenseMLPoly>,
    cs: Seq<Seq<int>>,
    rho: int,
    chs: Seq<int>,
    k: int,
    msg: Seq<int>,
    n: nat,
)
    ensures
        zk_round_msg_correct(polys, cs, rho, chs, k, msg, n) == tables_zk_msg_correct(
            poly_tables(polys),
            cs,
            rho,
            chs,
            k,
            msg,
            n,
        ),
{
    let tabs = poly_tables(polys);
    assert(bound_tables(polys, chs.take(k)) =~= Seq::new(tabs.len(), |i: int| folds(tabs[i], chs.take(k))));
}

proof fn lemma_fadd_fmul_split(a0: int, a1: int, r: int, m0: int, m1: int)
    ensures
        fadd(fadd(a0, fmul(r, m0)), fadd(a1, fmul(r, m1))) == fadd(fadd(a0, a1), fmul(r, fadd(m0, m1))),
{
    lemma_cong_mod(r * m0);
    lemma_cong_mod(r * m1);
    lemma_cong_add(a0, fmul(r, m0), a0, r * m0);
    lemma_cong_add(a1, fmul(r, m1), a1, r * m1);
    lemma_cong_mod(a0 + fmul(r, m0));
    lemma_cong_mod(a1 + fmul(r, m1));
    lemma_cong_add(fadd(a0, fmul(r, m0)), fadd(a1, fmul(r, m1)), a0 + r * m0, a1 + r * m1);
    lemma_cong_mod(m0 + m1);
    lemma_cong_mul(r, fadd(m0, m1), r, m0 + m1);
    lemma_cong_mod(r * fadd(m0, m1));
    lemma_cong_mod(a0 + a1);
    lemma_cong_add(fadd(a0, a1), fmul(r, fadd(m0, m1)), a0 + a1, r * (m0 + m1));
    assert(r * (m0 + m1) == r * m0 + r * m1) by (nonlinear_arith);
    lemma_cong_mod(fadd(a0, fmul(r, m0)) + fadd(a1, fmul(r, m1)));
    lemma_cong_mod(fadd(a0, a1) + fmul(r, fadd(m0, m1)));
    lemma_residue(fadd(a0, fmul(r, m0)) + fadd(a1, fmul(r, m1)));
    lemma_residue(fadd(a0, a1) + fmul(r, fadd(m0, m1)));
    lemma_cong_residues(
        fadd(fadd(a0, fmul(r, m0)), fadd(a1, fmul(r, m1))),
        fadd(fadd(a0, a1), fmul(r, fadd(m0, m1))),
    );
}

/// In the first round, the mask's round polynomial at 0 and at 1 adds up
/// to the mask sum.
pub proof fn lemma_mask_round0_sum(cs: Seq<Seq<int>>)
    requires
        cs.len() >= 1,
    ensures
        fadd(mask_round(cs, seq![], 0, 0), mask_round(cs, seq![], 0, 1)) == mask_sum(cs),
{
    let n = cs.len();
    let a = pow2((n - 1) as nat) as int;
    let h0 = horner(cs[0], 0);
    let h1 = horner(cs[0], 1);
    let t = mask_01_sum(cs, n);
    let s1 = mask_01_sum(cs, 1);
    assert(mask_eval(cs, seq![], 0) == 0);
    assert(mask_01_sum(cs, 0) == 0);
    // s1 ≡ h0 + h1
    lemma_cong_mod(0 + h0);
    lemma_cong_add(fadd(0, h0), h1, h0, h1);
    lemma_cong_mod(fadd(0, h0) + h1);
    assert(cong(s1, h0 + h1));
    // each main part ≡ a·h_c
    lemma_cong_mod(a);
    lemma_cong_mod(0 + h0);
    lemma_cong_mod(0 + h1);
    lemma_cong_mul(a % p(), fadd(0, h0), a, h0);
    lemma_cong_mul(a % p(), fadd(0, h1), a, h1);
    let main0 = fmul(a % p(), fadd(0, h0));
    let main1 = fmul(a % p(), fadd(0, h1));
    lemma_cong_mod(a % p() * fadd(0, h0));
    lemma_cong_mod(a % p() * fadd(0, h1));
    assert(cong(main0, a * h0));
    assert(cong(main1, a * h1));
    lemma_cong_mod(t);
    lemma_cong_mul(a % p(), t, a, t);
    lemma_cong_mod(a % p() * t);
    assert(cong(mask_sum(cs), a * t));
    let m0 = mask_round(cs, seq![], 0, 0);
    let m1 = mask_round(cs, seq![], 0, 1);
    if n >= 2 {
        let b = pow2((n - 2) as nat) as int;
        lemma_pow2_unfold((n - 1) as nat);
        assert(a == 2 * b);
        let tl = mask_tail_01(cs, 1);
        lemma_cong_mod(t - s1);
        lemma_cong_sub(t, s1, t, h0 + h1);
        assert(cong(tl, t - (h0 + h1)));
        lemma_cong_mod(b);
        lemma_cong_mul(b % p(), tl, b, t - (h0 + h1));
        let w = fmul(b % p(), tl);
        lemma_cong_mod(b % p() * tl);
        assert(cong(w, b * (t - (h0 + h1))));
        lemma_cong_add(main0, w, a * h0, b * (t - (h0 + h1)));
        lemma_cong_add(main1, w, a * h1, b * (t - (h0 + h1)));
        lemma_cong_mod(main0 + w);
        lemma_cong_mod(main1 + w);
        assert(m0 == fadd(main0, w));
        assert(m1 == fadd(main1, w));
        lemma_cong_add(m0, m1, a * h0 + b * (t - (h0 + h1)), a * h1 + b * (t - (h0 + h1)));
        assert(a * h0 + b * (t - (h0 + h1)) + (a * h1 + b * (t - (h0 + h1))) == a * t)
            by (nonlinear_arith)
            requires
                a == 2 * b,
        ;
    } else {
        assert(n == 1);
        assert(m0 == main0);
        assert(m1 == main1);
        lemma_cong_add(m0, m1, a * h0, a * h1);
        assert(t == s1);
        assert(a == 1) by {
            lemma2_to64();
        }
        assert(a * h0 + a * h1 == h0 + h1 && a * t == t) by (nonlinear_arith)
            requires
                a == 1,
        ;
        assert(cong(a * h0 + a * h1, a * t));
    }
    lemma_cong_mod(m0 + m1);
    lemma_residue(m0 + m1);
    lemma_residue(a % p() * t);
    lemma_cong_residues(fadd(m0, m1), mask_sum(cs));
}

/// `mask_eval` reads only the first `k` challenges.
proof fn lemma_mask_eval_prefix(cs: Seq<Seq<int>>, a: Seq<int>, b: Seq<int>, k: nat)
    requires
        k <= a.len(),
        k <= b.len(),
        forall|i: int| 0 <= i < k ==> a[i] == b[i],
    ensures
        mask_eval(cs, a, k) == mask_eval(cs, b, k),
    decreases k,
{
    if k > 0 {
        lemma_mask_eval_prefix(cs, a, b, (k - 1) as nat);
        assert(a[k - 1] == b[k - 1]);
    }
}

/// Taking out round `k`'s pair `s_k(0) + s_k(1)` leaves the tail after `k`.
proof fn lemma_tail_step(cs: Seq<Seq<int>>, k: nat)
    requires
        k < cs.len(),
    ensures
        fsub(mask_tail_01(cs, k), fadd(horner(cs[k as int], 0), horner(cs[k as int], 1)))
            == mask_tail_01(cs, k + 1),
{
    let t = mask_01_sum(cs, cs.len());
    let sk = mask_01_sum(cs, k);
    let h0 = horner(cs[k as int], 0);
    let h1 = horner(cs[k as int], 1);
    let sk1 = mask_01_sum(cs, k + 1);
    assert(sk1 == fadd(fadd(sk, h0), h1));
    lemma_cong_mod(sk + h0);
    lemma_cong_add(fadd(sk, h0), h1, sk + h0, h1);
    lemma_cong_mod(fadd(sk, h0) + h1);
    assert(cong(sk1, sk + h0 + h1));
    lemma_cong_mod(t - sk);
    lemma_cong_mod(h0 + h1);
    lemma_cong_sub(fsub(t, sk), fadd(h0, h1), t - sk, h0 + h1);
    lemma_cong_sub(t, sk1, t, sk + h0 + h1);
    lemma_cong_mod(fsub(t, sk) - fadd(h0, h1));
    lemma_cong_mod(t - sk1);
    lemma_residue(fsub(t, sk) - fadd(h0, h1));
    lemma_residue(t - sk1);
    lemma_cong_residues(fsub(fsub(t, sk), fadd(h0, h1)), fsub(t, sk1));
}

/// `1 << k` is `2^k` for `k < 64`.
pub(crate) proof fn lemma_shl_pow2(k: u64)
    requires
        k < 64,
    ensures
        1u64 << k == pow2(k as nat),
        pow2(k as nat) <= u64::MAX,
{
    lemma_pow2_strictly_increases(k as nat, 64);
    lemma2_to64_rest();
    vstd::bits::lemma_u64_shl_is_mul(1, k);
}

/// Draws a word uniformly below `bound` with `rand`'s thread-local
/// generator (`rand::Rng::gen_range` on `rand::thread_rng()`).  Only the
/// range of the result is stated.  The generator panics if the operating
/// system's entropy source fails when it is first seeded; nothing here
/// excludes that.
#[verifier::external_body]
fn random_below(bound: u64) -> (r: u64)
    requires
        bound > 0,
    ensures
        r < bound,
{
    rand::Rng::gen_range(&mut rand::thread_rng(), 0..bound)
}

/// An exact copy of the mask coefficients.
fn copy_coeffs(v: &Vec<Vec<Fe>>) -> (r: Vec<Vec<Fe>>)
    ensures
        r.len() == v.len(),
        forall|i: int| 0 <= i < v.len() ==> (#[trigger] r@[i])@ == v@[i]@,
{
    let mut r: Vec<Vec<Fe>> = Vec::new();
    let mut i: usize = 0;
    while i < v.len()
        invariant
            i <= v.len(),
            r.len() == i,
            forall|k: int| 0 <= k < i ==> (#[trigger] r@[k])@ == v@[k]@,
        decreases v.len() - i,
    {
        r.push(copy_fes(&v[i]));
        i = i + 1;
    }
    r
}

/// The zero-knowledge linear sumcheck prover: proves
/// `H = Σ_{x∈{0,1}^n} Π_{i<ℓ} p_i(x)` by running the sumcheck on `g + ρ·p`,
/// where `p(x) = Σ_i s_i(x_i)` is a mask of univariates `s_i` of degree `ℓ`
/// with random coefficients, and `ρ` is drawn after the mask sum is
/// absorbed.  The mask coefficients go into the proof.
pub struct ZkLinearSumcheckProver {
    pub num_var: usize,
    pub num_poly: usize,
    pub challenges: Vec<Fe>,
    pub inner: LinearSumcheckProver,
    /// `mask_coeffs[i]` holds the `ℓ + 1` coefficients of `s_i`.
    pub mask_coeffs: Vec<Vec<Fe>>,
    /// `s_i(0)` for each variable.
    pub mask_at_0: Vec<Fe>,
    /// `s_i(1)` for each variable.
    pub mask_at_1: Vec<Fe>,
    /// `Σ_{i < round} s_i(r_i)`.
    pub fixed_sum: Fe,
    /// `Σ_{i > round} (s_i(0) + s_i(1))`.
    pub remaining_01_sum: Fe,
    /// The masking scalar drawn from the transcript.
    pub rho: Fe,
    /// The mask sum `P = Σ_{x∈{0,1}^n} p(x)`.
    pub mask_sum: Fe,
}

impl ZkLinearSumcheckProver {
    /// A prover that has not run yet.
    pub open spec fn fresh(&self) -> bool {
        &&& self.inner.num_var == self.num_var
        &&& self.inner.num_poly == self.num_poly
        &&& self.inner.current_round == 0
        &&& self.inner.challenges.len() == 0
        &&& self.challenges.len() == 0
    }

    /// The state at the start of round `round`.
    spec fn round_inv(&self, round: nat) -> bool {
        let n = self.num_var;
        let cs = coeffs_vals(self.mask_coeffs@);
        &&& 1 <= n <= 64
        &&& self.inner.inv()
        &&& self.inner.num_var == n
        &&& self.inner.num_poly == self.num_poly
        &&& self.inner.current_round == round
        &&& self.challenges@ == self.inner.challenges@
        &&& self.mask_coeffs.len() == n
        &&& forall|i: int| 0 <= i < n ==> (#[trigger] self.mask_coeffs@[i]).len() == self.num_poly + 1
        &&& self.mask_at_0.len() == n
        &&& self.mask_at_1.len() == n
        &&& forall|i: int| 0 <= i < n ==> (#[trigger] self.mask_at_0@[i])@ == horner(cs[i], 0)
        &&& forall|i: int| 0 <= i < n ==> (#[trigger] self.mask_at_1@[i])@ == horner(cs[i], 1)
        &&& self.fixed_sum@ == mask_eval(cs, fvals(self.challenges@), round)
        &&& self.remaining_01_sum@ == mask_tail_01(cs, round)
    }

    /// The mask's round polynomial in round `round` at `c`.
    fn mask_round_value(&self, round: usize, c: &Fe) -> (r: Fe)
        requires
            1 <= self.num_var <= 64,
            round < self.num_var,
            self.mask_coeffs.len() == self.num_var,
            forall|i: int| 0 <= i < self.num_var ==> (#[trigger] self.mask_coeffs@[i]).len() > 0,
            self.challenges.len() == round,
            self.fixed_sum@ == mask_eval(
                coeffs_vals(self.mask_coeffs@),
                fvals(self.challenges@),
                round as nat,
            ),
            self.remaining_01_sum@ == mask_tail_01(coeffs_vals(self.mask_coeffs@), round as nat + 1),
        ensures
            r@ == mask_round(
                coeffs_vals(self.mask_coeffs@),
                fvals(self.challenges@),
                round as nat,
                c@,
            ),
    {
        let n = self.num_var;
        proof {
            lemma_shl_pow2((n - round - 1) as u64);
            assert(coeffs_vals(self.mask_coeffs@)[round as int] == fvals(
                self.mask_coeffs@[round as int]@,
            ));
        }
        let power_main = 1u64 << ((n - round - 1) as u64);
        let si = eval_univariate(self.mask_coeffs[round].as_slice(), c);
        let main = Fe::from_u64(power_main).mul(&self.fixed_sum.add(&si));
        if round + 1 < n {
            proof {
                lemma_shl_pow2((n - round - 2) as u64);
            }
            let power_half = 1u64 << ((n - round - 2) as u64);
            main.add(&Fe::from_u64(power_half).mul(&self.remaining_01_sum))
        } else {
            main
        }
    }

    /// Round `round`'s message: `inner_msg[j] + ρ · (mask round value at j)`
    /// for `j = 0..=ℓ`.
    fn combined_message(&self, round: usize, inner_msg: &Vec<Fe>) -> (r: Vec<Fe>)
        requires
            1 <= self.num_var <= 64,
            round < self.num_var,
            self.num_poly < usize::MAX,
            self.num_poly < MODULUS,
            inner_msg.len() == self.num_poly + 1,
            self.mask_coeffs.len() == self.num_var,
            forall|i: int| 0 <= i < self.num_var ==> (#[trigger] self.mask_coeffs@[i]).len() > 0,
            self.challenges.len() == round,
            self.fixed_sum@ == mask_eval(
                coeffs_vals(self.mask_coeffs@),
                fvals(self.challenges@),
                round as nat,
            ),
            self.remaining_01_sum@ == mask_tail_01(coeffs_vals(self.mask_coeffs@), round as nat + 1),
        ensures
            r.len() == self.num_poly + 1,
            forall|j: int|
                0 <= j <= self.num_poly ==> (#[trigger] r@[j])@ == fadd(
                    inner_msg@[j]@,
                    fmul(
                        self.rho@,
                        mask_round(
                            coeffs_vals(self.mask_coeffs@),
                            fvals(self.challenges@),
                            round as nat,
                            j,
                        ),
                    ),
                ),
    {
        let mut r: Vec<Fe> = Vec::new();
        let mut j: usize = 0;
        while j <= self.num_poly
            invariant
                1 <= self.num_var <= 64,
                round < self.num_var,
                self.num_poly < usize::MAX,
                self.num_poly < MODULUS,
                inner_msg.len() == self.num_poly + 1,
                self.mask_coeffs.len() == self.num_var,
                forall|i: int| 0 <= i < self.num_var ==> (#[trigger] self.mask_coeffs@[i]).len() > 0,
                self.challenges.len() == round,
                self.fixed_sum@ == mask_eval(
                    coeffs_vals(self.mask_coeffs@),
                    fvals(self.challenges@),
                    round as nat,
                ),
                self.remaining_01_sum@ == mask_tail_01(
                    coeffs_vals(self.mask_coeffs@),
                    round as nat + 1,
                ),
                j <= self.num_poly + 1,
                r.len() == j,
                forall|k: int|
                    0 <= k < j ==> (#[trigger] r@[k])@ == fadd(
                        inner_msg@[k]@,
                        fmul(
                            self.rho@,
                            mask_round(
                                coeffs_vals(self.mask_coeffs@),
                                fvals(self.challenges@),
                                round as nat,
                                k,
                            ),
                        ),
                    ),
            decreases self.num_poly + 1 - j,
        {
            let c = Fe::from_u64(j as u64);
            proof {
                lemma_small_mod(j as nat, p() as nat);
            }
            let mv = self.mask_round_value(round, &c);
            r.push(inner_msg[j].add(&self.rho.mul(&mv)));
            j = j + 1;
        }
        r
    }
}

/// Extending the challenges and the messages by a correct round keeps every
/// round correct.
proof fn lemma_zk_msgs_push(
    polys: Seq<DenseMLPoly>,
    cs: Seq<Seq<int>>,
    rho: int,
    chs: Seq<int>,
    ch: int,
    ms: Seq<Seq<int>>,
    msg: Seq<int>,
    n: nat,
)
    requires
        chs.len() == ms.len(),
        forall|k: int|
            0 <= k < ms.len() ==> #[trigger] zk_round_msg_correct(polys, cs, rho, chs, k, ms[k], n),
        zk_round_msg_correct(polys, cs, rho, chs, ms.len() as int, msg, n),
    ensures
        forall|k: int|
            0 <= k <= ms.len() ==> #[trigger] zk_round_msg_correct(
                polys,
                cs,
                rho,
                chs.push(ch),
                k,
                ms.push(msg)[k],
                n,
            ),
{
    let chs2 = chs.push(ch);
    let ms2 = ms.push(msg);
    assert forall|k: int| 0 <= k <= ms.len() implies #[trigger] zk_round_msg_correct(
        polys,
        cs,
        rho,
        chs2,
        k,
        ms2[k],
        n,
    ) by {
        assert(chs2.take(k) =~= chs.take(k));
        if k < ms.len() {
            assert(ms2[k] == ms[k]);
            assert(zk_round_msg_correct(polys, cs, rho, chs, k, ms[k], n));
        } else {
            assert(ms2[k] == msg);
        }
    }
}

/// `n` univariates of `degree + 1` random coefficients each.
fn sample_mask(n: usize, degree: usize) -> (r: Vec<Vec<Fe>>)
    requires
        degree < usize::MAX,
    ensures
        r.len() == n,
        forall|k: int| 0 <= k < n ==> (#[trigger] r@[k]).len() == degree + 1,
{
    let mut mask_coeffs: Vec<Vec<Fe>> = Vec::new();
    let mut i: usize = 0;
    while i < n
        invariant
            i <= n,
            degree < usize::MAX,
            mask_coeffs.len() == i,
            forall|k: int| 0 <= k < i ==> (#[trigger] mask_coeffs@[k]).len() == degree + 1,
        decreases n - i,
    {
        let mut si: Vec<Fe> = Vec::new();
        let mut j: usize = 0;
        while j <= degree
            invariant
                j <= degree + 1,
                degree < usize::MAX,
                si.len() == j,
            decreases degree + 1 - j,
        {
            si.push(Fe { v: random_below(MODULUS) });
            j = j + 1;
        }
        mask_coeffs.push(si);
        i = i + 1;
    }
    mask_coeffs
}

/// `s_i(0)` and `s_i(1)` for each univariate, and `Σ_i (s_i(0) + s_i(1))`.
fn mask_01_values(mc: &Vec<Vec<Fe>>) -> (r: (Vec<Fe>, Vec<Fe>, Fe))
    requires
        forall|k: int| 0 <= k < mc.len() ==> (#[trigger] mc@[k]).len() > 0,
    ensures
        r.0.len() == mc.len(),
        r.1.len() == mc.len(),
        forall|k: int| 0 <= k < mc.len() ==> (#[trigger] r.0@[k])@ == horner(coeffs_vals(mc@)[k], 0),
        forall|k: int| 0 <= k < mc.len() ==> (#[trigger] r.1@[k])@ == horner(coeffs_vals(mc@)[k], 1),
        r.2@ == mask_01_sum(coeffs_vals(mc@), mc.len() as nat),
{
    let ghost cs = coeffs_vals(mc@);
    let n = mc.len();
    let zero = Fe::zero();
    let one = Fe::one();
    let mut at0: Vec<Fe> = Vec::new();
    let mut at1: Vec<Fe> = Vec::new();
    let mut total_01 = Fe::zero();
    let mut i: usize = 0;
    while i < n
        invariant
            i <= n,
            mc.len() == n,
            zero@ == 0,
            one@ == 1,
            forall|k: int| 0 <= k < n ==> (#[trigger] mc@[k]).len() > 0,
            cs == coeffs_vals(mc@),
            at0.len() == i,
            at1.len() == i,
            forall|k: int| 0 <= k < i ==> (#[trigger] at0@[k])@ == horner(cs[k], 0),
            forall|k: int| 0 <= k < i ==> (#[trigger] at1@[k])@ == horner(cs[k], 1),
            total_01@ == mask_01_sum(cs, i as nat),
        decreases n - i,
    {
        let s0 = eval_univariate(mc[i].as_slice(), &zero);
        let s1 = eval_univariate(mc[i].as_slice(), &one);
        proof {
            assert(cs[i as int] == fvals(mc@[i as int]@));
        }
        at0.push(s0);
        at1.push(s1);
        total_01 = total_01.add(&s0).add(&s1);
        i = i + 1;
    }
    (at0, at1, total_01)
}

/// Draws `k` challenges under `label` in a row.
fn draw_challenges(transcript: &mut Transcript, label: u64, k: usize) -> (q: Vec<Fe>)
    ensures
        q.len() == k,
        fvals(q@) == t_challenges(old(transcript)@, label, k as nat),
        final(transcript)@ == t_after_challenges(old(transcript)@, label, k as nat),
{
    let ghost log = transcript@;
    let mut q: Vec<Fe> = Vec::new();
    let mut i: usize = 0;
    while i < k
        invariant
            i <= k,
            q.len() == i,
            fvals(q@) == t_challenges(log, label, i as nat),
            transcript@ == t_after_challenges(log, label, i as nat),
        decreases k - i,
    {
        let c = transcript.challenge_scalar(label);
        q.push(c);
        proof {
            assert(fvals(q@) =~= t_challenges(log, label, i as nat).push(c@));
        }
        i = i + 1;
    }
    q
}

/// The first round of the masked sumcheck: its values at 0 and 1 add up to
/// `H + ρ·P`.
proof fn lemma_zk_first_round(
    polys: Seq<DenseMLPoly>,
    cs: Seq<Seq<int>>,
    rho: int,
    chs: Seq<int>,
    msg: Seq<int>,
    n: nat,
)
    requires
        n >= 1,
        cs.len() == n,
        msg.len() >= 2,
        zk_round_msg_correct(polys, cs, rho, chs, 0, msg, n),
        fadd(
            round_value(bound_tables(polys, seq![]), 0, pow2((n - 1) as nat)),
            round_value(bound_tables(polys, seq![]), 1, pow2((n - 1) as nat)),
        ) == hypercube_sum(bound_tables(polys, seq![]), pow2(n)),
    ensures
        fadd(msg[0], msg[1]) == fadd(
            hypercube_sum(bound_tables(polys, seq![]), pow2(n)),
            fmul(rho, mask_sum(cs)),
        ),
{
    let ts0 = bound_tables(polys, seq![]);
    let h = pow2((n - 1) as nat);
    assert(chs.take(0) =~= seq![]);
    let m0 = mask_round(cs, seq![], 0, 0);
    let m1 = mask_round(cs, seq![], 0, 1);
    assert(msg[0] == fadd(round_value(ts0, 0, h), fmul(rho, m0)));
    assert(msg[1] == fadd(round_value(ts0, 1, h), fmul(rho, m1)));
    lemma_mask_round0_sum(cs);
    lemma_fadd_fmul_split(round_value(ts0, 0, h), round_value(ts0, 1, h), rho, m0, m1);
}

impl ZkLinearSumcheckProver {
    /// The rounds of the masked sumcheck, from a loaded state.
    fn run_rounds(&mut self, transcript: &mut Transcript, Ghost(polys): Ghost<Seq<DenseMLPoly>>) -> (round_messages: Vec<Vec<Fe>>)
        requires
            old(self).round_inv(0),
            polys.len() == old(self).num_poly,
            old(self).num_poly >= 1,
            old(self).num_poly < MODULUS,
            old(self).num_poly < usize::MAX,
            old(self).inner.tables() == bound_tables(polys, seq![]),
        ensures
            final(self).round_inv(old(self).num_var as nat),
            final(self).num_var == old(self).num_var,
            final(self).num_poly == old(self).num_poly,
            final(self).mask_coeffs == old(self).mask_coeffs,
            final(self).rho == old(self).rho,
            final(self).mask_sum == old(self).mask_sum,
            round_messages.len() == old(self).num_var,
            forall|k: int|
                0 <= k < old(self).num_var ==> #[trigger] round_messages@[k].len() == old(self).num_poly + 1,
            ({
                let ms = msgs_vals(round_messages@);
                let chs = rounds_challenges(old(transcript)@, ms);
                &&& fvals(final(self).challenges@) == chs
                &&& final(transcript)@ == rounds_log(old(transcript)@, ms)
                &&& final(self).inner.tables() == bound_tables(polys, chs)
                &&& forall|k: int|
                    0 <= k < old(self).num_var ==> #[trigger] zk_round_msg_correct(
                        polys,
                        coeffs_vals(old(self).mask_coeffs@),
                        old(self).rho@,
                        chs,
                        k,
                        ms[k],
                        old(self).num_var as nat,
                    )
            }),
    {
        let n = self.num_var;
        let degree = self.num_poly;
        let ghost cs = coeffs_vals(self.mask_coeffs@);
        let ghost log1 = transcript@;
        let ghost mc = self.mask_coeffs;
        let ghost rho = self.rho;
        let ghost msum = self.mask_sum;
        proof {
            assert(msgs_vals(Seq::<Vec<Fe>>::empty()) =~= seq![]);
            assert(fvals(self.challenges@) =~= seq![]);
        }
        let mut round_messages: Vec<Vec<Fe>> = Vec::new();
        let mut round: usize = 0;
        while round < n
            invariant
                self.round_inv(round as nat),
                self.num_var == n,
                self.num_poly == degree,
                self.mask_coeffs == mc,
                cs == coeffs_vals(mc@),
                self.rho == rho,
                self.mask_sum == msum,
                degree == polys.len(),
                degree >= 1,
                degree < MODULUS,
                degree < usize::MAX,
                round <= n,
                round_messages.len() == round,
                forall|k: int| 0 <= k < round ==> #[trigger] round_messages@[k].len() == degree + 1,
                fvals(self.challenges@) == rounds_challenges(log1, msgs_vals(round_messages@)),
                transcript@ == rounds_log(log1, msgs_vals(round_messages@)),
                self.inner.tables() == bound_tables(polys, fvals(self.challenges@)),
                forall|k: int|
                    0 <= k < round ==> #[trigger] zk_round_msg_correct(
                        polys,
                        cs,
                        rho@,
                        fvals(self.challenges@),
                        k,
                        msgs_vals(round_messages@)[k],
                        n as nat,
                    ),
            decreases n - round,
        {
            let ghost chs = fvals(self.challenges@);
            let ghost ms = msgs_vals(round_messages@);
            let inner_msg = self.inner.compute_round_message();
            proof {
                lemma_tail_step(cs, round as nat);
            }
            let pair = self.mask_at_0[round].add(&self.mask_at_1[round]);
            self.remaining_01_sum = self.remaining_01_sum.sub(&pair);
            let combined = self.combined_message(round, &inner_msg);
            proof {
                self.inner.lemma_tables_facts();
                lemma_pow2_unfold((n - round) as nat);
                assert(chs.take(round as int) =~= chs);
                assert(zk_round_msg_correct(polys, cs, rho@, chs, round as int, fvals(combined@), n as nat));
            }
            let ch = absorb_round(transcript, &combined);
            round_messages.push(combined);
            let sr = eval_univariate(self.mask_coeffs[round].as_slice(), &ch);
            self.fixed_sum = self.fixed_sum.add(&sr);
            self.inner.receive_challenge(ch);
            self.challenges.push(ch);
            proof {
                let ms2 = msgs_vals(round_messages@);
                let chs2 = fvals(self.challenges@);
                assert(cs[round as int] == fvals(self.mask_coeffs@[round as int]@));
                assert(ms2 =~= ms.push(fvals(combined@)));
                assert(ms2.drop_last() =~= ms);
                assert(chs2 =~= chs.push(ch@));
                lemma_bound_tables_push(polys, chs, ch@);
                assert(self.inner.tables() =~= bound_tables(polys, chs2));
                lemma_zk_msgs_push(polys, cs, rho@, chs, ch@, ms, fvals(combined@), n as nat);
                lemma_mask_eval_prefix(cs, chs, chs2, round as nat);
                assert(self.round_inv(round as nat + 1));
            }
            round = round + 1;
        }
        round_messages
    }

    /// Installs the mask and the instances for the rounds.
    fn install(
        &mut self,
        mask_coeffs: Vec<Vec<Fe>>,
        at0: Vec<Fe>,
        at1: Vec<Fe>,
        total_01: Fe,
        rho: Fe,
        mask_sum: Fe,
        instances: &Vec<DenseMLPoly>,
    )
        requires
            old(self).fresh(),
            1 <= old(self).num_var <= 64,
            instances.len() >= 1,
            instances.len() == old(self).num_poly,
            forall|i: int|
                0 <= i < instances.len() ==> #[trigger] instances@[i].evaluations.len() == pow2(
                    old(self).num_var as nat,
                ),
            mask_coeffs.len() == old(self).num_var,
            forall|k: int| 0 <= k < mask_coeffs.len() ==> (#[trigger] mask_coeffs@[k]).len() == old(self).num_poly + 1,
            at0.len() == mask_coeffs.len(),
            at1.len() == mask_coeffs.len(),
            forall|k: int| 0 <= k < mask_coeffs.len() ==> (#[trigger] at0@[k])@ == horner(coeffs_vals(mask_coeffs@)[k], 0),
            forall|k: int| 0 <= k < mask_coeffs.len() ==> (#[trigger] at1@[k])@ == horner(coeffs_vals(mask_coeffs@)[k], 1),
            total_01@ == mask_01_sum(coeffs_vals(mask_coeffs@), mask_coeffs.len() as nat),
        ensures
            final(self).round_inv(0),
            final(self).num_var == old(self).num_var,
            final(self).num_poly == old(self).num_poly,
            final(self).mask_coeffs == mask_coeffs,
            final(self).rho == rho,
            final(self).mask_sum == mask_sum,
            final(self).inner.tables() == bound_tables(instances@, seq![]),
            fadd(
                round_value(bound_tables(instances@, seq![]), 0, pow2((old(self).num_var - 1) as nat)),
                round_value(bound_tables(instances@, seq![]), 1, pow2((old(self).num_var - 1) as nat)),
            ) == hypercube_sum(bound_tables(instances@, seq![]), pow2(old(self).num_var as nat)),
    {
        let ghost cs = coeffs_vals(mask_coeffs@);
        let n = self.num_var;
        self.mask_coeffs = mask_coeffs;
        self.mask_at_0 = at0;
        self.mask_at_1 = at1;
        self.fixed_sum = Fe::zero();
        self.remaining_01_sum = total_01;
        self.rho = rho;
        self.mask_sum = mask_sum;
        self.inner.load_instances(instances);
        let ghost ts0 = self.inner.tables();
        proof {
            self.inner.lemma_tables_facts();
            lemma_pow2_unfold(n as nat);
            lemma_round_sum(ts0, pow2((n - 1) as nat));
            lemma_residue(
                fadd(mask_01_sum(cs, (n - 1) as nat), horner(cs[n - 1], 0)) + horner(cs[n - 1], 1),
            );
            lemma_small_mod(total_01@ as nat, p() as nat);
            assert(self.remaining_01_sum@ == mask_tail_01(cs, 0));
            assert(self.challenges@ =~= self.inner.challenges@);
            assert(fvals(self.challenges@) =~= seq![]);
        }
    }

    /// `Π_i p_i(r) + ρ·p(r)` at the challenge point `r`, after the rounds.
    fn final_eval_zk(&self, Ghost(polys): Ghost<Seq<DenseMLPoly>>) -> (r: Fe)
        requires
            self.round_inv(self.num_var as nat),
            polys.len() == self.num_poly,
            self.inner.tables() == bound_tables(polys, fvals(self.challenges@)),
        ensures
            r@ == fadd(
                mle_prod(polys, fvals(self.challenges@), self.num_poly as nat),
                fmul(
                    self.rho@,
                    mask_eval(coeffs_vals(self.mask_coeffs@), fvals(self.challenges@), self.num_var as nat),
                ),
            ),
    {
        let inner_final = self.inner.final_evaluation();
        let mask_at_challenges = recompute_mask_eval(self.mask_coeffs.as_slice(), self.challenges.as_slice());
        proof {
            self.inner.lemma_tables_facts();
            lemma2_to64();
            lemma_point_prod_mle(polys, fvals(self.challenges@), self.num_poly as nat);
        }
        inner_final.add(&self.rho.mul(&mask_at_challenges))
    }

    /// Proves in zero-knowledge mode: samples the mask coefficients, absorbs
    /// the commitment to the packed coefficients (when `ctx` holds a
    /// committer) and the mask sum, draws `ρ`, runs the rounds on
    /// `g + ρ·p`, and finally (with a committer) draws an opening point and
    /// opens the packed coefficients there.
    pub fn prove_zk<C: MaskCommitter>(
        &mut self,
        instances: &Vec<DenseMLPoly>,
        transcript: &mut Transcript,
        ctx: &mut ProveContext<C>,
    ) -> (proof: SumcheckProof)
        requires
            old(self).fresh(),
            1 <= old(self).num_var <= 64,
            instances.len() >= 1,
            instances.len() == old(self).num_poly,
            old(self).num_poly < MODULUS,
            old(self).num_poly < usize::MAX,
            old(self).num_var * (old(self).num_poly + 1) <= usize::MAX / 2,
            forall|i: int|
                0 <= i < instances.len() ==> #[trigger] instances@[i].evaluations.len() == pow2(
                    old(self).num_var as nat,
                ),
        ensures
            final(self).num_var == old(self).num_var,
            final(self).num_poly == old(self).num_poly,
            *final(ctx) == *old(ctx),
            proof.round_messages.len() == old(self).num_var,
            forall|k: int|
                0 <= k < old(self).num_var ==> #[trigger] proof.round_messages@[k].len()
                    == old(self).num_poly + 1,
            proof.zk_mask_coeffs is Some,
            proof.zk_mask_sum is Some,
            ({
                let n = old(self).num_var as nat;
                let l = old(self).num_poly as nat;
                let c = proof.zk_mask_coeffs->0;
                let cs = coeffs_vals(c@);
                let s = proof.zk_mask_sum->0@;
                let pre = zk_preamble_log(old(transcript)@, mask_commitment_view(proof), s);
                let rho = t_challenge(pre, LABEL_RHO);
                let log1 = t_after_challenge(pre, LABEL_RHO);
                let ms = msgs_vals(proof.round_messages@);
                let chs = rounds_challenges(log1, ms);
                let log2 = rounds_log(log1, ms);
                &&& c.len() == n
                &&& forall|i: int| 0 <= i < n ==> (#[trigger] c@[i]).len() == l + 1
                &&& s == mask_sum(cs)
                &&& fvals(final(self).challenges@) == chs
                &&& forall|k: int|
                    0 <= k < n ==> #[trigger] zk_round_msg_correct(instances@, cs, rho, chs, k, ms[k], n)
                &&& fadd(ms[0][0], ms[0][1]) == fadd(
                    hypercube_sum(bound_tables(instances@, seq![]), pow2(n)),
                    fmul(rho, s),
                )
                &&& proof.final_eval@ == fadd(
                    mle_prod(instances@, chs, l),
                    fmul(rho, mask_eval(cs, chs, n)),
                )
                &&& (old(ctx).mask_committer is None ==> {
                    &&& proof.zk_mask_commitment is None
                    &&& proof.zk_mask_opening_proof is None
                    &&& proof.zk_mask_opening_point is None
                    &&& proof.zk_mask_opening_eval is None
                    &&& final(transcript)@ == log2
                })
                &&& (old(ctx).mask_committer is Some ==> {
                    &&& proof.zk_mask_commitment is Some
                    &&& proof.zk_mask_opening_proof is Some
                    &&& proof.zk_mask_opening_point is Some
                    &&& proof.zk_mask_opening_eval is Some
                    &&& is_ceil_log2(n * (l + 1), proof.zk_mask_opening_point->0.len() as nat)
                    &&& old(ctx).mask_committer->0.binds(
                        packed_mask_table(c@, proof.zk_mask_opening_point->0.len() as nat),
                        proof.zk_mask_commitment->0@,
                    )
                    &&& proof.zk_mask_opening_eval->0@ == mle(
                        packed_mask_table(c@, proof.zk_mask_opening_point->0.len() as nat),
                        fvals(proof.zk_mask_opening_point->0@),
                    )
                    &&& fvals(proof.zk_mask_opening_point->0@) == t_challenges(
                        log2,
                        LABEL_MASK_OPEN,
                        proof.zk_mask_opening_point->0.len() as nat,
                    )
                    &&& final(transcript)@ == t_after_challenges(
                        log2,
                        LABEL_MASK_OPEN,
                        proof.zk_mask_opening_point->0.len() as nat,
                    )
                })
            }),
    {
        let n = self.num_var;
        let degree = self.num_poly;
        let ghost polys = instances@;
        // the mask: random coefficients, their values at 0 and 1, the sum
        let mask_coeffs = sample_mask(n, degree);
        let ghost cs = coeffs_vals(mask_coeffs@);
        let (at0, at1, total_01) = mask_01_values(&mask_coeffs);
        proof {
            lemma_shl_pow2((n - 1) as u64);
        }
        let mask_sum_v = Fe::from_u64(1u64 << ((n - 1) as u64)).mul(&total_01);
        // the packed coefficients and their commitment
        let packed_poly = pack_mask_coeffs(mask_coeffs.as_slice());
        let ghost mc = mask_coeffs@;
        let mut commitment: Option<Vec<u8>> = None;
        match &ctx.mask_committer {
            Some(committer) => {
                let cm = committer.commit(&packed_poly);
                transcript.append_bytes(LABEL_MASK_COMMIT, cm.as_slice());
                commitment = Some(cm);
            },
            None => {},
        }
        // the mask sum, then ρ
        transcript.append_scalar(LABEL_MASK_SUM, &mask_sum_v);
        let rho = transcript.challenge_scalar(LABEL_RHO);
        self.install(mask_coeffs, at0, at1, total_01, rho, mask_sum_v, instances);
        let round_messages = self.run_rounds(transcript, Ghost(polys));
        let ghost log2 = transcript@;
        let final_eval = self.final_eval_zk(Ghost(polys));
        proof {
            let chs = fvals(self.challenges@);
            let ms = msgs_vals(round_messages@);
            assert(zk_round_msg_correct(polys, cs, rho@, chs, 0, ms[0], n as nat));
            assert(round_messages@[0].len() == degree + 1);
            assert(ms[0] == fvals(round_messages@[0]@));
            lemma_zk_first_round(polys, cs, rho@, chs, ms[0], n as nat);
        }
        // the opening of the packed coefficients
        let mut opening_proof: Option<Vec<u8>> = None;
        let mut opening_point: Option<Vec<Fe>> = None;
        let mut opening_eval: Option<Fe> = None;
        match &ctx.mask_committer {
            Some(committer) => {
                let q = draw_challenges(transcript, LABEL_MASK_OPEN, packed_poly.num_vars);
                let (pb, ev) = committer.open(&packed_poly, q.as_slice());
                opening_proof = Some(pb);
                opening_point = Some(q);
                opening_eval = Some(ev);
            },
            None => {},
        }
        let coeffs_out = copy_coeffs(&self.mask_coeffs);
        proof {
            assert(coeffs_vals(coeffs_out@) =~= cs);
            lemma_concat_coeffs_views(coeffs_out@, mc);
        }
        SumcheckProof {
            final_eval,
            round_messages,
            zk_mask_sum: Some(self.mask_sum),
            zk_mask_coeffs: Some(coeffs_out),
            zk_mask_commitment: commitment,
            zk_mask_opening_proof: opening_proof,
            zk_mask_opening_point: opening_point,
            zk_mask_opening_eval: opening_eval,
        }
    }
}

/// The mask's last round polynomial at the last challenge is the mask at
/// the challenge point.
pub proof fn lemma_mask_round_last(cs: Seq<Seq<int>>, chs: Seq<int>)
    requires
        cs.len() >= 1,
        chs.len() == cs.len(),
    ensures
        mask_round(cs, chs.take(cs.len() - 1), (cs.len() - 1) as nat, chs[cs.len() - 1])
            == mask_eval(cs, chs, cs.len()),
{
    let n = cs.len();
    let k = (n - 1) as nat;
    let pre = chs.take(k as int);
    lemma_mask_eval_prefix(cs, pre, chs, k);
    let e = mask_eval(cs, pre, k);
    let hr = horner(cs[k as int], chs[k as int]);
    assert(pow2(0) == 1) by {
        lemma2_to64();
    }
    lemma_residue(e + hr);
    lemma_small_mod(1, p() as nat);
    lemma_small_mod(fadd(e, hr) as nat, p() as nat);
    assert(fmul(1, fadd(e, hr)) == fadd(e, hr));
}

/// In a masked run whose rounds are all correct, each round's claim (its
/// message at 0 plus at 1) is the previous round's masked polynomial at the
/// previous challenge, and the last round's masked polynomial at the last
/// challenge is `Π_i p_i(r) + ρ·p(r)` at the challenge point `r`.
pub proof fn lemma_zk_round_chain(
    polys: Seq<DenseMLPoly>,
    cs: Seq<Seq<int>>,
    rho: int,
    chs: Seq<int>,
    ms: Seq<Seq<int>>,
    n: nat,
)
    requires
        chs.len() == n,
        ms.len() == n,
        cs.len() == n,
        forall|i: int| 0 <= i < polys.len() ==> (#[trigger] polys[i]).evaluations.len() == pow2(n),
        forall|k: int| 0 <= k < n ==> #[trigger] zk_round_msg_correct(polys, cs, rho, chs, k, ms[k], n),
        forall|k: int| 0 <= k < n ==> (#[trigger] ms[k]).len() >= 2,
    ensures
        forall|k: int|
            0 <= k < n - 1 ==> #[trigger] fadd(ms[k + 1][0], ms[k + 1][1]) == fadd(
                round_value(bound_tables(polys, chs.take(k)), chs[k], pow2((n - k - 1) as nat)),
                fmul(rho, mask_round(cs, chs.take(k), k as nat, chs[k])),
            ),
        n >= 1 ==> fadd(
            round_value(bound_tables(polys, chs.take(n - 1)), chs[n - 1], 1),
            fmul(rho, mask_round(cs, chs.take(n - 1), (n - 1) as nat, chs[n - 1])),
        ) == fadd(mle_prod(polys, chs, polys.len()), fmul(rho, mask_eval(cs, chs, n))),
{
    assert forall|k: int| 0 <= k < n - 1 implies #[trigger] fadd(ms[k + 1][0], ms[k + 1][1]) == fadd(
        round_value(bound_tables(polys, chs.take(k)), chs[k], pow2((n - k - 1) as nat)),
        fmul(rho, mask_round(cs, chs.take(k), k as nat, chs[k])),
    ) by {
        let k1 = k + 1;
        let ts1 = bound_tables(polys, chs.take(k1));
        let h = pow2((n - k1 - 1) as nat);
        assert(zk_round_msg_correct(polys, cs, rho, chs, k1, ms[k1], n));
        assert(ms[k1].len() >= 2);
        let mr0 = mask_round(cs, chs.take(k1), k1 as nat, 0);
        let mr1 = mask_round(cs, chs.take(k1), k1 as nat, 1);
        assert(ms[k1][0] == fadd(round_value(ts1, 0, h), fmul(rho, mr0)));
        assert(ms[k1][1] == fadd(round_value(ts1, 1, h), fmul(rho, mr1)));
        lemma_fadd_fmul_split(round_value(ts1, 0, h), round_value(ts1, 1, h), rho, mr0, mr1);
        lemma_bound_tables_facts(polys, chs.take(k1), n);
        lemma_pow2_unfold((n - k1) as nat);
        lemma_round_sum(ts1, h);
        lemma_round_value_at_challenge(polys, chs, k as nat, n);
        lemma_mask_round_chain(cs, chs, k as nat);
    }
    if n >= 1 {
        lemma_round_chain_last(polys, chs, n);
        lemma_mask_round_last(cs, chs);
    }
}

/// The coefficients of the mask's round polynomial in round `k` as a
/// polynomial in the current variable: `a·s_k(X) + (a·e + extra)` with
/// `a = 2^(n-k-1)`, `e = Σ_{i<k} s_i(chs[i])`, and `extra` the tail term.
pub open spec fn mask_round_poly(cs: Seq<Seq<int>>, chs: Seq<int>, k: nat) -> Seq<int> {
    let n = cs.len();
    let a = pow2((n - k - 1) as nat) as int % p();
    let e = mask_eval(cs, chs, k);
    let extra = if k + 1 < n {
        fmul(pow2((n - k - 2) as nat) as int % p(), mask_tail_01(cs, k + 1))
    } else {
        0
    };
    padd(scale(cs[k as int], a), seq![a * e + extra])
}

proof fn lemma_mask_round_poly(cs: Seq<Seq<int>>, chs: Seq<int>, k: nat, c: int)
    requires
        k < cs.len(),
        forall|j: int| 0 <= j < cs[k as int].len() ==> 0 <= #[trigger] cs[k as int][j] < p(),
    ensures
        cong(mask_round(cs, chs, k, c), peval(mask_round_poly(cs, chs, k), c)),
        mask_round_poly(cs, chs, k).len() == if cs[k as int].len() >= 1 {
            cs[k as int].len()
        } else {
            1
        },
{
    let n = cs.len();
    let sk = cs[k as int];
    let a = pow2((n - k - 1) as nat) as int % p();
    let e = mask_eval(cs, chs, k);
    let extra = if k + 1 < n {
        fmul(pow2((n - k - 2) as nat) as int % p(), mask_tail_01(cs, k + 1))
    } else {
        0
    };
    let tail = seq![a * e + extra];
    lemma_horner_peval(sk, c);
    lemma_scale(sk, a, c);
    lemma_padd(scale(sk, a), tail, c);
    assert(peval(tail, c) == a * e + extra + c * peval(tail.drop_first(), c));
    assert(tail.drop_first().len() == 0);
    assert(peval(tail.drop_first(), c) == 0);
    assert(c * 0 == 0) by (nonlinear_arith);
    let pv = peval(sk, c);
    // main = a·(e + s_k(c)) ≡ a·e + a·pv
    lemma_cong_mod(pv);
    lemma_cong_add(e, horner(sk, c), e, pv);
    lemma_cong_mod(e + horner(sk, c));
    lemma_cong_mul(a, fadd(e, horner(sk, c)), a, e + pv);
    let main = fmul(a, fadd(e, horner(sk, c)));
    lemma_cong_mod(a * fadd(e, horner(sk, c)));
    assert(a * (e + pv) == a * pv + a * e) by (nonlinear_arith);
    if k + 1 < n {
        lemma_cong_add(main, extra, a * pv + a * e, extra);
        lemma_cong_mod(main + extra);
    }
}

/// The masked round polynomial of round `k`: the coefficients of
/// `s(X) + ρ·mask(X)`.
pub open spec fn zk_round_poly(polys: Seq<DenseMLPoly>, cs: Seq<Seq<int>>, rho: int, chs: Seq<int>, k: nat, n: nat) -> Seq<int> {
    padd(
        round_poly(bound_tables(polys, chs.take(k as int)), pow2((n - k - 1) as nat)),
        scale(mask_round_poly(cs, chs.take(k as int), k), rho),
    )
}

/// The claim entering round `k` of an honest masked run.
pub open spec fn zk_honest_claim(
    polys: Seq<DenseMLPoly>,
    cs: Seq<Seq<int>>,
    rho: int,
    chs: Seq<int>,
    k: nat,
    n: nat,
) -> int {
    if k == 0 {
        fadd(hypercube_sum(bound_tables(polys, seq![]), pow2(n)), fmul(rho, mask_sum(cs)))
    } else {
        fadd(
            round_value(bound_tables(polys, chs.take(k - 1)), chs[k - 1], pow2((n - k) as nat)),
            fmul(rho, mask_round(cs, chs.take(k - 1), (k - 1) as nat, chs[k - 1])),
        )
    }
}

/// The hypotheses of an honest masked run.
pub open spec fn zk_honest_run(
    polys: Seq<DenseMLPoly>,
    cs: Seq<Seq<int>>,
    rho: int,
    ms: Seq<Seq<int>>,
    log1: Seq<u8>,
    n: nat,
    l: nat,
) -> bool {
    &&& l >= 1
    &&& n >= 1
    &&& polys.len() == l
    &&& forall|i: int| 0 <= i < polys.len() ==> (#[trigger] polys[i]).evaluations.len() == pow2(n)
    &&& ms.len() == n
    &&& forall|j: int| 0 <= j < n ==> (#[trigger] ms[j]).len() == l + 1
    &&& cs.len() == n
    &&& forall|i: int| 0 <= i < n ==> (#[trigger] cs[i]).len() == l + 1
    &&& forall|i: int, j: int| 0 <= i < n && 0 <= j < l + 1 ==> 0 <= #[trigger] cs[i][j] < p()
    &&& forall|j: int|
        0 <= j < n ==> #[trigger] zk_round_msg_correct(polys, cs, rho, rounds_challenges(log1, ms), j, ms[j], n)
}

proof fn lemma_zk_step_sum(
    polys: Seq<DenseMLPoly>,
    cs: Seq<Seq<int>>,
    rho: int,
    ms: Seq<Seq<int>>,
    log1: Seq<u8>,
    n: nat,
    l: nat,
    k: nat,
)
    requires
        zk_honest_run(polys, cs, rho, ms, log1, n, l),
        k < n,
    ensures
        fadd(ms[k as int][0], ms[k as int][1]) == zk_honest_claim(polys, cs, rho, rounds_challenges(log1, ms), k, n),
{
    let chs = rounds_challenges(log1, ms);
    lemma_rounds_take(log1, ms, k);
    if k == 0 {
        let ts0 = bound_tables(polys, seq![]);
        lemma_bound_tables_facts(polys, seq![], n);
        lemma_pow2_unfold(n);
        lemma_round_sum(ts0, pow2((n - 1) as nat));
        assert(zk_round_msg_correct(polys, cs, rho, chs, 0, ms[0], n));
        lemma_zk_first_round(polys, cs, rho, chs, ms[0], n);
    } else {
        lemma_zk_round_chain(polys, cs, rho, chs, ms, n);
        assert(fadd(ms[(k - 1) + 1][0], ms[(k - 1) + 1][1]) == fadd(
            round_value(bound_tables(polys, chs.take(k - 1)), chs[k - 1], pow2((n - (k - 1) - 1) as nat)),
            fmul(rho, mask_round(cs, chs.take(k - 1), (k - 1) as nat, chs[k - 1])),
        ));
    }
}

proof fn lemma_zk_step_interp(
    polys: Seq<DenseMLPoly>,
    cs: Seq<Seq<int>>,
    rho: int,
    ms: Seq<Seq<int>>,
    log1: Seq<u8>,
    n: nat,
    l: nat,
    k: nat,
)
    requires
        zk_honest_run(polys, cs, rho, ms, log1, n, l),
        interp_defined(l + 1),
        k < n,
    ensures
        interpolate(ms[k as int], rounds_challenges(log1, ms)[k as int]) == Some(
            zk_honest_claim(polys, cs, rho, rounds_challenges(log1, ms), k + 1, n),
        ),
{
    let chs = rounds_challenges(log1, ms);
    lemma_rounds_take(log1, ms, k);
    let m = ms[k as int];
    let ch = chs[k as int];
    let pre = chs.take(k as int);
    assert(zk_round_msg_correct(polys, cs, rho, chs, k as int, m, n));
    let ts = bound_tables(polys, pre);
    let h = pow2((n - k - 1) as nat);
    lemma_bound_tables_facts(polys, pre, n);
    assert(ts.len() == l);
    assert forall|j: int| 0 <= j < cs[k as int].len() implies 0 <= #[trigger] cs[k as int][j] < p() by {
        assert(0 <= cs[k as int][j] < p());
    }
    let rp = round_poly(ts, h);
    let mp = mask_round_poly(cs, pre, k);
    let zp = zk_round_poly(polys, cs, rho, chs, k, n);
    // the masked round polynomial at any point
    assert forall|c: int| #[trigger] cong(fadd(round_value(ts, c, h), fmul(rho, mask_round(cs, pre, k, c))), peval(zp, c)) by {
        lemma_round_poly(ts, h, c);
        lemma_mask_round_poly(cs, pre, k, c);
        lemma_scale(mp, rho, c);
        lemma_padd(rp, scale(mp, rho), c);
        let mr = mask_round(cs, pre, k, c);
        lemma_cong_mul(rho, mr, rho, peval(mp, c));
        lemma_cong_mod(rho * mr);
        lemma_cong_add(round_value(ts, c, h), fmul(rho, mr), peval(rp, c), rho * peval(mp, c));
        lemma_cong_mod(round_value(ts, c, h) + fmul(rho, mr));
    }
    lemma_round_poly(ts, h, 0);
    lemma_mask_round_poly(cs, pre, k, 0);
    lemma_scale(mp, rho, 0);
    lemma_padd(rp, scale(mp, rho), 0);
    assert(zp.len() <= l + 1);
    assert forall|j: int| 0 <= j < m.len() implies cong(#[trigger] m[j], peval(zp, j)) by {
        assert(cong(fadd(round_value(ts, j, h), fmul(rho, mask_round(cs, pre, k, j))), peval(zp, j)));
    }
    lemma_interpolation_exact(zp, m, ch);
    let v = fadd(round_value(ts, ch, h), fmul(rho, mask_round(cs, pre, k, ch)));
    assert(cong(v, peval(zp, ch)));
    lemma_residue(round_value(ts, ch, h) + fmul(rho, mask_round(cs, pre, k, ch)));
    lemma_cong_mod(peval(zp, ch));
    lemma_residue(peval(zp, ch));
    lemma_cong_residues(v, peval(zp, ch) % p());
    assert((n - (k + 1)) as nat == (n - k - 1) as nat);
}

/// Completeness in zero-knowledge mode: the verifier accepts the round
/// messages of an honest masked run against `H + ρ·P`, derives the
/// prover's challenges and transcript, and ends with `Π_i p_i(r) + ρ·p(r)`
/// at the challenge point `r`.
pub proof fn lemma_zk_completeness(
    polys: Seq<DenseMLPoly>,
    cs: Seq<Seq<int>>,
    rho: int,
    ms: Seq<Seq<int>>,
    log1: Seq<u8>,
    n: nat,
    l: nat,
)
    requires
        zk_honest_run(polys, cs, rho, ms, log1, n, l),
        l + 1 <= p(),
    ensures
        ({
            let chs = rounds_challenges(log1, ms);
            verify_spec(
                n,
                l,
                log1,
                ms,
                fadd(hypercube_sum(bound_tables(polys, seq![]), pow2(n)), fmul(rho, mask_sum(cs))),
            ) == (
                true,
                fadd(mle_prod(polys, chs, l), fmul(rho, mask_eval(cs, chs, n))),
                chs,
                rounds_log(log1, ms),
            )
        }),
{
    lemma_interp_defined(l + 1);
    let chs = rounds_challenges(log1, ms);
    let claim = |k: nat| zk_honest_claim(polys, cs, rho, chs, k, n);
    assert forall|j: nat| j < n implies fadd(ms[j as int][0], ms[j as int][1]) == #[trigger] claim(j) by {
        lemma_zk_step_sum(polys, cs, rho, ms, log1, n, l, j);
    }
    assert forall|j: nat| j < n implies #[trigger] interpolate(ms[j as int], chs[j as int]) == Some(claim(j + 1)) by {
        lemma_zk_step_interp(polys, cs, rho, ms, log1, n, l, j);
    }
    lemma_accept_generic(claim, ms, log1, n, l, 0);
    lemma_rounds_take(log1, ms, n);
    lemma_zk_round_chain(polys, cs, rho, chs, ms, n);
    assert((n - (n - 1) - 1) as nat == 0);
    assert((n - n) as nat == 0);
    lemma2_to64();
    assert(claim(n) == fadd(mle_prod(polys, chs, l), fmul(rho, mask_eval(cs, chs, n))));
    assert(ms.take(0) =~= seq![]);
    assert(ms.skip(0) =~= ms);
    assert(chs.take(0) =~= seq![]);
    assert(rounds_log(log1, seq![]) == log1);
}

impl SumcheckProver for ZkLinearSumcheckProver {
    type Instance = Vec<DenseMLPoly>;

    /// The inner linear prover is ready for `instances`.
    open spec fn ready(&self, instances: &Vec<DenseMLPoly>) -> bool {
        self.inner.ready(instances)
    }

    fn new(num_var: usize, num_polys: usize, transcript: &mut Transcript) -> (r: Self)
        ensures
            r.num_var == num_var,
            r.num_poly == num_polys,
            r.fresh(),
            r.inner.a_arrays.len() == 0,
            final(transcript)@ == t_append_u64(
                t_append_u64(old(transcript)@, LABEL_NUM_VAR, num_var as u64),
                LABEL_NUM_POLY,
                num_polys as u64,
            ),
    {
        transcript.append_u64(LABEL_NUM_VAR, num_var as u64);
        transcript.append_u64(LABEL_NUM_POLY, num_polys as u64);
        ZkLinearSumcheckProver {
            num_var,
            num_poly: num_polys,
            challenges: Vec::new(),
            inner: LinearSumcheckProver {
                num_var,
                num_poly: num_polys,
                a_arrays: Vec::new(),
                current_round: 0,
                challenges: Vec::new(),
            },
            mask_coeffs: Vec::new(),
            mask_at_0: Vec::new(),
            mask_at_1: Vec::new(),
            fixed_sum: Fe::zero(),
            remaining_01_sum: Fe::zero(),
            rho: Fe::zero(),
            mask_sum: Fe::zero(),
        }
    }

    /// Proves without the mask, with the inner linear prover; see
    /// `prove_zk` for the zero-knowledge proof.
    fn prove(&mut self, instances: &Vec<DenseMLPoly>, transcript: &mut Transcript) -> (proof:
        SumcheckProof)
        ensures
            final(self).num_var == old(self).num_var,
            final(self).num_poly == old(self).num_poly,
            proof.round_messages.len() == old(self).inner.num_var,
            forall|k: int|
                0 <= k < old(self).inner.num_var ==> #[trigger] proof.round_messages@[k].len()
                    == old(self).inner.num_poly + 1,
            ({
                let ms = msgs_vals(proof.round_messages@);
                let chs = rounds_challenges(old(transcript)@, ms);
                &&& final(transcript)@ == rounds_log(old(transcript)@, ms)
                &&& forall|k: int|
                    0 <= k < old(self).inner.num_var ==> #[trigger] round_msg_correct(
                        instances@,
                        chs,
                        k,
                        ms[k],
                        old(self).inner.num_var as nat,
                    )
                &&& proof.final_eval@ == mle_prod(instances@, chs, old(self).inner.num_poly as nat)
            }),
            proof.zk_mask_sum is None,
            proof.zk_mask_coeffs is None,
            proof.zk_mask_commitment is None,
            proof.zk_mask_opening_proof is None,
            proof.zk_mask_opening_point is None,
            proof.zk_mask_opening_eval is None,
    {
        self.inner.prove(instances, transcript)
    }
}

} // verus!
