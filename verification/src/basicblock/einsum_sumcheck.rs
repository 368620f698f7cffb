//! Proving and checking an einsum with one sumcheck: each input, its
//! variables reordered (free-once, free-multi, summation) and its free-once
//! variables bound to the output point, times the equality polynomial of
//! the free-multi variables, summed over the free-multi and summation
//! variables.
use crate::basicblock::einsum::{
    inverted_point, invert_points_by_ranges, last_pos, lemma_moves_bits_exactly_one, lemma_reorder_then_invert,
    moves_bits, permute_evals_by_ranges, range_order, ranges_partition, Einsum,
    broadcast_evals_by_doubling,
};
use crate::basicblock::einsum_equation::{
    all_labels_of, concat_all, count_in, einsum_helper, find_arrow, free_multi_of, free_once_of,
    input_specs_of, output_of, point_of_labels, point_of_present, range_entries, select_ranges,
    shape_views, summation_labels_of, summation_rounds, terms_fit,
};
use crate::basicblock::shape::{get_n, num_vars_of};
use crate::basicblock::einsum::{lemma_folds_blocks, lemma_folds_concat};
use crate::crypto::sumcheck::linear_prover::{hypercube_sum, poly_tables};
use crate::crypto::sumcheck::prover::{msgs_vals, rounds_challenges, SumcheckProof};
use crate::crypto::sumcheck::sumcheck_verifier::{
    lemma_rounds_take, lemma_verify_rounds_replays, verify_spec, zk_preamble_log, SumcheckVerifier,
};
use crate::crypto::sumcheck::zk_linear_prover::{
    coeffs_vals, committer_verdict, mask_checks, mask_commitment_view, mask_fields_ok, mask_shape_ok, mask_eval, mask_fields_valid, recompute_mask_eval,
    replay_mask_opening_transcript, verify_mask_consistency,
};
use crate::crypto::sumcheck::prover::{MaskCommitter, ProveContext};
use crate::crypto::sumcheck::runs::{
    copy_round_messages, run_sumcheck, run_zk_sumcheck, sumcheck_proof_ok, tables_mle_prod, zk_rounds_start,
    zk_sumcheck_proof_ok,
};
use crate::dag::{Claim, EdgeId};
use crate::util::expansion::is_order_of;
use crate::util::field::{
    cong, fadd, fmul, fsub, fvals, lemma_cong_add, lemma_cong_mod, lemma_cong_mul, lemma_cong_residues,
    lemma_cong_sub, lemma_residue, p, Fe, MODULUS,
};
use crate::util::expansion::{basis_at, bit, bit_factor, lemma_fsum_congruent, lemma_fsum_scale, lemma_mle_expansion};
use crate::util::poly::{evaluate_lagrange_basis, fold_first, folds, lagrange_single, lerp, mle, DenseMLPoly};
use crate::util::transcript::{
    t_after_challenge, t_after_challenges, t_append_u64, t_challenge, Transcript, LABEL_MASK_OPEN, LABEL_NUM_POLY,
    LABEL_NUM_VAR, LABEL_RHO,
};
use vstd::arithmetic::power2::*;
use vstd::prelude::*;

verus! {

/// The variable ranges of input `i` in the order free-once, free-multi,
/// summation label.
pub open spec fn ein_perm(eq: Seq<char>, sh: Seq<Seq<usize>>, i: int) -> Seq<(usize, usize)> {
    select_ranges(all_labels_of(eq), range_entries(input_specs_of(eq)[i], sh[i]))
}

/// The coordinates of the output point at the free-once labels of input
/// `i`.
pub open spec fn ein_fixed<T>(eq: Seq<char>, sh: Seq<Seq<usize>>, pt: Seq<T>, i: int) -> Seq<T> {
    point_of_present(
        free_once_of(eq),
        range_entries(input_specs_of(eq)[i], sh[i]),
        range_entries(output_of(eq), sh.last()),
        pt,
    )
}

/// The coordinates of the output point at the free-multi labels.
pub open spec fn ein_multi<T>(eq: Seq<char>, sh: Seq<Seq<usize>>, pt: Seq<T>) -> Seq<T> {
    point_of_labels(free_multi_of(eq), range_entries(output_of(eq), sh.last()), pt)
}

/// The number of summation variables.
pub open spec fn ein_rounds(eq: Seq<char>, sh: Seq<Seq<usize>>) -> int {
    summation_rounds(summation_labels_of(eq), input_specs_of(eq), sh, input_specs_of(eq).len()).0
}

/// The number of variables of input `i`.
pub open spec fn ein_vars(sh: Seq<Seq<usize>>, i: int) -> int {
    num_vars_of(sh[i], sh[i].len() as nat)
}

/// The table `e` of `2^n` entries with its variables reordered by
/// `order`: entry `j` is the entry `i` whose bit `order[q]` is bit `q` of
/// `j`.
pub open spec fn permuted_table(e: Seq<int>, order: Seq<int>, n: nat) -> Seq<int> {
    Seq::new(pow2(n), |j: int| e[choose|i: int| 0 <= i < pow2(n) && #[trigger] moves_bits(order, i, j)])
}

/// The equality polynomial of the free-multi point `hd`, repeated over
/// `rounds` summation variables.
pub open spec fn eq_table(hd: Seq<int>, rounds: nat) -> Seq<int> {
    Seq::new(
        pow2(hd.len()) * pow2(rounds),
        |k: int| lagrange_single(hd, (k % (pow2(hd.len()) as int)) as usize, hd.len()),
    )
}

impl Einsum {
    /// The tables the sumcheck runs on for the output point `pt`: each
    /// input reordered and with its free-once variables bound, then the
    /// equality polynomial of the free-multi coordinates.
    pub open spec fn sumcheck_tables(&self, sh: Seq<Seq<usize>>, inputs: Seq<DenseMLPoly>, pt: Seq<Fe>) -> Seq<
        Seq<int>,
    > {
        let eq = self.equation@;
        let m = input_specs_of(eq).len();
        Seq::new(
            m + 1,
            |i: int|
                if i < m {
                    folds(
                        permuted_table(inputs[i].table(), range_order(ein_perm(eq, sh, i)), ein_vars(sh, i) as nat),
                        fvals(ein_fixed(eq, sh, pt, i)),
                    )
                } else {
                    eq_table(fvals(ein_multi(eq, sh, pt)), ein_rounds(eq, sh) as nat)
                },
        )
    }

    /// Input `i` fits the equation and the output point: its shape's
    /// dimensions and variable count fit a word, its table has one entry
    /// per variable assignment, its ranges cover its variables exactly
    /// once, and its variables are its free-once ones plus the free-multi
    /// and summation ones.
    pub open spec fn input_ready(&self, sh: Seq<Seq<usize>>, inputs: Seq<DenseMLPoly>, pt: Seq<Fe>, i: int) -> bool {
        let eq = self.equation@;
        let nsum = ein_multi(eq, sh, pt).len() + ein_rounds(eq, sh);
        &&& forall|d: int| 0 <= d < sh[i].len() ==> #[trigger] sh[i][d] <= usize::MAX / 2
        &&& ein_vars(sh, i) <= usize::MAX
        &&& pow2(ein_vars(sh, i) as nat) <= usize::MAX
        &&& inputs[i].wf()
        &&& inputs[i].num_vars == ein_vars(sh, i)
        &&& ein_perm(eq, sh, i).len() > 0
        &&& ranges_partition(ein_perm(eq, sh, i), ein_vars(sh, i) as nat)
        &&& ein_vars(sh, i) == ein_fixed(eq, sh, pt, i).len() + nsum
    }

    /// The inputs fit the equation and the output point, as proving needs:
    /// the equation is well formed for the shapes (inputs then output), each
    /// input has one table entry per variable assignment, its ranges cover
    /// its variables exactly once, and its variables are its free-once ones
    /// plus the free-multi and summation ones.
    pub open spec fn prove_ready(&self, sh: Seq<Seq<usize>>, inputs: Seq<DenseMLPoly>, pt: Seq<Fe>) -> bool {
        let eq = self.equation@;
        let specs = input_specs_of(eq);
        let m = specs.len();
        let nsum = ein_multi(eq, sh, pt).len() + ein_rounds(eq, sh);
        &&& find_arrow(eq, 0) >= 0
        &&& forall|k: int| 0 <= k < output_of(eq).len() ==> count_in(concat_all(specs), #[trigger] output_of(eq)[k]) > 0
        &&& terms_fit(specs, output_of(eq), sh)
        &&& num_vars_of(sh.last(), output_of(eq).len() as nat) <= pt.len()
        &&& 0 <= ein_rounds(eq, sh) <= usize::MAX
        &&& 1 <= m
        &&& m + 1 < MODULUS
        &&& m + 1 < usize::MAX
        &&& inputs.len() >= m
        &&& pow2(nsum as nat) <= usize::MAX
        &&& forall|i: int| 0 <= i < m ==> #[trigger] self.input_ready(sh, inputs, pt, i)
    }
}

/// The reordered table is the one the reordering relation fixes.
proof fn lemma_permuted_is_table(evals: Seq<Fe>, out: Seq<Fe>, order: Seq<int>, n: nat)
    requires
        is_order_of(order, n),
        evals.len() == pow2(n),
        out.len() == pow2(n),
        forall|i: int, j: int|
            #![trigger moves_bits(order, i, j)]
            0 <= i < pow2(n) && 0 <= j < pow2(n) && moves_bits(order, i, j) ==> out[j] == evals[i],
    ensures
        fvals(out) == permuted_table(fvals(evals), order, n),
{
    let pt = permuted_table(fvals(evals), order, n);
    assert forall|j: int| 0 <= j < pow2(n) implies fvals(out)[j] == pt[j] by {
        lemma_moves_bits_exactly_one(order, n, j);
        let i = choose|i: int| 0 <= i < pow2(n) && #[trigger] moves_bits(order, i, j);
        assert(out[j] == evals[i]);
    }
    assert(fvals(out) =~= pt);
}

/// The reordered table holds residues and follows the reordering
/// relation.
proof fn lemma_permuted_facts(e: Seq<int>, order: Seq<int>, n: nat)
    requires
        is_order_of(order, n),
        e.len() == pow2(n),
        forall|k: int| 0 <= k < e.len() ==> 0 <= #[trigger] e[k] < p(),
    ensures
        permuted_table(e, order, n).len() == pow2(n),
        forall|k: int| 0 <= k < pow2(n) ==> 0 <= #[trigger] permuted_table(e, order, n)[k] < p(),
        forall|i: int, j: int|
            #![trigger moves_bits(order, i, j)]
            0 <= i < pow2(n) && 0 <= j < pow2(n) && moves_bits(order, i, j) ==> permuted_table(e, order, n)[j]
                == e[i],
{
    let ptab = permuted_table(e, order, n);
    assert forall|k: int| 0 <= k < pow2(n) implies 0 <= #[trigger] ptab[k] < p() by {
        lemma_moves_bits_exactly_one(order, n, k);
        let i = choose|i: int| 0 <= i < pow2(n) && #[trigger] moves_bits(order, i, k);
        assert(ptab[k] == e[i]);
    }
    assert forall|i: int, j: int|
        #![trigger moves_bits(order, i, j)]
        0 <= i < pow2(n) && 0 <= j < pow2(n) && moves_bits(order, i, j) implies ptab[j] == e[i] by {
        lemma_moves_bits_exactly_one(order, n, j);
        let i2 = choose|i: int| 0 <= i < pow2(n) && #[trigger] moves_bits(order, i, j);
        assert(moves_bits(order, i2, j));
    }
}

/// `a` followed by `b`.
fn fes_concat(a: &[Fe], b: &[Fe]) -> (r: Vec<Fe>)
    ensures
        r@ == a@ + b@,
{
    let mut r: Vec<Fe> = Vec::new();
    let mut i: usize = 0;
    while i < a.len()
        invariant
            i <= a.len(),
            r@ == a@.subrange(0, i as int),
        decreases a.len() - i,
    {
        r.push(a[i]);
        i = i + 1;
        assert(r@ =~= a@.subrange(0, i as int));
    }
    let mut j: usize = 0;
    while j < b.len()
        invariant
            j <= b.len(),
            r@ == a@ + b@.subrange(0, j as int),
        decreases b.len() - j,
    {
        r.push(b[j]);
        j = j + 1;
        assert(r@ =~= a@ + b@.subrange(0, j as int));
    }
    assert(a@.subrange(0, a.len() as int) =~= a@);
    assert(b@.subrange(0, b.len() as int) =~= b@);
    r
}

impl Einsum {
    /// The number of rounds of the sumcheck for the output point `pt`: the
    /// free-multi variables, then the summation ones.
    pub open spec fn sumcheck_vars(&self, sh: Seq<Seq<usize>>, pt: Seq<Fe>) -> nat {
        (ein_multi(self.equation@, sh, pt).len() + ein_rounds(self.equation@, sh)) as nat
    }

    /// The claims the prover returns on the inputs after the sumcheck drew
    /// `chs`: input `i` at its free-once coordinates followed by `chs`, put
    /// back in its own variable order, with the value of its sumcheck table
    /// at `chs`; that value is the input's extension at the claimed point.
    pub open spec fn input_claims_ok(
        &self,
        sh: Seq<Seq<usize>>,
        inputs: Seq<DenseMLPoly>,
        pt: Seq<Fe>,
        edge_ids: Seq<EdgeId>,
        chs: Seq<int>,
        claims: Seq<Claim>,
    ) -> bool {
        let eq = self.equation@;
        let m = input_specs_of(eq).len();
        let tabs = self.sumcheck_tables(sh, inputs, pt);
        &&& claims.len() == m
        &&& forall|i: int|
            0 <= i < m ==> {
                &&& (#[trigger] claims[i]).edge_id == edge_ids[i]
                &&& claims[i].sparse_id == 0
                &&& fvals(claims[i].point@) == inverted_point(
                    range_order(ein_perm(eq, sh, i)),
                    fvals(ein_fixed(eq, sh, pt, i)) + chs,
                )
                &&& claims[i].eval@ == mle(tabs[i], chs)
                &&& claims[i].eval@ == mle(inputs[i].table(), fvals(claims[i].point@))
            }
    }

    /// The reordered, partly bound inputs and the equality polynomial, as
    /// polynomials in the sumcheck's variables, with each input's ranges and
    /// bound coordinates.
    fn sumcheck_instances(&self, shapes: &[Vec<usize>], inputs: &[DenseMLPoly], point: &Vec<Fe>) -> (r: (
        Vec<Vec<(usize, usize)>>,
        Vec<Vec<Fe>>,
        Vec<DenseMLPoly>,
        usize,
    ))
        requires
            self.prove_ready(shape_views(shapes@), inputs@, point@),
        ensures
            ({
                let eq = self.equation@;
                let sh = shape_views(shapes@);
                let pt = point@;
                let m = input_specs_of(eq).len();
                let tabs = self.sumcheck_tables(sh, inputs@, pt);
                &&& r.3 == self.sumcheck_vars(sh, pt)
                &&& r.0.len() == m
                &&& r.1.len() == m
                &&& forall|j: int| 0 <= j < m ==> (#[trigger] r.0@[j])@ == ein_perm(eq, sh, j)
                &&& forall|j: int| 0 <= j < m ==> (#[trigger] r.1@[j])@ == ein_fixed(eq, sh, pt, j)
                &&& r.2.len() == m + 1
                &&& poly_tables(r.2@) == tabs
                &&& forall|j: int|
                    0 <= j < m + 1 ==> (#[trigger] r.2@[j]).table() == tabs[j] && r.2@[j].evaluations.len()
                        == pow2(r.3 as nat) && r.2@[j].num_vars == r.3
            }),
    {
        let ghost eq = self.equation@;
        let ghost sh = shape_views(shapes@);
        let ghost pt = point@;
        let ghost m = input_specs_of(eq).len();
        let ghost tabs = self.sumcheck_tables(sh, inputs@, pt);
        let (permute_vecs, degree_one_challenges, high_degree_challenge, summation_round) = einsum_helper(
            self.equation.as_str(),
            shapes,
            point.as_slice(),
        );
        let num_first_rounds = high_degree_challenge.len();
        let num_second_rounds = summation_round;
        let ghost nsum = self.sumcheck_vars(sh, pt);
        assert(num_first_rounds + num_second_rounds == nsum);
        let k = permute_vecs.len();
        let mut polys: Vec<DenseMLPoly> = Vec::new();
        let mut i: usize = 0;
        while i < k
            invariant
                k == m,
                m == input_specs_of(eq).len(),
                i <= k,
                eq == self.equation@,
                sh == shape_views(shapes@),
                shapes.len() == m + 1,
                pt == point@,
                tabs == self.sumcheck_tables(sh, inputs@, pt),
                self.prove_ready(sh, inputs@, pt),
                nsum == self.sumcheck_vars(sh, pt),
                ein_rounds(eq, sh) == num_second_rounds,
                ein_multi(eq, sh, pt).len() == num_first_rounds,
                permute_vecs.len() == m,
                degree_one_challenges.len() == m,
                forall|j: int| 0 <= j < m ==> (#[trigger] permute_vecs@[j])@ == ein_perm(eq, sh, j),
                forall|j: int| 0 <= j < m ==> (#[trigger] degree_one_challenges@[j])@ == ein_fixed(eq, sh, pt, j),
                polys.len() == i,
                forall|j: int|
                    0 <= j < i ==> (#[trigger] polys@[j]).table() == tabs[j] && polys@[j].evaluations.len()
                        == pow2(nsum) && polys@[j].num_vars == nsum,
            decreases k - i,
        {
            assert(self.input_ready(sh, inputs@, pt, i as int));
            assert(sh[i as int] == shapes@[i as int]@);
            let n = get_n(shapes[i].as_slice());
            let permuted = permute_evals_by_ranges(
                inputs[i].evaluations.as_slice(),
                n,
                permute_vecs[i].as_slice(),
            );
            let poly = DenseMLPoly::new(n, permuted);
            let fixed = poly.fix_variables(degree_one_challenges[i].as_slice());
            proof {
                let order = range_order(ein_perm(eq, sh, i as int));
                lemma_permuted_is_table(inputs@[i as int].evaluations@, permuted@, order, n as nat);
                assert(fvals(degree_one_challenges@[i as int]@) == fvals(ein_fixed(eq, sh, pt, i as int)));
                assert(fixed.table() == tabs[i as int]);
            }
            polys.push(fixed);
            i = i + 1;
        }
        proof {
            crate::util::poly::lemma_log_below_bits(nsum);
            lemma_pow2_adds(num_first_rounds as nat, num_second_rounds as nat);
            lemma_pow2_pos(num_second_rounds as nat);
            assert(pow2(num_first_rounds as nat) <= pow2(nsum)) by (nonlinear_arith)
                requires
                    pow2(nsum) == pow2(num_first_rounds as nat) * pow2(num_second_rounds as nat),
                    pow2(num_second_rounds as nat) >= 1,
                    pow2(num_first_rounds as nat) >= 0,
            ;
        }
        let eq_poly_evals = evaluate_lagrange_basis(high_degree_challenge.as_slice());
        let eq_poly_evals = broadcast_evals_by_doubling(eq_poly_evals.as_slice(), num_second_rounds);
        let eq_poly = DenseMLPoly::new(num_first_rounds + num_second_rounds, eq_poly_evals);
        proof {
            let et = eq_table(fvals(ein_multi(eq, sh, pt)), num_second_rounds as nat);
            assert(fvals(high_degree_challenge@) == fvals(ein_multi(eq, sh, pt)));
            lemma_pow2_pos(num_first_rounds as nat);
            assert(eq_poly.table() =~= et);
            assert(et == tabs[m as int]);
        }
        polys.push(eq_poly);
        proof {
            assert(poly_tables(polys@) =~= tabs);
        }
        (permute_vecs, degree_one_challenges, polys, num_first_rounds + num_second_rounds)
    }

    /// The claims on the inputs after the sumcheck drew `challenges`.
    fn claims_on_inputs(
        &self,
        shapes: &[Vec<usize>],
        inputs: &[DenseMLPoly],
        point: &Vec<Fe>,
        edge_ids: &[EdgeId],
        permute_vecs: &Vec<Vec<(usize, usize)>>,
        degree_one_challenges: &Vec<Vec<Fe>>,
        polys: &Vec<DenseMLPoly>,
        challenges: &Vec<Fe>,
    ) -> (claims: Vec<Claim>)
        requires
            self.prove_ready(shape_views(shapes@), inputs@, point@),
            edge_ids.len() >= input_specs_of(self.equation@).len(),
            ({
                let eq = self.equation@;
                let sh = shape_views(shapes@);
                let pt = point@;
                let m = input_specs_of(eq).len();
                let tabs = self.sumcheck_tables(sh, inputs@, pt);
                let nsum = self.sumcheck_vars(sh, pt);
                &&& challenges.len() == nsum
                &&& permute_vecs.len() == m
                &&& degree_one_challenges.len() == m
                &&& forall|j: int| 0 <= j < m ==> (#[trigger] permute_vecs@[j])@ == ein_perm(eq, sh, j)
                &&& forall|j: int| 0 <= j < m ==> (#[trigger] degree_one_challenges@[j])@ == ein_fixed(eq, sh, pt, j)
                &&& polys.len() == m + 1
                &&& forall|j: int|
                    0 <= j < m + 1 ==> (#[trigger] polys@[j]).table() == tabs[j] && polys@[j].evaluations.len()
                        == pow2(nsum) && polys@[j].num_vars == nsum
            }),
        ensures
            self.input_claims_ok(shape_views(shapes@), inputs@, point@, edge_ids@, fvals(challenges@), claims@),
    {
        let ghost eq = self.equation@;
        let ghost sh = shape_views(shapes@);
        let ghost pt = point@;
        let ghost m = input_specs_of(eq).len();
        let ghost tabs = self.sumcheck_tables(sh, inputs@, pt);
        let ghost nsum = self.sumcheck_vars(sh, pt);
        let ghost chs = fvals(challenges@);
        let k = permute_vecs.len();
        let mut claims: Vec<Claim> = Vec::new();
        let mut i: usize = 0;
        while i < k
            invariant
                k == m,
                m == input_specs_of(eq).len(),
                i <= k,
                eq == self.equation@,
                sh == shape_views(shapes@),
                pt == point@,
                tabs == self.sumcheck_tables(sh, inputs@, pt),
                self.prove_ready(sh, inputs@, pt),
                nsum == self.sumcheck_vars(sh, pt),
                edge_ids.len() >= m,
                challenges.len() == nsum,
                chs == fvals(challenges@),
                permute_vecs.len() == m,
                degree_one_challenges.len() == m,
                forall|j: int| 0 <= j < m ==> (#[trigger] permute_vecs@[j])@ == ein_perm(eq, sh, j),
                forall|j: int| 0 <= j < m ==> (#[trigger] degree_one_challenges@[j])@ == ein_fixed(eq, sh, pt, j),
                polys.len() == m + 1,
                forall|j: int|
                    0 <= j < m + 1 ==> (#[trigger] polys@[j]).table() == tabs[j] && polys@[j].evaluations.len()
                        == pow2(nsum) && polys@[j].num_vars == nsum,
                claims.len() == i,
                forall|j: int|
                    0 <= j < i ==> {
                        &&& (#[trigger] claims@[j]).edge_id == edge_ids@[j]
                        &&& claims@[j].sparse_id == 0
                        &&& fvals(claims@[j].point@) == inverted_point(
                            range_order(ein_perm(eq, sh, j)),
                            fvals(ein_fixed(eq, sh, pt, j)) + chs,
                        )
                        &&& claims@[j].eval@ == mle(tabs[j], chs)
                        &&& claims@[j].eval@ == mle(inputs@[j].table(), fvals(claims@[j].point@))
                    },
            decreases k - i,
        {
            let point_perm = fes_concat(degree_one_challenges[i].as_slice(), challenges.as_slice());
            let ghost order = range_order(ein_perm(eq, sh, i as int));
            let ghost nv = ein_vars(sh, i as int) as nat;
            proof {
                assert(self.input_ready(sh, inputs@, pt, i as int));
                assert(point_perm.len() == nv);
            }
            let claim_point = invert_points_by_ranges(point_perm.as_slice(), permute_vecs[i].as_slice());
            let eval = polys[i].evaluate_at_point(challenges.as_slice());
            proof {
                let y = fvals(point_perm@);
                assert(y =~= fvals(ein_fixed(eq, sh, pt, i as int)) + chs);
                assert(order.len() == nv);
                assert forall|v: int| 0 <= v < nv implies fvals(claim_point@)[v] == inverted_point(order, y)[v] by {
                    crate::basicblock::einsum::lemma_last_pos(order, v);
                    assert(claim_point@[v] == point_perm@[last_pos(order, v)]);
                }
                assert(fvals(claim_point@) =~= inverted_point(order, y));
                // the claim is the input's value at the claimed point
                let ptab = permuted_table(inputs@[i as int].table(), order, nv);
                lemma_folds_concat(ptab, fvals(ein_fixed(eq, sh, pt, i as int)), chs);
                assert(mle(tabs[i as int], chs) == mle(ptab, y));
                lemma_permuted_facts(inputs@[i as int].table(), order, nv);
                lemma_reorder_then_invert(inputs@[i as int].table(), ptab, order, nv, y);
            }
            claims.push(Claim { edge_id: edge_ids[i], sparse_id: 0, point: claim_point, eval });
            i = i + 1;
        }
        claims
    }

    /// Reduces the claim on the output at `out_claims[0].point` to one claim
    /// per input: reorders each input's variables (free-once, free-multi,
    /// summation), binds its free-once variables to the output point, runs
    /// the sumcheck on the product of these tables and the equality
    /// polynomial of the free-multi coordinates over the free-multi and
    /// summation variables, and claims each input's value at its bound
    /// coordinates followed by the challenges, in its own variable order.
    /// `shapes` holds the shapes of the inputs and then the output's.
    pub fn prove(
        &self,
        shapes: &[Vec<usize>],
        inputs: &[DenseMLPoly],
        edge_ids: &[EdgeId],
        out_claims: &[Claim],
        transcript: &mut Transcript,
    ) -> (r: (Vec<SumcheckProof>, Vec<Claim>))
        requires
            out_claims.len() == 1,
            self.prove_ready(shape_views(shapes@), inputs@, out_claims[0].point@),
            edge_ids.len() >= input_specs_of(self.equation@).len(),
        ensures
            r.0.len() == 1,
            ({
                let sh = shape_views(shapes@);
                let pt = out_claims[0].point@;
                let m = input_specs_of(self.equation@).len();
                let n = self.sumcheck_vars(sh, pt);
                let log1 = t_append_u64(
                    t_append_u64(old(transcript)@, LABEL_NUM_VAR, n as u64),
                    LABEL_NUM_POLY,
                    (m + 1) as u64,
                );
                let chs = rounds_challenges(log1, msgs_vals(r.0[0].round_messages@));
                &&& sumcheck_proof_ok(self.sumcheck_tables(sh, inputs@, pt), r.0[0], log1, n, final(transcript)@)
                &&& self.input_claims_ok(sh, inputs@, pt, edge_ids@, chs, r.1@)
            }),
    {
        let point = &out_claims[0].point;
        let (permute_vecs, degree_one_challenges, polys, nsum) = self.sumcheck_instances(shapes, inputs, point);
        let (sumcheck_proof, challenges) = run_sumcheck(nsum, &polys, transcript);
        let claims = self.claims_on_inputs(
            shapes,
            inputs,
            point,
            edge_ids,
            &permute_vecs,
            &degree_one_challenges,
            &polys,
            &challenges,
        );
        (vec![sumcheck_proof], claims)
    }

    /// `prove` in zero-knowledge mode when `ctx.zk` is set (the sumcheck
    /// masks its rounds), otherwise `prove`.
    pub fn prove_zk<C: MaskCommitter>(
        &self,
        shapes: &[Vec<usize>],
        inputs: &[DenseMLPoly],
        edge_ids: &[EdgeId],
        out_claims: &[Claim],
        transcript: &mut Transcript,
        ctx: &mut ProveContext<C>,
    ) -> (r: (Vec<SumcheckProof>, Vec<Claim>))
        requires
            out_claims.len() == 1,
            self.prove_ready(shape_views(shapes@), inputs@, out_claims[0].point@),
            edge_ids.len() >= input_specs_of(self.equation@).len(),
            old(ctx).zk ==> {
                let n = self.sumcheck_vars(shape_views(shapes@), out_claims[0].point@);
                &&& 1 <= n <= 64
                &&& n * (input_specs_of(self.equation@).len() + 2) <= usize::MAX / 2
            },
        ensures
            *final(ctx) == *old(ctx),
            r.0.len() == 1,
            ({
                let sh = shape_views(shapes@);
                let pt = out_claims[0].point@;
                let m = input_specs_of(self.equation@).len();
                let n = self.sumcheck_vars(sh, pt);
                let tabs = self.sumcheck_tables(sh, inputs@, pt);
                let log1 = t_append_u64(
                    t_append_u64(old(transcript)@, LABEL_NUM_VAR, n as u64),
                    LABEL_NUM_POLY,
                    (m + 1) as u64,
                );
                let ms = msgs_vals(r.0[0].round_messages@);
                &&& !old(ctx).zk ==> {
                    &&& sumcheck_proof_ok(tabs, r.0[0], log1, n, final(transcript)@)
                    &&& self.input_claims_ok(sh, inputs@, pt, edge_ids@, rounds_challenges(log1, ms), r.1@)
                }
                &&& old(ctx).zk ==> {
                    &&& zk_sumcheck_proof_ok(tabs, r.0[0], log1, n, old(ctx).mask_committer is Some, final(transcript)@)
                    &&& self.input_claims_ok(
                        sh,
                        inputs@,
                        pt,
                        edge_ids@,
                        rounds_challenges(zk_rounds_start(r.0[0], log1), ms),
                        r.1@,
                    )
                }
            }),
    {
        if !ctx.zk {
            return self.prove(shapes, inputs, edge_ids, out_claims, transcript);
        }
        let point = &out_claims[0].point;
        let (permute_vecs, degree_one_challenges, polys, nsum) = self.sumcheck_instances(shapes, inputs, point);
        let (sumcheck_proof, challenges) = run_zk_sumcheck(nsum, &polys, transcript, ctx);
        let claims = self.claims_on_inputs(
            shapes,
            inputs,
            point,
            edge_ids,
            &permute_vecs,
            &degree_one_challenges,
            &polys,
            &challenges,
        );
        (vec![sumcheck_proof], claims)
    }
}

/// `Π_{j<k} (r_j · hd_j + (1 - r_j) · (1 - hd_j))`: the equality
/// polynomial of `hd` at `r`, over the first `k` coordinates.
pub open spec fn eq_at(hd: Seq<int>, r: Seq<int>, k: nat) -> int
    decreases k,
{
    if k == 0 {
        1
    } else {
        let j = k - 1;
        fmul(eq_at(hd, r, (k - 1) as nat), fadd(fmul(r[j], hd[j]), fmul(fsub(1, r[j]), fsub(1, hd[j]))))
    }
}

/// `Π_{i<k} claims[i].eval`.
pub open spec fn claims_product(claims: Seq<Claim>, k: nat) -> int
    decreases k,
{
    if k == 0 {
        1
    } else {
        fmul(claims_product(claims, (k - 1) as nat), claims[k - 1].eval@)
    }
}

/// The product of the claims' values.
fn product_of_claims(claims: &[Claim], k: usize) -> (r: Fe)
    requires
        k <= claims.len(),
    ensures
        r@ == claims_product(claims@, k as nat),
{
    let mut acc = Fe::one();
    let mut i: usize = 0;
    while i < k
        invariant
            i <= k,
            k <= claims.len(),
            acc@ == claims_product(claims@, i as nat),
        decreases k - i,
    {
        acc = acc.mul(&claims[i].eval);
        i = i + 1;
    }
    acc
}

/// The equality polynomial of `hd` at the first `hd.len()` coordinates of
/// `r`.
fn eq_poly_at(hd: &[Fe], r: &[Fe]) -> (v: Fe)
    requires
        hd.len() <= r.len(),
    ensures
        v@ == eq_at(fvals(hd@), fvals(r@), hd.len() as nat),
{
    let one = Fe::one();
    let mut acc = one;
    let mut j: usize = 0;
    while j < hd.len()
        invariant
            j <= hd.len(),
            hd.len() <= r.len(),
            one@ == 1,
            acc@ == eq_at(fvals(hd@), fvals(r@), j as nat),
        decreases hd.len() - j,
    {
        let rj = r[j];
        let hj = hd[j];
        let term = rj.mul(&hj).add(&one.sub(&rj).mul(&one.sub(&hj)));
        acc = acc.mul(&term);
        proof {
            assert(fvals(r@)[j as int] == rj@);
            assert(fvals(hd@)[j as int] == hj@);
        }
        j = j + 1;
    }
    acc
}

impl Einsum {
    /// The equation is well formed for the shapes (inputs then output) and
    /// the output point, as reading its index structure needs.
    pub open spec fn verify_ready(&self, sh: Seq<Seq<usize>>, pt: Seq<Fe>) -> bool {
        let eq = self.equation@;
        let specs = input_specs_of(eq);
        &&& find_arrow(eq, 0) >= 0
        &&& forall|k: int| 0 <= k < output_of(eq).len() ==> count_in(concat_all(specs), #[trigger] output_of(eq)[k]) > 0
        &&& terms_fit(specs, output_of(eq), sh)
        &&& num_vars_of(sh.last(), output_of(eq).len() as nat) <= pt.len()
        &&& 0 <= ein_rounds(eq, sh) <= usize::MAX
        &&& ein_multi(eq, sh, pt).len() + ein_rounds(eq, sh) <= usize::MAX
    }

    /// Checks the sumcheck proof of this block: its rounds against the
    /// output claim (the last of `claims`), and its final value against the
    /// equality polynomial of the free-multi coordinates at the first
    /// challenges times the product of the claims on the inputs (the
    /// others).
    pub fn verify(&self, shapes: &[Vec<usize>], claims: &[Claim], sumcheck_proofs: &[SumcheckProof], transcript: &mut Transcript) -> (ok: bool)
        requires
            claims.len() >= 1,
            claims.len() + 1 < MODULUS,
            claims.len() < usize::MAX,
            sumcheck_proofs.len() >= 1,
            self.verify_ready(shape_views(shapes@), claims[claims.len() - 1].point@),
        ensures
            ({
                let sh = shape_views(shapes@);
                let pt = claims[claims.len() - 1].point@;
                let hd = ein_multi(self.equation@, sh, pt);
                let n = self.sumcheck_vars(sh, pt);
                let log1 = t_append_u64(
                    t_append_u64(old(transcript)@, LABEL_NUM_VAR, n as u64),
                    LABEL_NUM_POLY,
                    claims.len() as u64,
                );
                let out = verify_spec(
                    n,
                    claims.len() as nat,
                    log1,
                    msgs_vals(sumcheck_proofs[0].round_messages@),
                    claims[claims.len() - 1].eval@,
                );
                &&& final(transcript)@ == out.3
                &&& ok == (out.0 && out.1 == fmul(
                    eq_at(fvals(hd), out.2, hd.len()),
                    claims_product(claims@, (claims.len() - 1) as nat),
                ))
            }),
    {
        let ghost sh = shape_views(shapes@);
        let out_claim = &claims[claims.len() - 1];
        let ghost pt = out_claim.point@;
        let (_, _, high_degree_challenge, summation_round) = einsum_helper(
            self.equation.as_str(),
            shapes,
            out_claim.point.as_slice(),
        );
        let num_first_rounds = high_degree_challenge.len();
        let num_second_rounds = summation_round;
        let mut verifier = SumcheckVerifier::new(num_first_rounds + num_second_rounds, claims.len(), transcript);
        let ghost log1 = transcript@;
        let expected_sum = out_claim.eval;
        let msgs = copy_round_messages(&sumcheck_proofs[0].round_messages);
        let (verification_result, challenges) = verifier.verify(transcript, msgs, expected_sum);
        let running_sum = match verification_result {
            Some(v) => v,
            None => {
                return false;
            },
        };
        proof {
            let ms = msgs_vals(sumcheck_proofs[0].round_messages@);
            lemma_verify_rounds_replays(claims.len() as nat, log1, ms, expected_sum@, seq![], log1, seq![]);
            assert(seq![] + ms =~= ms);
            lemma_rounds_take(log1, ms, 0);
            assert(challenges.len() == fvals(challenges@).len());
        }
        let eq_eval = eq_poly_at(high_degree_challenge.as_slice(), challenges.as_slice());
        let product_eval = product_of_claims(claims, claims.len() - 1);
        let expected = eq_eval.mul(&product_eval);
        running_sum.equals(&expected)
    }

    /// `verify` in zero-knowledge mode when `ctx.zk` is set: the rounds are
    /// checked against the output claim plus `ρ` times the mask sum, the
    /// final value against the equality polynomial times the product of
    /// the input claims plus `ρ` times the mask at the challenges, then the
    /// mask itself is checked and the mask-opening challenges are drawn
    /// again; otherwise `verify`.
    pub fn verify_zk<C: MaskCommitter>(
        &self,
        shapes: &[Vec<usize>],
        claims: &[Claim],
        sumcheck_proofs: &[SumcheckProof],
        transcript: &mut Transcript,
        ctx: &ProveContext<C>,
    ) -> (ok: bool)
        requires
            claims.len() >= 1,
            claims.len() + 1 < MODULUS,
            claims.len() < usize::MAX,
            sumcheck_proofs.len() >= 1,
            self.verify_ready(shape_views(shapes@), claims[claims.len() - 1].point@),
        ensures
            ({
                let sh = shape_views(shapes@);
                let pt = claims[claims.len() - 1].point@;
                let hd = ein_multi(self.equation@, sh, pt);
                let n = self.sumcheck_vars(sh, pt);
                let log1 = t_append_u64(
                    t_append_u64(old(transcript)@, LABEL_NUM_VAR, n as u64),
                    LABEL_NUM_POLY,
                    claims.len() as u64,
                );
                let prod = claims_product(claims@, (claims.len() - 1) as nat);
                let proof = sumcheck_proofs[0];
                &&& !ctx.zk ==> ({
                    let out = verify_spec(n, claims.len() as nat, log1, msgs_vals(proof.round_messages@), claims[claims.len() - 1].eval@);
                    &&& final(transcript)@ == out.3
                    &&& ok == (out.0 && out.1 == fmul(eq_at(fvals(hd), out.2, hd.len()), prod))
                })
                &&& ctx.zk ==> ({
                    let sm = proof.zk_mask_sum->0@;
                    let pre = zk_preamble_log(log1, mask_commitment_view(proof), sm);
                    let rho = t_challenge(pre, LABEL_RHO);
                    let out = verify_spec(
                        n,
                        claims.len() as nat,
                        t_after_challenge(pre, LABEL_RHO),
                        msgs_vals(proof.round_messages@),
                        fadd(claims[claims.len() - 1].eval@, fmul(rho, sm)),
                    );
                    let mask_term = match proof.zk_mask_coeffs {
                        Some(c) => mask_eval(coeffs_vals(c@), out.2, c.len() as nat),
                        None => 0,
                    };
                    let passes = proof.zk_mask_sum is Some && mask_shape_ok(proof, n) && out.0 && out.1 == fadd(
                        fmul(eq_at(fvals(hd), out.2, hd.len()), prod),
                        fmul(rho, mask_term),
                    ) && (proof.zk_mask_coeffs is Some ==> mask_checks(proof) && committer_verdict(
                        proof,
                        ctx.mask_committer,
                    ));
                    &&& ok == passes
                    &&& proof.zk_mask_sum is None || !mask_shape_ok(proof, n) ==> final(transcript)@ == log1
                    &&& proof.zk_mask_sum is Some && mask_shape_ok(proof, n) && !ok ==> final(transcript)@ == out.3
                    &&& ok ==> final(transcript)@ == t_after_challenges(
                        out.3,
                        LABEL_MASK_OPEN,
                        match proof.zk_mask_opening_point {
                            Some(p) => p.len() as nat,
                            None => 0,
                        },
                    )
                })
            }),
    {
        if !ctx.zk {
            return self.verify(shapes, claims, sumcheck_proofs, transcript);
        }
        let out_claim = &claims[claims.len() - 1];
        let (_, _, high_degree_challenge, summation_round) = einsum_helper(
            self.equation.as_str(),
            shapes,
            out_claim.point.as_slice(),
        );
        let num_first_rounds = high_degree_challenge.len();
        let num_second_rounds = summation_round;
        let mut verifier = SumcheckVerifier::new(num_first_rounds + num_second_rounds, claims.len(), transcript);
        let ghost log1 = transcript@;
        let expected_sum = out_claim.eval;
        let mask_sum = match sumcheck_proofs[0].zk_mask_sum {
            Some(v) => v,
            None => {
                return false;
            },
        };
        let shape_ok = match &sumcheck_proofs[0].zk_mask_coeffs {
            Some(c) => mask_fields_ok(c, num_first_rounds + num_second_rounds),
            None => true,
        };
        if !shape_ok {
            return false;
        }
        let msgs = copy_round_messages(&sumcheck_proofs[0].round_messages);
        let commitment: Option<&[u8]> = match &sumcheck_proofs[0].zk_mask_commitment {
            Some(c) => Some(c.as_slice()),
            None => None,
        };
        let (verification_result, challenges, rho) = verifier.verify_zk(
            transcript,
            msgs,
            expected_sum,
            mask_sum,
            commitment,
        );
        let running_sum = match verification_result {
            Some(v) => v,
            None => {
                return false;
            },
        };
        proof {
            let l = t_after_challenge(
                zk_preamble_log(log1, mask_commitment_view(sumcheck_proofs[0]), mask_sum@),
                LABEL_RHO,
            );
            let ms = msgs_vals(sumcheck_proofs[0].round_messages@);
            let adjusted = fadd(expected_sum@, fmul(rho@, mask_sum@));
            lemma_verify_rounds_replays(claims.len() as nat, l, ms, adjusted, seq![], l, seq![]);
            assert(seq![] + ms =~= ms);
            lemma_rounds_take(l, ms, 0);
            assert(challenges.len() == fvals(challenges@).len());
        }
        let eq_eval = eq_poly_at(high_degree_challenge.as_slice(), challenges.as_slice());
        let product_eval = product_of_claims(claims, claims.len() - 1);
        let mask_eval_val = match &sumcheck_proofs[0].zk_mask_coeffs {
            Some(mask_coeffs) => recompute_mask_eval(mask_coeffs.as_slice(), challenges.as_slice()),
            None => Fe::zero(),
        };
        let expected = eq_eval.mul(&product_eval).add(&rho.mul(&mask_eval_val));
        if !running_sum.equals(&expected) {
            return false;
        }
        let committer: Option<&C> = match &ctx.mask_committer {
            Some(c) => Some(c),
            None => None,
        };
        if !verify_mask_consistency(&sumcheck_proofs[0], committer) {
            return false;
        }
        replay_mask_opening_transcript(&sumcheck_proofs[0], transcript);
        true
    }
}

/// The basis polynomial reads only the bits below its variable count.
proof fn lemma_basis_low_bits(x: Seq<int>, i1: int, i2: int, n: nat)
    requires
        forall|v: int| 0 <= v < n ==> #[trigger] bit(i1, v) == bit(i2, v),
    ensures
        basis_at(x, i1, n) == basis_at(x, i2, n),
    decreases n,
{
    if n > 0 {
        lemma_basis_low_bits(x, i1, i2, (n - 1) as nat);
        assert(bit(i1, n - 1) == bit(i2, n - 1));
    }
}

/// The multilinear extension of a table scaled by `c` is the extension
/// scaled by `c`.
proof fn lemma_mle_scaled(t: Seq<int>, c: int, x: Seq<int>, n: nat)
    requires
        t.len() == pow2(n),
        x.len() == n,
        forall|k: int| 0 <= k < t.len() ==> 0 <= #[trigger] t[k] < p(),
    ensures
        mle(Seq::new(pow2(n), |k: int| fmul(t[k], c)), x) == fmul(mle(t, x), c),
{
    let s = Seq::new(pow2(n), |k: int| fmul(t[k], c));
    assert forall|k: int| 0 <= k < s.len() implies 0 <= #[trigger] s[k] < p() by {
        lemma_residue(t[k] * c);
    }
    lemma_mle_expansion(t, x, n);
    lemma_mle_expansion(s, x, n);
    let g = |k: int| fmul(t[k], basis_at(x, k, n));
    lemma_fsum_scale(g, c, pow2(n));
    let gs = |k: int| fmul(g(k), c);
    let hs = |k: int| fmul(s[k], basis_at(x, k, n));
    assert forall|k: int| 0 <= k < pow2(n) implies cong(#[trigger] gs(k), hs(k)) by {
        lemma_fmul_swap_last_e(t[k], basis_at(x, k, n), c);
    }
    lemma_fsum_congruent(gs, hs, pow2(n));
}

/// `(a · b) · c = (a · c) · b` in the field.
proof fn lemma_fmul_swap_last_e(a: int, b: int, c: int)
    ensures
        fmul(fmul(a, b), c) == fmul(fmul(a, c), b),
{
    lemma_cong_mod(a * b);
    lemma_cong_mod(a * c);
    lemma_cong_mul((a * b) % p(), c, a * b, c);
    lemma_cong_mul((a * c) % p(), b, a * c, b);
    assert((a * b) * c == (a * c) * b) by (nonlinear_arith);
    lemma_residue(((a * b) % p()) * c);
    lemma_residue(((a * c) % p()) * b);
    lemma_cong_mod(((a * b) % p()) * c);
    lemma_cong_mod(((a * c) % p()) * b);
    lemma_cong_residues(fmul(fmul(a, b), c), fmul(fmul(a, c), b));
}

/// Binding variables of a table whose entries all equal the residue `c`
/// leaves entries equal to `c`.
pub(crate) proof fn lemma_folds_constant(t: Seq<int>, c: int, rs: Seq<int>)
    requires
        0 <= c < p(),
        forall|k: int| 0 <= k < t.len() ==> #[trigger] t[k] == c,
    ensures
        forall|k: int| 0 <= k < folds(t, rs).len() ==> #[trigger] folds(t, rs)[k] == c,
    decreases rs.len(),
{
    if rs.len() > 0 {
        lemma_folds_constant(t, c, rs.drop_last());
        let f = folds(t, rs.drop_last());
        assert forall|k: int| 0 <= k < folds(t, rs).len() implies #[trigger] folds(t, rs)[k] == c by {
            assert(f[2 * k] == c && f[2 * k + 1] == c);
            vstd::arithmetic::div_mod::lemma_small_mod(0, p() as nat);
            assert(fsub(c, c) == 0);
            assert(fmul(rs.last(), 0) == 0);
            vstd::arithmetic::div_mod::lemma_small_mod(c as nat, p() as nat);
        }
    }
}

/// One step of the equality polynomial: binding the last variable of the
/// two scaled halves `E · (1 - h)` and `E · h` to `r` gives
/// `E · (r · h + (1 - r) · (1 - h))`.
proof fn lemma_eq_step(e: int, h: int, r: int)
    ensures
        lerp(fmul(e, 1 - h), fmul(e, h), r) == fmul(e, fadd(fmul(r, h), fmul(fsub(1, r), fsub(1, h)))),
{
    let a = fmul(e, 1 - h);
    let b = fmul(e, h);
    let ea = e * (1 - h);
    let eb = e * h;
    lemma_cong_mod(ea);
    lemma_cong_mod(eb);
    let d = fsub(b, a);
    lemma_cong_mod(b - a);
    lemma_cong_sub(b, a, eb, ea);
    let m = fmul(r, d);
    lemma_cong_mod(r * d);
    lemma_cong_mul(r, d, r, eb - ea);
    lemma_cong_mod(a + m);
    lemma_cong_add(a, m, ea, r * (eb - ea));
    let lhs_int = ea + r * (eb - ea);
    // right side
    let rh = fmul(r, h);
    let omr = fsub(1, r);
    let omh = fsub(1, h);
    lemma_cong_mod(r * h);
    lemma_cong_mod(1 - r);
    lemma_cong_mod(1 - h);
    let q = fmul(omr, omh);
    lemma_cong_mod(omr * omh);
    lemma_cong_mul(omr, omh, 1 - r, 1 - h);
    let s = fadd(rh, q);
    lemma_cong_mod(rh + q);
    lemma_cong_add(rh, q, r * h, (1 - r) * (1 - h));
    lemma_cong_mod(e * s);
    lemma_cong_mul(e, s, e, r * h + (1 - r) * (1 - h));
    let rhs_int = e * (r * h + (1 - r) * (1 - h));
    assert(lhs_int == rhs_int) by (nonlinear_arith)
        requires
            lhs_int == ea + r * (eb - ea),
            ea == e * (1 - h),
            eb == e * h,
            rhs_int == e * (r * h + (1 - r) * (1 - h)),
    ;
    lemma_residue(a + m);
    lemma_residue(e * s);
    lemma_cong_residues(lerp(a, b, r), fmul(e, s));
}

/// The multilinear extension of the basis table of `hd` (entry `a` is the
/// basis polynomial of corner `a` at `hd`) at `x` is the equality
/// polynomial of `hd` and `x`, over the first `k` coordinates.
proof fn lemma_basis_table_mle(hd: Seq<int>, x: Seq<int>, k: nat)
    requires
        k <= hd.len(),
        k <= x.len(),
    ensures
        mle(Seq::new(pow2(k), |a: int| basis_at(hd, a, k)), x.take(k as int)) == eq_at(hd, x, k),
    decreases k,
{
    let t = Seq::new(pow2(k), |a: int| basis_at(hd, a, k));
    lemma2_to64();
    if k == 0 {
        assert(x.take(0) =~= Seq::<int>::empty());
        assert(folds(t, x.take(0)) == t);
    } else {
        let km = (k - 1) as nat;
        lemma_basis_table_mle(hd, x, km);
        let tm = Seq::new(pow2(km), |a: int| basis_at(hd, a, km));
        let half = pow2(km) as int;
        lemma_pow2_unfold(k);
        lemma_pow2_pos(km);
        assert forall|a: int| 0 <= a < tm.len() implies 0 <= #[trigger] tm[a] < p() by {
            crate::basicblock::spmv::lemma_basis_residue(hd, a, km);
        }
        let xm = x.take(km as int);
        assert((k - km) as nat == 1);
        assert(pow2(1) == 2);
        let em = eq_at(hd, x, km);
        // the two halves of the table are scaled copies of the smaller one
        assert forall|b: int| 0 <= b < 2 implies #[trigger] folds(t, xm)[b] == fmul(
            em,
            bit_factor(b, hd[km as int]),
        ) by {
            lemma_folds_blocks(t, xm, k, b);
            assert(b * half == 0 || b * half == half) by (nonlinear_arith)
                requires
                    0 <= b < 2,
            ;
            assert((b + 1) * half == b * half + half) by (nonlinear_arith);
            let blk = t.subrange(b * half, (b + 1) * half);
            let fb = bit_factor(b, hd[km as int]);
            let scaled = Seq::new(pow2(km), |a: int| fmul(tm[a], fb));
            assert(blk =~= scaled) by {
                assert forall|a: int| 0 <= a < half implies blk[a] == scaled[a] by {
                    assert(blk[a] == t[a + b * half]);
                    crate::basicblock::spmv::lemma_bits_split(a, b, km, 0);
                    assert forall|v: int| 0 <= v < km implies #[trigger] bit(a + b * half, v) == bit(a, v) by {
                        crate::basicblock::spmv::lemma_bits_split(a, b, km, v as nat);
                    }
                    lemma_basis_low_bits(hd, a + b * half, a, km);
                    assert(bit(b, 0) == b) by {
                        assert(pow2(0) == 1);
                        assert(b / 1 == b);
                    }
                    assert((km + 0) as int == km as int);
                }
            }
            lemma_mle_scaled(tm, fb, xm, km);
            assert(xm.take(km as int) =~= xm);
            lemma_fmul_comm_e(em, fb);
        }
        crate::util::poly::lemma_folds_push(t, x, km as int);
        let f = folds(t, xm);
        crate::util::poly::lemma_folds_len(t, xm, k);
        assert(f.len() == 2);
        assert(folds(t, x.take(k as int)) == fold_first(f, x[km as int]));
        assert(fold_first(f, x[km as int])[0] == lerp(f[0], f[1], x[km as int]));
        lemma_eq_step(em, hd[km as int], x[km as int]);
        assert(f[0] == fmul(em, 1 - hd[km as int]));
        assert(f[1] == fmul(em, hd[km as int]));
        lemma_folds_blocks(t, x.take(k as int), k, 0);
    }
}

proof fn lemma_fmul_comm_e(a: int, b: int)
    ensures
        fmul(a, b) == fmul(b, a),
{
    assert(a * b == b * a) by (nonlinear_arith);
}

/// The equality polynomial over the first `k` coordinates is a residue.
proof fn lemma_eq_at_residue(hd: Seq<int>, x: Seq<int>, k: nat)
    ensures
        0 <= eq_at(hd, x, k) < p(),
{
    if k > 0 {
        lemma_residue(
            eq_at(hd, x, (k - 1) as nat) * fadd(
                fmul(x[k - 1], hd[k - 1]),
                fmul(fsub(1, x[k - 1]), fsub(1, hd[k - 1])),
            ),
        );
    }
}

/// The extension of the repeated equality table of `hd` at `x` is the
/// equality polynomial of `hd` and the first `hd.len()` coordinates of
/// `x`: the repeated variables do not change it.
proof fn lemma_eq_table_mle(hd: Seq<int>, rounds: nat, x: Seq<int>)
    requires
        x.len() == hd.len() + rounds,
        pow2(hd.len() + rounds) <= usize::MAX,
    ensures
        mle(eq_table(hd, rounds), x) == eq_at(hd, x, hd.len()),
{
    let h = hd.len();
    let n = h + rounds;
    let t = eq_table(hd, rounds);
    let hh = pow2(h) as int;
    lemma_pow2_adds(h, rounds);
    lemma_pow2_pos(h);
    crate::util::poly::lemma_log_below_bits(n);
    let xa = x.take(h as int);
    let xb = x.skip(h as int);
    assert(x =~= xa + xb);
    lemma_folds_concat(t, xa, xb);
    let f = folds(t, xa);
    let c = eq_at(hd, x, h);
    lemma_eq_at_residue(hd, x, h);
    let bt = Seq::new(pow2(h), |a: int| basis_at(hd, a, h));
    assert(xa.take(h as int) =~= xa);
    lemma_basis_table_mle(hd, x, h);
    assert forall|b: int| 0 <= b < f.len() implies #[trigger] f[b] == c by {
        crate::util::poly::lemma_folds_len(t, xa, n);
        assert((n - h) as nat == rounds);
        lemma_folds_blocks(t, xa, n, b);
        let blk = t.subrange(b * hh, (b + 1) * hh);
        assert((b + 1) * hh == b * hh + hh) by (nonlinear_arith);
        assert(b * hh + hh <= pow2(h) * pow2(rounds)) by (nonlinear_arith)
            requires
                0 <= b < pow2(rounds),
                hh == pow2(h),
        ;
        assert(blk =~= bt) by {
            assert forall|a: int| 0 <= a < hh implies blk[a] == bt[a] by {
                assert(blk[a] == t[a + b * hh]);
                assert(b * hh == hh * b) by (nonlinear_arith);
                vstd::arithmetic::div_mod::lemma_mod_multiples_vanish(b, a, hh);
                vstd::arithmetic::div_mod::lemma_small_mod(a as nat, hh as nat);
                assert((a + b * hh) % hh == a);
                crate::basicblock::spmv::lemma_lagrange_single_is_basis(hd, a as usize, h);
            }
        }
    }
    crate::util::poly::lemma_folds_len(t, xa, n);
    lemma_folds_constant(f, c, xb);
    crate::util::poly::lemma_folds_len(f, xb, rounds);
    assert(pow2(0) == 1) by {
        lemma2_to64();
    }
}

/// The product of the first `k` claims' values is the product of the
/// first `k` tables' extensions at `chs`, when each claim holds its
/// table's extension there.
proof fn lemma_claims_are_tables(tabs: Seq<Seq<int>>, chs: Seq<int>, claims: Seq<Claim>, k: nat)
    requires
        k <= claims.len(),
        forall|i: int| 0 <= i < k ==> (#[trigger] claims[i]).eval@ == mle(tabs[i], chs),
    ensures
        claims_product(claims, k) == tables_mle_prod(tabs, chs, k),
    decreases k,
{
    if k > 0 {
        lemma_claims_are_tables(tabs, chs, claims, (k - 1) as nat);
        assert(claims[k - 1].eval@ == mle(tabs[k - 1], chs));
    }
}

/// Completeness of the einsum proof: when the value claimed on the output
/// is the sum the sumcheck reduces (over the free-multi and summation
/// variables, of the product of the reordered, partly bound inputs and the
/// equality polynomial of the free-multi coordinates), the verifier, run
/// from where the prover's sumcheck started with the prover's input claims
/// followed by the output claim, accepts the prover's round messages, ends
/// with the equality polynomial at the challenges times the product of the
/// input claims, draws the prover's challenges, and leaves the transcript
/// where the prover did.
pub proof fn lemma_einsum_completeness(
    ein: Einsum,
    sh: Seq<Seq<usize>>,
    inputs: Seq<DenseMLPoly>,
    pt: Seq<Fe>,
    edge_ids: Seq<EdgeId>,
    proof: SumcheckProof,
    claims: Seq<Claim>,
    out_claim: Claim,
    log1: Seq<u8>,
    log2: Seq<u8>,
)
    requires
        ein.prove_ready(sh, inputs, pt),
        sumcheck_proof_ok(ein.sumcheck_tables(sh, inputs, pt), proof, log1, ein.sumcheck_vars(sh, pt), log2),
        ein.input_claims_ok(
            sh,
            inputs,
            pt,
            edge_ids,
            rounds_challenges(log1, msgs_vals(proof.round_messages@)),
            claims,
        ),
        out_claim.eval@ == hypercube_sum(ein.sumcheck_tables(sh, inputs, pt), pow2(ein.sumcheck_vars(sh, pt))),
    ensures
        ({
            let m = input_specs_of(ein.equation@).len();
            let hd = ein_multi(ein.equation@, sh, pt);
            let chs = rounds_challenges(log1, msgs_vals(proof.round_messages@));
            verify_spec(
                ein.sumcheck_vars(sh, pt),
                (m + 1) as nat,
                log1,
                msgs_vals(proof.round_messages@),
                out_claim.eval@,
            ) == (
                true,
                fmul(eq_at(fvals(hd), chs, hd.len()), claims_product(claims.push(out_claim), m as nat)),
                chs,
                log2,
            )
        }),
{
    let eq = ein.equation@;
    let m = input_specs_of(eq).len();
    let n = ein.sumcheck_vars(sh, pt);
    let tabs = ein.sumcheck_tables(sh, inputs, pt);
    let ms = msgs_vals(proof.round_messages@);
    let chs = rounds_challenges(log1, ms);
    let hd = ein_multi(eq, sh, pt);
    let vclaims = claims.push(out_claim);
    reveal(sumcheck_proof_ok);
    assert(tabs.len() == m + 1);
    assert(verify_spec(n, (m + 1) as nat, log1, ms, hypercube_sum(tabs, pow2(n))) == (
        true,
        tables_mle_prod(tabs, chs, (m + 1) as nat),
        chs,
        log2,
    ));
    // the last table is the equality polynomial, whose extension at the
    // challenges is the equality polynomial of the free-multi coordinates
    lemma_rounds_take(log1, ms, 0);
    assert(ms.len() == n);
    assert(chs.len() == n);
    assert(tabs[m as int] == eq_table(fvals(hd), ein_rounds(eq, sh) as nat));
    assert(fvals(hd).len() == hd.len());
    lemma_eq_table_mle(fvals(hd), ein_rounds(eq, sh) as nat, chs);
    // the other tables' extensions are the input claims
    assert forall|i: int| 0 <= i < m implies (#[trigger] vclaims[i]).eval@ == mle(tabs[i], chs) by {
        assert(vclaims[i] == claims[i]);
    }
    lemma_claims_are_tables(tabs, chs, vclaims, m as nat);
    lemma_fmul_comm_e(tables_mle_prod(tabs, chs, m as nat), mle(tabs[m as int], chs));
}

} // verus!
