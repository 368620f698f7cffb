//! The linear-time sumcheck prover for
//! `H = Σ_{x∈{0,1}^n} eq(x) · Σ_j a_j · Π_{i<ℓ-1} p_{j,i}(x)`.
use crate::crypto::sumcheck::linear_prover::{
    bound_tables, fold_all, g_poly, g_prod, lemma_add4_mod, lemma_g_poly, lemma_g_prod_at_01,
    lemma_g_prod_folds, mle_prod, point_prod, tables_in_range,
};
use crate::crypto::sumcheck::sumcheck_verifier::{lemma_accept_generic, lemma_rounds_take, verify_spec};
use crate::util::lagrange::{lemma_padd, lemma_scale, lemma_shift, padd, peval, scale, shift};
use crate::crypto::sumcheck::prover::{
    absorb_round, msgs_vals, round_challenge as round_challenge_of, round_log, rounds_challenges,
    rounds_log, SumcheckProof, SumcheckProver,
};
use crate::util::field::{
    cong, fadd, fmul, fsub, fvals, lemma_cong_add, lemma_cong_mod, lemma_cong_mul, lemma_cong_residues,
    lemma_fe_range, lemma_residue, p, Fe, MODULUS,
};
use crate::util::transcript::{t_append_u64, Transcript, LABEL_NUM_POLY, LABEL_NUM_VAR};
use crate::util::lagrange::lemma_interpolation_exact;
use crate::util::poly::{
    fold_first, folds, interp_defined, interpolate, lemma_lerp_at_0, lemma_lerp_at_1, lerp, mle,
    DenseMLPoly,
};
use crate::util::fermat::lemma_interp_defined;
use vstd::arithmetic::power2::*;
use vstd::arithmetic::div_mod::*;
use vstd::prelude::*;

verus! {

/// `Σ_{j<m} (Π_{i<k} lerp(ts_j[i][2y], ts_j[i][2y+1], c)) · a_j`.
pub open spec fn term_sum(tss: Seq<Seq<Seq<int>>>, scalars: Seq<int>, c: int, y: int, k: nat, m: nat) -> int
    decreases m,
{
    if m == 0 {
        0
    } else {
        fadd(term_sum(tss, scalars, c, y, k, (m - 1) as nat), fmul(g_prod(tss[m - 1], c, y, k), scalars[m - 1]))
    }
}

/// The summand at `(c, y)`: the terms times `lerp(eq[2y], eq[2y+1], c)`.
pub open spec fn gen_g(eqt: Seq<int>, tss: Seq<Seq<Seq<int>>>, scalars: Seq<int>, c: int, y: int, k: nat) -> int {
    fmul(term_sum(tss, scalars, c, y, k, tss.len()), lerp(eqt[2 * y], eqt[2 * y + 1], c))
}

/// `Σ_{y<h} gen_g(c, y)`: the round polynomial at `c`.
pub open spec fn gen_round_value(eqt: Seq<int>, tss: Seq<Seq<Seq<int>>>, scalars: Seq<int>, c: int, h: nat, k: nat) -> int
    decreases h,
{
    if h == 0 {
        0
    } else {
        fadd(gen_round_value(eqt, tss, scalars, c, (h - 1) as nat, k), gen_g(eqt, tss, scalars, c, h - 1, k))
    }
}

/// `Σ_{j<m} (Π_{i<k} ts_j[i][x]) · a_j`.
pub open spec fn term_point(tss: Seq<Seq<Seq<int>>>, scalars: Seq<int>, x: int, k: nat, m: nat) -> int
    decreases m,
{
    if m == 0 {
        0
    } else {
        fadd(term_point(tss, scalars, x, k, (m - 1) as nat), fmul(point_prod(tss[m - 1], x, k), scalars[m - 1]))
    }
}

/// `Σ_{x<m} eq[x] · Σ_j a_j · Π_i ts_j[i][x]`: the sum over the hypercube.
pub open spec fn gen_cube_sum(eqt: Seq<int>, tss: Seq<Seq<Seq<int>>>, scalars: Seq<int>, m: nat, k: nat) -> int
    decreases m,
{
    if m == 0 {
        0
    } else {
        fadd(
            gen_cube_sum(eqt, tss, scalars, (m - 1) as nat, k),
            fmul(term_point(tss, scalars, m - 1, k, tss.len()), eqt[m - 1]),
        )
    }
}

/// The tables of every term bound to `rs`.
pub open spec fn bound_terms(terms: Seq<Seq<DenseMLPoly>>, rs: Seq<int>) -> Seq<Seq<Seq<int>>> {
    Seq::new(terms.len(), |t: int| bound_tables(terms[t], rs))
}

/// `Σ_{j<m} mle_prod(terms[j], point) · a_j`.
pub open spec fn terms_at(terms: Seq<Seq<DenseMLPoly>>, scalars: Seq<int>, point: Seq<int>, k: nat, m: nat) -> int
    decreases m,
{
    if m == 0 {
        0
    } else {
        fadd(terms_at(terms, scalars, point, k, (m - 1) as nat), fmul(mle_prod(terms[m - 1], point, k), scalars[m - 1]))
    }
}

/// Round `k`'s message: the round polynomial at `0..=ℓ` of the tables bound
/// to the first `k` challenges, and its values at 0 and 1 add up to the
/// sum over the remaining hypercube.
pub open spec fn gen_round_msg_correct(
    eq: DenseMLPoly,
    terms: Seq<Seq<DenseMLPoly>>,
    scalars: Seq<int>,
    chs: Seq<int>,
    k: int,
    msg: Seq<int>,
    n: nat,
    l: nat,
) -> bool {
    let pre = chs.take(k);
    let ets = folds(eq.table(), pre);
    let tts = bound_terms(terms, pre);
    &&& forall|j: int|
        0 <= j < msg.len() ==> #[trigger] msg[j] == gen_round_value(
            ets,
            tts,
            scalars,
            j,
            pow2((n - k - 1) as nat),
            (l - 1) as nat,
        )
    &&& fadd(msg[0], msg[1]) == gen_cube_sum(ets, tts, scalars, pow2((n - k) as nat), (l - 1) as nat)
}

proof fn lemma_term_sum_at_01(tss: Seq<Seq<Seq<int>>>, scalars: Seq<int>, y: int, k: nat, m: nat)
    requires
        m <= tss.len(),
        0 <= y,
        forall|t: int| 0 <= t < m ==> #[trigger] tables_in_range(tss[t]),
        forall|t: int| 0 <= t < m ==> k <= (#[trigger] tss[t]).len(),
        forall|t: int, i: int| 0 <= t < m && 0 <= i < k ==> 2 * y + 1 < (#[trigger] tss[t][i]).len(),
    ensures
        term_sum(tss, scalars, 0, y, k, m) == term_point(tss, scalars, 2 * y, k, m),
        term_sum(tss, scalars, 1, y, k, m) == term_point(tss, scalars, 2 * y + 1, k, m),
    decreases m,
{
    if m > 0 {
        lemma_term_sum_at_01(tss, scalars, y, k, (m - 1) as nat);
        let ts = tss[m - 1];
        assert(tables_in_range(ts));
        assert forall|i: int| 0 <= i < k implies 2 * y + 1 < #[trigger] ts[i].len() by {
            assert(2 * y + 1 < tss[m - 1][i].len());
        }
        lemma_g_prod_at_01(ts, y, k);
    }
}

/// The round polynomial at 0 plus at 1 is the sum over the remaining
/// hypercube.
pub proof fn lemma_gen_round_sum(eqt: Seq<int>, tss: Seq<Seq<Seq<int>>>, scalars: Seq<int>, h: nat, k: nat)
    requires
        forall|x: int| 0 <= x < eqt.len() ==> 0 <= #[trigger] eqt[x] < p(),
        2 * h <= eqt.len(),
        forall|t: int| 0 <= t < tss.len() ==> #[trigger] tables_in_range(tss[t]),
        forall|t: int| 0 <= t < tss.len() ==> k <= (#[trigger] tss[t]).len(),
        forall|t: int, i: int| 0 <= t < tss.len() && 0 <= i < k ==> 2 * h <= (#[trigger] tss[t][i]).len(),
    ensures
        fadd(gen_round_value(eqt, tss, scalars, 0, h, k), gen_round_value(eqt, tss, scalars, 1, h, k))
            == gen_cube_sum(eqt, tss, scalars, 2 * h, k),
    decreases h,
{
    if h == 0 {
        lemma_small_mod(0, p() as nat);
    } else {
        let hm = (h - 1) as nat;
        lemma_gen_round_sum(eqt, tss, scalars, hm, k);
        let y = hm as int;
        lemma_term_sum_at_01(tss, scalars, y, k, tss.len());
        lemma_lerp_at_0(eqt[2 * y], eqt[2 * y + 1]);
        lemma_lerp_at_1(eqt[2 * y], eqt[2 * y + 1]);
        let a = gen_round_value(eqt, tss, scalars, 0, hm, k);
        let b = gen_g(eqt, tss, scalars, 0, y, k);
        let c = gen_round_value(eqt, tss, scalars, 1, hm, k);
        let d = gen_g(eqt, tss, scalars, 1, y, k);
        lemma_add4_mod(a, b, c, d);
        assert(2 * h - 1 == 2 * hm + 1);
        assert(((2 * h - 1) as nat) as int - 1 == 2 * hm);
        assert(gen_cube_sum(eqt, tss, scalars, 2 * h, k) == fadd(
            gen_cube_sum(eqt, tss, scalars, (2 * h - 1) as nat, k),
            fmul(term_point(tss, scalars, 2 * y + 1, k, tss.len()), eqt[2 * y + 1]),
        ));
        assert(gen_cube_sum(eqt, tss, scalars, (2 * h - 1) as nat, k) == fadd(
            gen_cube_sum(eqt, tss, scalars, 2 * hm, k),
            fmul(term_point(tss, scalars, 2 * y, k, tss.len()), eqt[2 * y]),
        ));
    }
}

/// The prover of the general linear sumcheck: `eq` and the term tables hold
/// the polynomials with their first `current_round` variables bound to
/// `challenges` (in the first `2^(num_var - current_round)` entries).
pub struct GeneralLinearSumcheckProver {
    pub num_var: usize,
    /// The degree `ℓ`: `eq` times `ℓ - 1` polynomials per term.
    pub num_poly: usize,
    pub eq: DenseMLPoly,
    pub a_scalars: Vec<Fe>,
    pub a_arrays: Vec<Vec<DenseMLPoly>>,
    pub current_round: usize,
    pub challenges: Vec<Fe>,
}

/// The tables of each term, as residues, cut to their first `size` entries.
pub open spec fn cut_terms(a: Seq<Vec<DenseMLPoly>>, size: int) -> Seq<Seq<Seq<int>>> {
    Seq::new(
        a.len(),
        |t: int| Seq::new(a[t].len() as nat, |i: int| fvals(a[t]@[i].evaluations@).take(size)),
    )
}

/// The terms' polynomials as sequences.
pub open spec fn terms_view(v: Seq<Vec<DenseMLPoly>>) -> Seq<Seq<DenseMLPoly>> {
    v.map_values(|x: Vec<DenseMLPoly>| x@)
}

impl GeneralLinearSumcheckProver {
    /// Entries of each table still in play.
    pub open spec fn table_size(&self) -> nat {
        pow2((self.num_var - self.current_round) as nat)
    }

    /// The current `eq` table, as residues.
    pub open spec fn eq_table(&self) -> Seq<int> {
        fvals(self.eq.evaluations@).take(self.table_size() as int)
    }

    /// The current tables of the terms, as residues.
    pub open spec fn term_tables(&self) -> Seq<Seq<Seq<int>>> {
        cut_terms(self.a_arrays@, self.table_size() as int)
    }

    /// The state invariant while a proof is under way.
    pub open spec fn inv(&self) -> bool {
        &&& self.num_poly >= 2
        &&& self.a_scalars.len() == self.a_arrays.len()
        &&& pow2(self.num_var as nat) <= usize::MAX
        &&& self.current_round <= self.num_var
        &&& self.challenges.len() == self.current_round
        &&& self.eq.evaluations.len() == pow2(self.num_var as nat)
        &&& forall|t: int|
            0 <= t < self.a_arrays.len() ==> (#[trigger] self.a_arrays@[t]).len() >= self.num_poly - 1
        &&& forall|t: int, i: int|
            0 <= t < self.a_arrays.len() && 0 <= i < self.a_arrays@[t].len() ==> (
            #[trigger] self.a_arrays@[t]@[i]).evaluations.len() == pow2(self.num_var as nat)
    }

    pub(crate) proof fn lemma_tables_facts(&self)
        requires
            self.inv(),
        ensures
            self.table_size() <= pow2(self.num_var as nat),
            self.eq_table().len() == self.table_size(),
            forall|x: int| 0 <= x < self.eq_table().len() ==> 0 <= #[trigger] self.eq_table()[x] < p(),
            self.term_tables().len() == self.a_arrays.len(),
            forall|t: int| 0 <= t < self.a_arrays.len() ==> #[trigger] tables_in_range(self.term_tables()[t]),
            forall|t: int|
                0 <= t < self.a_arrays.len() ==> (#[trigger] self.term_tables()[t]).len() >= self.num_poly - 1,
            forall|t: int, i: int|
                0 <= t < self.a_arrays.len() && 0 <= i < self.a_arrays@[t].len() ==> (
                #[trigger] self.term_tables()[t][i]).len() == self.table_size(),
    {
        if self.current_round > 0 {
            lemma_pow2_strictly_increases((self.num_var - self.current_round) as nat, self.num_var as nat);
        }
        assert forall|x: int| 0 <= x < self.eq_table().len() implies 0 <= #[trigger] self.eq_table()[x] < p() by {
            lemma_fe_range(self.eq.evaluations@[x]);
        }
        assert forall|t: int| 0 <= t < self.a_arrays.len() implies #[trigger] tables_in_range(self.term_tables()[t]) by {
            let ts = self.term_tables()[t];
            assert forall|i: int, x: int| 0 <= i < ts.len() && 0 <= x < ts[i].len() implies 0 <= #[trigger] ts[i][x] < p() by {
                assert(self.a_arrays@[t]@[i].evaluations.len() == pow2(self.num_var as nat));
                lemma_fe_range(self.a_arrays@[t]@[i].evaluations@[x]);
            }
        }
        assert forall|t: int, i: int|
            0 <= t < self.a_arrays.len() && 0 <= i < self.a_arrays@[t].len() implies (
            #[trigger] self.term_tables()[t][i]).len() == self.table_size() by {
            assert(self.a_arrays@[t]@[i].evaluations.len() == pow2(self.num_var as nat));
        }
    }

    /// The summand `eq(c, y) · Σ_j a_j · Π_i A_{j,i}(c, y)`.
    fn compute_g_value(&self, c: &Fe, y: usize) -> (r: Fe)
        requires
            self.inv(),
            self.current_round < self.num_var,
            2 * y + 1 < self.table_size(),
        ensures
            r@ == gen_g(
                self.eq_table(),
                self.term_tables(),
                fvals(self.a_scalars@),
                c@,
                y as int,
                (self.num_poly - 1) as nat,
            ),
    {
        proof {
            self.lemma_tables_facts();
        }
        let k = self.num_poly - 1;
        let ghost tts = self.term_tables();
        let ghost sc = fvals(self.a_scalars@);
        let e0 = self.eq.evaluations[2 * y];
        let e1 = self.eq.evaluations[2 * y + 1];
        let eq_val = e0.add(&c.mul(&e1.sub(&e0)));
        let mut total = Fe::zero();
        let mut t: usize = 0;
        while t < self.a_arrays.len()
            invariant
                self.inv(),
                2 * y + 1 < self.table_size(),
                self.table_size() <= pow2(self.num_var as nat),
                k == self.num_poly - 1,
                tts == self.term_tables(),
                sc == fvals(self.a_scalars@),
                t <= self.a_arrays.len(),
                total@ == term_sum(tts, sc, c@, y as int, k as nat, t as nat),
            decreases self.a_arrays.len() - t,
        {
            let mut prod = Fe::one();
            let mut i: usize = 0;
            while i < k
                invariant
                    self.inv(),
                    2 * y + 1 < self.table_size(),
                    self.table_size() <= pow2(self.num_var as nat),
                    k == self.num_poly - 1,
                    tts == self.term_tables(),
                    t < self.a_arrays.len(),
                    i <= k,
                    prod@ == g_prod(tts[t as int], c@, y as int, i as nat),
                decreases k - i,
            {
                proof {
                    assert(self.a_arrays@[t as int].len() >= self.num_poly - 1);
                    assert(self.a_arrays@[t as int]@[i as int].evaluations.len() == pow2(self.num_var as nat));
                }
                let v0 = self.a_arrays[t][i].evaluations[2 * y];
                let v1 = self.a_arrays[t][i].evaluations[2 * y + 1];
                proof {
                    let tb = tts[t as int][i as int];
                    assert(tb[2 * y as int] == v0@);
                    assert(tb[2 * y as int + 1] == v1@);
                }
                prod = prod.mul(&v0.add(&c.mul(&v1.sub(&v0))));
                i = i + 1;
            }
            proof {
                assert(sc[t as int] == self.a_scalars@[t as int]@);
            }
            total = total.add(&prod.mul(&self.a_scalars[t]));
            t = t + 1;
        }
        proof {
            let et = self.eq_table();
            assert(et[2 * y as int] == e0@);
            assert(et[2 * y as int + 1] == e1@);
        }
        total.mul(&eq_val)
    }

    /// The round message: the round polynomial at `c = 0, 1, ..., ℓ`.
    pub fn compute_round_message(&self) -> (r: Vec<Fe>)
        requires
            self.inv(),
            self.current_round < self.num_var,
            self.num_poly < crate::util::field::MODULUS,
            self.num_poly < usize::MAX,
        ensures
            r.len() == self.num_poly + 1,
            forall|j: int|
                0 <= j <= self.num_poly ==> (#[trigger] r@[j])@ == gen_round_value(
                    self.eq_table(),
                    self.term_tables(),
                    fvals(self.a_scalars@),
                    j,
                    self.table_size() / 2,
                    (self.num_poly - 1) as nat,
                ),
    {
        proof {
            self.lemma_tables_facts();
            lemma_pow2_unfold((self.num_var - self.current_round) as nat);
        }
        let size = crate::util::poly::pow2_usize(self.num_var - self.current_round);
        let half = size / 2;
        let mut r: Vec<Fe> = Vec::new();
        let mut j: usize = 0;
        while j <= self.num_poly
            invariant
                self.inv(),
                self.current_round < self.num_var,
                self.num_poly < crate::util::field::MODULUS,
                self.num_poly < usize::MAX,
                size == self.table_size(),
                half == size / 2,
                size % 2 == 0,
                j <= self.num_poly + 1,
                r.len() == j,
                forall|kk: int|
                    0 <= kk < j ==> (#[trigger] r@[kk])@ == gen_round_value(
                        self.eq_table(),
                        self.term_tables(),
                        fvals(self.a_scalars@),
                        kk,
                        half as nat,
                        (self.num_poly - 1) as nat,
                    ),
            decreases self.num_poly + 1 - j,
        {
            let c = Fe::from_u64(j as u64);
            proof {
                lemma_small_mod(j as nat, p() as nat);
            }
            let mut sum = Fe::zero();
            let mut y: usize = 0;
            while y < half
                invariant
                    self.inv(),
                    self.current_round < self.num_var,
                    size == self.table_size(),
                    half == size / 2,
                    size % 2 == 0,
                    y <= half,
                    c@ == j,
                    sum@ == gen_round_value(
                        self.eq_table(),
                        self.term_tables(),
                        fvals(self.a_scalars@),
                        j as int,
                        y as nat,
                        (self.num_poly - 1) as nat,
                    ),
                decreases half - y,
            {
                let g = self.compute_g_value(&c, y);
                sum = sum.add(&g);
                y = y + 1;
            }
            r.push(sum);
            j = j + 1;
        }
        r
    }

    /// `eq(r) · Σ_j a_j · Π_i p_{j,i}(r)` once all rounds are done.
    pub fn final_evaluation(&self) -> (r: Fe)
        requires
            self.inv(),
            self.current_round == self.num_var,
        ensures
            r@ == fmul(
                term_point(
                    self.term_tables(),
                    fvals(self.a_scalars@),
                    0,
                    (self.num_poly - 1) as nat,
                    self.a_arrays.len() as nat,
                ),
                self.eq_table()[0],
            ),
    {
        proof {
            self.lemma_tables_facts();
            lemma2_to64();
        }
        let k = self.num_poly - 1;
        let ghost tts = self.term_tables();
        let ghost sc = fvals(self.a_scalars@);
        let mut total = Fe::zero();
        let mut t: usize = 0;
        while t < self.a_arrays.len()
            invariant
                self.inv(),
                self.current_round == self.num_var,
                self.table_size() == 1,
                k == self.num_poly - 1,
                tts == self.term_tables(),
                sc == fvals(self.a_scalars@),
                t <= self.a_arrays.len(),
                total@ == term_point(tts, sc, 0, k as nat, t as nat),
            decreases self.a_arrays.len() - t,
        {
            let mut prod = Fe::one();
            let mut i: usize = 0;
            while i < k
                invariant
                    self.inv(),
                    self.current_round == self.num_var,
                    self.table_size() == 1,
                    k == self.num_poly - 1,
                    tts == self.term_tables(),
                    t < self.a_arrays.len(),
                    i <= k,
                    prod@ == point_prod(tts[t as int], 0, i as nat),
                decreases k - i,
            {
                proof {
                    assert(self.a_arrays@[t as int].len() >= self.num_poly - 1);
                    assert(self.a_arrays@[t as int]@[i as int].evaluations.len() == pow2(self.num_var as nat));
                    lemma_pow2_pos(self.num_var as nat);
                }
                if !self.a_arrays[t][i].is_empty() {
                    let v = self.a_arrays[t][i].evaluations[0];
                    proof {
                        assert(tts[t as int][i as int][0] == v@);
                    }
                    prod = prod.mul(&v);
                }
                i = i + 1;
            }
            proof {
                assert(sc[t as int] == self.a_scalars@[t as int]@);
            }
            total = total.add(&prod.mul(&self.a_scalars[t]));
            t = t + 1;
        }
        proof {
            lemma_pow2_pos(self.num_var as nat);
            assert(self.eq_table()[0] == self.eq.evaluations@[0]@);
        }
        total.mul(&self.eq.evaluations[0])
    }

    /// Binds the current variable of `eq` and of every table to `r_m`.
    fn bind_variable_to_challenge(&mut self, r_m: &Fe)
        requires
            old(self).inv(),
            old(self).current_round < old(self).num_var,
        ensures
            final(self).num_var == old(self).num_var,
            final(self).num_poly == old(self).num_poly,
            final(self).current_round == old(self).current_round,
            final(self).challenges == old(self).challenges,
            final(self).a_scalars == old(self).a_scalars,
            final(self).a_arrays.len() == old(self).a_arrays.len(),
            final(self).eq.evaluations.len() == old(self).eq.evaluations.len(),
            forall|t: int|
                0 <= t < old(self).a_arrays.len() ==> (#[trigger] final(self).a_arrays@[t]).len()
                    == old(self).a_arrays@[t].len(),
            forall|t: int, i: int|
                0 <= t < old(self).a_arrays.len() && 0 <= i < old(self).a_arrays@[t].len() ==> (
                #[trigger] final(self).a_arrays@[t]@[i]).evaluations.len() == pow2(old(self).num_var as nat),
            forall|t: int, i: int|
                0 <= t < old(self).a_arrays.len() && 0 <= i < old(self).a_arrays@[t].len() ==> fvals(
                    (#[trigger] final(self).a_arrays@[t]@[i]).evaluations@,
                ).take((old(self).table_size() / 2) as int) == fold_first(
                    fvals(old(self).a_arrays@[t]@[i].evaluations@).take(old(self).table_size() as int),
                    r_m@,
                ),
            fvals(final(self).eq.evaluations@).take((old(self).table_size() / 2) as int) == fold_first(
                fvals(old(self).eq.evaluations@).take(old(self).table_size() as int),
                r_m@,
            ),
    {
        proof {
            self.lemma_tables_facts();
            lemma_pow2_unfold((self.num_var - self.current_round) as nat);
        }
        let size = crate::util::poly::pow2_usize(self.num_var - self.current_round);
        let ghost old_arrays = self.a_arrays@;
        let mut new_arrays: Vec<Vec<DenseMLPoly>> = Vec::new();
        let mut t: usize = 0;
        while t < self.a_arrays.len()
            invariant
                self.inv(),
                self.a_arrays@ == old_arrays,
                size == self.table_size(),
                size % 2 == 0,
                size <= pow2(self.num_var as nat),
                t <= self.a_arrays.len(),
                new_arrays.len() == t,
                forall|tt: int| 0 <= tt < t ==> (#[trigger] new_arrays@[tt]).len() == old_arrays[tt].len(),
                forall|tt: int, i: int|
                    0 <= tt < t && 0 <= i < old_arrays[tt].len() ==> (#[trigger] new_arrays@[tt]@[i]).evaluations.len()
                        == pow2(self.num_var as nat),
                forall|tt: int, i: int|
                    0 <= tt < t && 0 <= i < old_arrays[tt].len() ==> fvals(
                        (#[trigger] new_arrays@[tt]@[i]).evaluations@,
                    ).take((size / 2) as int) == fold_first(
                        fvals(old_arrays[tt]@[i].evaluations@).take(size as int),
                        r_m@,
                    ),
            decreases self.a_arrays.len() - t,
        {
            let mut term: Vec<DenseMLPoly> = Vec::new();
            let mut i: usize = 0;
            while i < self.a_arrays[t].len()
                invariant
                    self.inv(),
                    self.a_arrays@ == old_arrays,
                    size == self.table_size(),
                    size % 2 == 0,
                    size <= pow2(self.num_var as nat),
                    t < self.a_arrays.len(),
                    i <= self.a_arrays@[t as int].len(),
                    term.len() == i,
                    forall|ii: int| 0 <= ii < i ==> (#[trigger] term@[ii]).evaluations.len() == pow2(self.num_var as nat),
                    forall|ii: int|
                        0 <= ii < i ==> fvals((#[trigger] term@[ii]).evaluations@).take((size / 2) as int)
                            == fold_first(fvals(old_arrays[t as int]@[ii].evaluations@).take(size as int), r_m@),
                decreases self.a_arrays@[t as int].len() - i,
            {
                proof {
                    assert(self.a_arrays@[t as int]@[i as int].evaluations.len() == pow2(self.num_var as nat));
                }
                let mut ev = crate::util::poly::copy_fes(&self.a_arrays[t][i].evaluations);
                crate::util::poly::fold_prefix(&mut ev, size, r_m);
                let nv = self.a_arrays[t][i].num_vars;
                term.push(DenseMLPoly { num_vars: nv, evaluations: ev });
                i = i + 1;
            }
            new_arrays.push(term);
            t = t + 1;
        }
        let mut eq_ev = crate::util::poly::copy_fes(&self.eq.evaluations);
        crate::util::poly::fold_prefix(&mut eq_ev, size, r_m);
        let eq_nv = self.eq.num_vars;
        self.eq = DenseMLPoly { num_vars: eq_nv, evaluations: eq_ev };
        self.a_arrays = new_arrays;
    }

    /// Records the verifier's challenge and binds the current variable to it.
    pub fn receive_challenge(&mut self, challenge: Fe)
        requires
            old(self).inv(),
            old(self).current_round < old(self).num_var,
        ensures
            final(self).inv(),
            final(self).num_var == old(self).num_var,
            final(self).num_poly == old(self).num_poly,
            final(self).a_scalars == old(self).a_scalars,
            final(self).current_round == old(self).current_round + 1,
            final(self).challenges@ == old(self).challenges@.push(challenge),
            final(self).a_arrays.len() == old(self).a_arrays.len(),
            forall|t: int|
                0 <= t < old(self).a_arrays.len() ==> (#[trigger] final(self).a_arrays@[t]).len()
                    == old(self).a_arrays@[t].len(),
            final(self).eq_table() == fold_first(old(self).eq_table(), challenge@),
            final(self).term_tables() == Seq::new(
                old(self).a_arrays.len() as nat,
                |t: int| Seq::new(
                    old(self).a_arrays@[t].len() as nat,
                    |i: int| fold_first(old(self).term_tables()[t][i], challenge@),
                ),
            ),
    {
        self.bind_variable_to_challenge(&challenge);
        self.challenges.push(challenge);
        self.current_round = self.current_round + 1;
        proof {
            let m = (old(self).num_var - old(self).current_round) as nat;
            lemma_pow2_unfold(m);
            assert(self.table_size() == old(self).table_size() / 2);
            assert(self.term_tables() =~= Seq::new(
                old(self).a_arrays.len() as nat,
                |t: int| Seq::new(
                    old(self).a_arrays@[t].len() as nat,
                    |i: int| fold_first(old(self).term_tables()[t][i], challenge@),
                ),
            )) by {
                assert forall|t: int| 0 <= t < old(self).a_arrays.len() implies #[trigger] self.term_tables()[t]
                    =~= Seq::new(
                    old(self).a_arrays@[t].len() as nat,
                    |i: int| fold_first(old(self).term_tables()[t][i], challenge@),
                ) by {
                    assert(self.a_arrays@[t].len() == old(self).a_arrays@[t].len());
                }
            }
        }
    }
}

/// Binding one more variable folds every table of every term once more.
proof fn lemma_bound_terms_push(terms: Seq<Seq<DenseMLPoly>>, rs: Seq<int>, r: int)
    ensures
        bound_terms(terms, rs.push(r)) == Seq::new(
            terms.len(),
            |t: int| Seq::new(terms[t].len(), |i: int| fold_first(bound_terms(terms, rs)[t][i], r)),
        ),
{
    assert(rs.push(r).drop_last() =~= rs);
    assert forall|t: int| 0 <= t < terms.len() implies #[trigger] bound_terms(terms, rs.push(r))[t] =~= Seq::new(
        terms[t].len(),
        |i: int| fold_first(bound_terms(terms, rs)[t][i], r),
    ) by {
    }
    assert(bound_terms(terms, rs.push(r)) =~= Seq::new(
        terms.len(),
        |t: int| Seq::new(terms[t].len(), |i: int| fold_first(bound_terms(terms, rs)[t][i], r)),
    ));
}

/// Appending a correct round and its challenge keeps every round correct.
proof fn lemma_gen_msgs_push(
    eq: DenseMLPoly,
    terms: Seq<Seq<DenseMLPoly>>,
    scalars: Seq<int>,
    chs: Seq<int>,
    ch: int,
    ms: Seq<Seq<int>>,
    msg: Seq<int>,
    n: nat,
    l: nat,
)
    requires
        chs.len() == ms.len(),
        forall|k: int|
            0 <= k < ms.len() ==> #[trigger] gen_round_msg_correct(eq, terms, scalars, chs, k, ms[k], n, l),
        gen_round_msg_correct(eq, terms, scalars, chs, ms.len() as int, msg, n, l),
    ensures
        forall|k: int|
            0 <= k <= ms.len() ==> #[trigger] gen_round_msg_correct(
                eq,
                terms,
                scalars,
                chs.push(ch),
                k,
                ms.push(msg)[k],
                n,
                l,
            ),
{
    let chs2 = chs.push(ch);
    let ms2 = ms.push(msg);
    assert forall|k: int| 0 <= k <= ms.len() implies #[trigger] gen_round_msg_correct(
        eq,
        terms,
        scalars,
        chs2,
        k,
        ms2[k],
        n,
        l,
    ) by {
        assert(chs2.take(k) =~= chs.take(k));
        if k < ms.len() {
            assert(ms2[k] == ms[k]);
            assert(gen_round_msg_correct(eq, terms, scalars, chs, k, ms[k], n, l));
        } else {
            assert(ms2[k] == msg);
        }
    }
}

/// With every variable bound, the terms at the first entries are the terms
/// at the challenge point.
proof fn lemma_term_point_mle(terms: Seq<Seq<DenseMLPoly>>, scalars: Seq<int>, rs: Seq<int>, k: nat, m: nat)
    requires
        m <= terms.len(),
        forall|t: int| 0 <= t < m ==> k <= (#[trigger] terms[t]).len(),
        forall|t: int, i: int| 0 <= t < m && 0 <= i < k ==> #[trigger] bound_terms(terms, rs)[t][i].len() > 0,
    ensures
        term_point(bound_terms(terms, rs), scalars, 0, k, m) == terms_at(terms, scalars, rs, k, m),
    decreases m,
{
    if m > 0 {
        lemma_term_point_mle(terms, scalars, rs, k, (m - 1) as nat);
        let t = m - 1;
        assert forall|i: int| 0 <= i < k implies #[trigger] bound_tables(terms[t], rs)[i].len() > 0 by {
            assert(bound_terms(terms, rs)[t][i].len() > 0);
        }
        crate::crypto::sumcheck::linear_prover::lemma_point_prod_mle(terms[t], rs, k);
    }
}

impl GeneralLinearSumcheckProver {
    /// Loads the instance into the prover's tables.
    fn load_instances(&mut self, instances: &(Vec<Fe>, Vec<Vec<DenseMLPoly>>, DenseMLPoly))
        requires
            old(self).current_round == 0,
            old(self).challenges.len() == 0,
            old(self).num_poly >= 2,
            instances.0.len() == instances.1.len(),
            instances.1.len() >= 1,
            instances.1@[0].len() >= 1,
            forall|t: int| 0 <= t < instances.1.len() ==> (#[trigger] instances.1@[t]).len() >= old(self).num_poly - 1,
            forall|t: int, i: int|
                0 <= t < instances.1.len() && 0 <= i < instances.1@[t].len() ==> (
                #[trigger] instances.1@[t]@[i]).evaluations.len() == pow2(old(self).num_var as nat),
            instances.2.evaluations.len() == pow2(old(self).num_var as nat),
        ensures
            final(self).inv(),
            final(self).num_var == old(self).num_var,
            final(self).num_poly == old(self).num_poly,
            final(self).current_round == 0,
            final(self).challenges@ == old(self).challenges@,
            fvals(final(self).a_scalars@) == fvals(instances.0@),
            final(self).a_arrays.len() == instances.1.len(),
            forall|t: int| 0 <= t < instances.1.len() ==> (#[trigger] final(self).a_arrays@[t]).len() == instances.1@[t].len(),
            final(self).term_tables() == bound_terms(terms_view(instances.1@), seq![]),
            final(self).eq_table() == folds(instances.2.table(), seq![]),
    {
        let n = self.num_var;
        let ghost terms = terms_view(instances.1@);
        self.a_scalars = crate::util::poly::copy_fes(&instances.0);
        let mut arrays: Vec<Vec<DenseMLPoly>> = Vec::new();
        let mut t: usize = 0;
        while t < instances.1.len()
            invariant
                t <= instances.1.len(),
                arrays.len() == t,
                forall|tt: int| 0 <= tt < t ==> (#[trigger] arrays@[tt]).len() == instances.1@[tt].len(),
                forall|tt: int, i: int|
                    0 <= tt < t && 0 <= i < instances.1@[tt].len() ==> (#[trigger] arrays@[tt]@[i]).evaluations@
                        == instances.1@[tt]@[i].evaluations@,
            decreases instances.1.len() - t,
        {
            let mut term: Vec<DenseMLPoly> = Vec::new();
            let mut i: usize = 0;
            while i < instances.1[t].len()
                invariant
                    t < instances.1.len(),
                    i <= instances.1@[t as int].len(),
                    term.len() == i,
                    forall|ii: int| 0 <= ii < i ==> (#[trigger] term@[ii]).evaluations@ == instances.1@[t as int]@[ii].evaluations@,
                decreases instances.1@[t as int].len() - i,
            {
                let ev = crate::util::poly::copy_fes(&instances.1[t][i].evaluations);
                term.push(DenseMLPoly { num_vars: instances.1[t][i].num_vars, evaluations: ev });
                i = i + 1;
            }
            arrays.push(term);
            t = t + 1;
        }
        self.a_arrays = arrays;
        let eq_ev = crate::util::poly::copy_fes(&instances.2.evaluations);
        self.eq = DenseMLPoly { num_vars: instances.2.num_vars, evaluations: eq_ev };
        proof {
            assert(instances.1@[0]@[0].evaluations.len() == pow2(n as nat));
            assert(self.inv());
            assert(self.eq_table() =~= folds(instances.2.table(), seq![]));
            assert forall|tt: int| 0 <= tt < instances.1.len() implies #[trigger] self.term_tables()[tt]
                =~= bound_terms(terms, seq![])[tt] by {
                assert forall|i: int| 0 <= i < instances.1@[tt].len() implies #[trigger] self.term_tables()[tt][i]
                    =~= bound_terms(terms, seq![])[tt][i] by {
                    assert(instances.1@[tt]@[i].evaluations.len() == pow2(n as nat));
                    assert(terms[tt] == instances.1@[tt]@);
                }
            }
            assert(self.term_tables() =~= bound_terms(terms, seq![]));
        }
    }
}

impl GeneralLinearSumcheckProver {
    /// One round: the round message, absorbed into the transcript, and the
    /// binding to the round's challenge.
    fn prove_round(
        &mut self,
        transcript: &mut Transcript,
        Ghost(terms): Ghost<Seq<Seq<DenseMLPoly>>>,
        Ghost(sc): Ghost<Seq<int>>,
        Ghost(eqp): Ghost<DenseMLPoly>,
    ) -> (msg: Vec<Fe>)
        requires
            old(self).inv(),
            old(self).current_round < old(self).num_var,
            old(self).num_poly < MODULUS,
            old(self).num_poly < usize::MAX,
            fvals(old(self).a_scalars@) == sc,
            old(self).a_arrays.len() == terms.len(),
            forall|t: int| 0 <= t < terms.len() ==> (#[trigger] old(self).a_arrays@[t]).len() == terms[t].len(),
            old(self).term_tables() == bound_terms(terms, fvals(old(self).challenges@)),
            old(self).eq_table() == folds(eqp.table(), fvals(old(self).challenges@)),
        ensures
            final(self).inv(),
            final(self).num_var == old(self).num_var,
            final(self).num_poly == old(self).num_poly,
            final(self).current_round == old(self).current_round + 1,
            fvals(final(self).a_scalars@) == sc,
            final(self).a_arrays.len() == terms.len(),
            forall|t: int| 0 <= t < terms.len() ==> (#[trigger] final(self).a_arrays@[t]).len() == terms[t].len(),
            msg.len() == old(self).num_poly + 1,
            fvals(final(self).challenges@) == fvals(old(self).challenges@).push(
                round_challenge_of(old(transcript)@, fvals(msg@)),
            ),
            final(transcript)@ == round_log(old(transcript)@, fvals(msg@)),
            final(self).term_tables() == bound_terms(terms, fvals(final(self).challenges@)),
            final(self).eq_table() == folds(eqp.table(), fvals(final(self).challenges@)),
            gen_round_msg_correct(
                eqp,
                terms,
                sc,
                fvals(old(self).challenges@),
                old(self).current_round as int,
                fvals(msg@),
                old(self).num_var as nat,
                old(self).num_poly as nat,
            ),
    {
        let n = self.num_var;
        let np = self.num_poly;
        let round = self.current_round;
        let ghost chs = fvals(self.challenges@);
        let ghost ets = self.eq_table();
        let ghost tts = self.term_tables();
        let msg = self.compute_round_message();
        proof {
            self.lemma_tables_facts();
            lemma_pow2_unfold((n - round) as nat);
            assert forall|t: int, i: int| 0 <= t < tts.len() && 0 <= i < (np - 1) as nat implies 2 * pow2(
                (n - round - 1) as nat,
            ) <= (#[trigger] tts[t][i]).len() by {
                assert(self.a_arrays@[t].len() >= np - 1);
            }
            lemma_gen_round_sum(ets, tts, sc, pow2((n - round - 1) as nat), (np - 1) as nat);
            assert(chs.take(round as int) =~= chs);
            assert(fvals(msg@)[0] == msg@[0]@);
            assert(fvals(msg@)[1] == msg@[1]@);
        }
        let ch = absorb_round(transcript, &msg);
        self.receive_challenge(ch);
        proof {
            assert(fvals(self.challenges@) =~= chs.push(ch@));
            lemma_bound_terms_push(terms, chs, ch@);
            assert(self.term_tables() =~= bound_terms(terms, fvals(self.challenges@))) by {
                assert forall|t: int| 0 <= t < terms.len() implies #[trigger] self.term_tables()[t]
                    =~= bound_terms(terms, fvals(self.challenges@))[t] by {
                }
            }
            assert(chs.push(ch@).drop_last() =~= chs);
        }
        msg
    }
}

impl SumcheckProver for GeneralLinearSumcheckProver {
    type Instance = (Vec<Fe>, Vec<Vec<DenseMLPoly>>, DenseMLPoly);

    /// A fresh prover; scalars and terms of matching counts, at least one;
    /// `ℓ - 1` polynomials in the first term and at least that many in every
    /// term, all of `2^num_var` entries, like `eq`.
    open spec fn ready(&self, instances: &(Vec<Fe>, Vec<Vec<DenseMLPoly>>, DenseMLPoly)) -> bool {
        &&& self.current_round == 0
        &&& self.challenges.len() == 0
        &&& self.num_poly >= 2
        &&& self.num_poly < MODULUS
        &&& self.num_poly < usize::MAX
        &&& instances.0.len() == instances.1.len()
        &&& instances.1.len() >= 1
        &&& instances.1@[0].len() == self.num_poly - 1
        &&& forall|t: int| 0 <= t < instances.1.len() ==> (#[trigger] instances.1@[t]).len() >= self.num_poly - 1
        &&& forall|t: int, i: int|
            0 <= t < instances.1.len() && 0 <= i < instances.1@[t].len() ==> (
            #[trigger] instances.1@[t]@[i]).evaluations.len() == pow2(self.num_var as nat)
        &&& instances.2.evaluations.len() == pow2(self.num_var as nat)
    }

    fn new(num_var: usize, num_polys: usize, transcript: &mut Transcript) -> (r: Self)
        ensures
            r.num_var == num_var,
            r.num_poly == num_polys,
            r.a_scalars.len() == 0,
            r.a_arrays.len() == 0,
            r.current_round == 0,
            r.challenges.len() == 0,
            r.eq.num_vars == 0,
            r.eq.evaluations@ == seq![Fe { v: 1 }],
            final(transcript)@ == t_append_u64(
                t_append_u64(old(transcript)@, LABEL_NUM_VAR, num_var as u64),
                LABEL_NUM_POLY,
                num_polys as u64,
            ),
    {
        transcript.append_u64(LABEL_NUM_VAR, num_var as u64);
        transcript.append_u64(LABEL_NUM_POLY, num_polys as u64);
        let mut one: Vec<Fe> = Vec::new();
        one.push(Fe::one());
        GeneralLinearSumcheckProver {
            num_var,
            num_poly: num_polys,
            eq: DenseMLPoly { num_vars: 0, evaluations: one },
            a_scalars: Vec::new(),
            a_arrays: Vec::new(),
            current_round: 0,
            challenges: Vec::new(),
        }
    }

    /// Runs the protocol on `(scalars, terms, eq)`, drawing challenges from
    /// the transcript (Fiat-Shamir).
    fn prove(&mut self, instances: &(Vec<Fe>, Vec<Vec<DenseMLPoly>>, DenseMLPoly), transcript: &mut Transcript) -> (proof:
        SumcheckProof)
        ensures
            final(self).inv(),
            final(self).num_var == old(self).num_var,
            final(self).num_poly == old(self).num_poly,
            final(self).current_round == old(self).num_var,
            proof.round_messages.len() == old(self).num_var,
            forall|k: int|
                0 <= k < old(self).num_var ==> #[trigger] proof.round_messages@[k].len()
                    == old(self).num_poly + 1,
            ({
                let terms = terms_view(instances.1@);
                let sc = fvals(instances.0@);
                let l = old(self).num_poly as nat;
                let ms = msgs_vals(proof.round_messages@);
                let chs = rounds_challenges(old(transcript)@, ms);
                &&& final(transcript)@ == rounds_log(old(transcript)@, ms)
                &&& fvals(final(self).challenges@) == chs
                &&& forall|k: int|
                    0 <= k < old(self).num_var ==> #[trigger] gen_round_msg_correct(
                        instances.2,
                        terms,
                        sc,
                        chs,
                        k,
                        ms[k],
                        old(self).num_var as nat,
                        l,
                    )
                &&& proof.final_eval@ == fmul(
                    terms_at(terms, sc, chs, (l - 1) as nat, terms.len()),
                    mle(instances.2.table(), chs),
                )
            }),
            proof.zk_mask_sum is None,
            proof.zk_mask_coeffs is None,
            proof.zk_mask_commitment is None,
            proof.zk_mask_opening_proof is None,
            proof.zk_mask_opening_point is None,
            proof.zk_mask_opening_eval is None,
    {
        let n = self.num_var;
        let np = self.num_poly;
        let ghost terms = terms_view(instances.1@);
        let ghost sc = fvals(instances.0@);
        let ghost eqp = instances.2;
        let ghost log0 = transcript@;
        self.load_instances(instances);
        proof {
            assert(msgs_vals(Seq::<Vec<Fe>>::empty()) =~= seq![]);
            assert(fvals(self.challenges@) =~= seq![]);
        }
        let mut round_messages: Vec<Vec<Fe>> = Vec::new();
        let mut round: usize = 0;
        while round < n
            invariant
                self.inv(),
                self.num_var == n,
                self.num_poly == np,
                np < MODULUS,
                np < usize::MAX,
                fvals(self.a_scalars@) == sc,
                self.a_arrays.len() == terms.len(),
                forall|t: int| 0 <= t < terms.len() ==> (#[trigger] self.a_arrays@[t]).len() == terms[t].len(),
                self.current_round == round,
                round <= n,
                round_messages.len() == round,
                forall|k: int| 0 <= k < round ==> #[trigger] round_messages@[k].len() == np + 1,
                fvals(self.challenges@) == rounds_challenges(log0, msgs_vals(round_messages@)),
                transcript@ == rounds_log(log0, msgs_vals(round_messages@)),
                self.term_tables() == bound_terms(terms, fvals(self.challenges@)),
                self.eq_table() == folds(eqp.table(), fvals(self.challenges@)),
                forall|k: int|
                    0 <= k < round ==> #[trigger] gen_round_msg_correct(
                        eqp,
                        terms,
                        sc,
                        fvals(self.challenges@),
                        k,
                        msgs_vals(round_messages@)[k],
                        n as nat,
                        np as nat,
                    ),
            decreases n - round,
        {
            let ghost chs = fvals(self.challenges@);
            let ghost ms = msgs_vals(round_messages@);
            let ghost tlog = transcript@;
            let msg = self.prove_round(transcript, Ghost(terms), Ghost(sc), Ghost(eqp));
            round_messages.push(msg);
            proof {
                let ms2 = msgs_vals(round_messages@);
                assert(ms2 =~= ms.push(fvals(msg@)));
                assert(ms2.drop_last() =~= ms);
                lemma_gen_msgs_push(
                    eqp,
                    terms,
                    sc,
                    chs,
                    round_challenge_of(tlog, fvals(msg@)),
                    ms,
                    fvals(msg@),
                    n as nat,
                    np as nat,
                );
            }
            round = round + 1;
        }
        let final_eval = self.final_evaluation();
        proof {
            self.lemma_tables_facts();
            lemma2_to64();
            let chs = fvals(self.challenges@);
            assert forall|t: int, i: int| 0 <= t < terms.len() && 0 <= i < (np - 1) as nat implies #[trigger] bound_terms(
                terms,
                chs,
            )[t][i].len() > 0 by {
                assert(self.a_arrays@[t].len() >= np - 1);
                assert(self.term_tables()[t][i].len() == self.table_size());
            }
            lemma_term_point_mle(terms, sc, chs, (np - 1) as nat, terms.len());
            lemma_pow2_pos(n as nat);
            assert(folds(eqp.table(), chs).len() > 0);
        }
        SumcheckProof {
            final_eval,
            round_messages,
            zk_mask_sum: None,
            zk_mask_coeffs: None,
            zk_mask_commitment: None,
            zk_mask_opening_proof: None,
            zk_mask_opening_point: None,
            zk_mask_opening_eval: None,
        }
    }
}

/// The coefficients of `Σ_{j<m} a_j · Π_{i<k} (A_{j,i}[2y] + X·(A_{j,i}[2y+1] - A_{j,i}[2y]))`.
pub open spec fn term_poly(tss: Seq<Seq<Seq<int>>>, scalars: Seq<int>, y: int, k: nat, m: nat) -> Seq<int>
    decreases m,
{
    if m == 0 {
        seq![]
    } else {
        padd(term_poly(tss, scalars, y, k, (m - 1) as nat), scale(g_poly(tss[m - 1], y, k), scalars[m - 1]))
    }
}

/// The coefficients of the summand at `y` as a polynomial in the current
/// variable.
pub open spec fn gen_g_poly(eqt: Seq<int>, tss: Seq<Seq<Seq<int>>>, scalars: Seq<int>, y: int, k: nat) -> Seq<int> {
    let tp = term_poly(tss, scalars, y, k, tss.len());
    let a = eqt[2 * y];
    let d = eqt[2 * y + 1] - a;
    padd(scale(tp, a), scale(shift(tp), d))
}

/// The coefficients of the round polynomial `Σ_{y<h} gen_g(X, y)`.
pub open spec fn gen_round_poly(eqt: Seq<int>, tss: Seq<Seq<Seq<int>>>, scalars: Seq<int>, h: nat, k: nat) -> Seq<int>
    decreases h,
{
    if h == 0 {
        seq![]
    } else {
        padd(gen_round_poly(eqt, tss, scalars, (h - 1) as nat, k), gen_g_poly(eqt, tss, scalars, h - 1, k))
    }
}

proof fn lemma_term_poly(tss: Seq<Seq<Seq<int>>>, scalars: Seq<int>, y: int, k: nat, m: nat, c: int)
    ensures
        cong(term_sum(tss, scalars, c, y, k, m), peval(term_poly(tss, scalars, y, k, m), c)),
        term_poly(tss, scalars, y, k, m).len() <= k + 1,
    decreases m,
{
    if m == 0 {
        lemma_small_mod(0, p() as nat);
    } else {
        let mm = (m - 1) as nat;
        lemma_term_poly(tss, scalars, y, k, mm, c);
        let gp = g_poly(tss[m - 1], y, k);
        lemma_g_poly(tss[m - 1], y, k, c);
        lemma_scale(gp, scalars[m - 1], c);
        lemma_padd(term_poly(tss, scalars, y, k, mm), scale(gp, scalars[m - 1]), c);
        let gv = g_prod(tss[m - 1], c, y, k);
        lemma_cong_mul(gv, scalars[m - 1], peval(gp, c), scalars[m - 1]);
        lemma_cong_mod(gv * scalars[m - 1]);
        assert(peval(gp, c) * scalars[m - 1] == scalars[m - 1] * peval(gp, c)) by (nonlinear_arith);
        lemma_cong_add(
            term_sum(tss, scalars, c, y, k, mm),
            fmul(gv, scalars[m - 1]),
            peval(term_poly(tss, scalars, y, k, mm), c),
            scalars[m - 1] * peval(gp, c),
        );
        lemma_cong_mod(term_sum(tss, scalars, c, y, k, mm) + fmul(gv, scalars[m - 1]));
    }
}

proof fn lemma_gen_g_poly(eqt: Seq<int>, tss: Seq<Seq<Seq<int>>>, scalars: Seq<int>, y: int, k: nat, c: int)
    ensures
        cong(gen_g(eqt, tss, scalars, c, y, k), peval(gen_g_poly(eqt, tss, scalars, y, k), c)),
        gen_g_poly(eqt, tss, scalars, y, k).len() <= k + 2,
{
    let tp = term_poly(tss, scalars, y, k, tss.len());
    lemma_term_poly(tss, scalars, y, k, tss.len(), c);
    let a = eqt[2 * y];
    let b = eqt[2 * y + 1];
    let d = b - a;
    lemma_shift(tp, c);
    lemma_scale(tp, a, c);
    lemma_scale(shift(tp), d, c);
    lemma_padd(scale(tp, a), scale(shift(tp), d), c);
    let tv = term_sum(tss, scalars, c, y, k, tss.len());
    let pv = peval(tp, c);
    lemma_cong_mod(b - a);
    lemma_cong_mul(c, fsub(b, a), c, b - a);
    lemma_cong_mod(c * fsub(b, a));
    lemma_cong_add(a, fmul(c, fsub(b, a)), a, c * (b - a));
    lemma_cong_mod(a + fmul(c, fsub(b, a)));
    let l = lerp(a, b, c);
    lemma_cong_mul(tv, l, pv, a + c * (b - a));
    lemma_cong_mod(tv * l);
    assert(a * pv + d * (c * pv) == pv * (a + c * (b - a))) by (nonlinear_arith)
        requires
            d == b - a,
    ;
}

/// The round polynomial of the general sumcheck has degree at most `k + 1`
/// in the current variable: its coefficients are `gen_round_poly`.
pub proof fn lemma_gen_round_poly(eqt: Seq<int>, tss: Seq<Seq<Seq<int>>>, scalars: Seq<int>, h: nat, k: nat, c: int)
    ensures
        cong(gen_round_value(eqt, tss, scalars, c, h, k), peval(gen_round_poly(eqt, tss, scalars, h, k), c)),
        gen_round_poly(eqt, tss, scalars, h, k).len() <= k + 2,
    decreases h,
{
    if h == 0 {
        lemma_small_mod(0, p() as nat);
    } else {
        let hm = (h - 1) as nat;
        lemma_gen_round_poly(eqt, tss, scalars, hm, k, c);
        lemma_gen_g_poly(eqt, tss, scalars, h - 1, k, c);
        lemma_padd(gen_round_poly(eqt, tss, scalars, hm, k), gen_g_poly(eqt, tss, scalars, h - 1, k), c);
        lemma_cong_add(
            gen_round_value(eqt, tss, scalars, c, hm, k),
            gen_g(eqt, tss, scalars, c, h - 1, k),
            peval(gen_round_poly(eqt, tss, scalars, hm, k), c),
            peval(gen_g_poly(eqt, tss, scalars, h - 1, k), c),
        );
        lemma_cong_mod(gen_round_value(eqt, tss, scalars, c, hm, k) + gen_g(eqt, tss, scalars, c, h - 1, k));
    }
}

/// Every table of every term with its first variable bound to `c`.
pub open spec fn fold_terms(tss: Seq<Seq<Seq<int>>>, c: int) -> Seq<Seq<Seq<int>>> {
    Seq::new(tss.len(), |t: int| fold_all(tss[t], c))
}

proof fn lemma_term_sum_folds(tss: Seq<Seq<Seq<int>>>, scalars: Seq<int>, c: int, y: int, k: nat, m: nat)
    requires
        m <= tss.len(),
        0 <= y,
        forall|t: int| 0 <= t < m ==> k <= (#[trigger] tss[t]).len(),
        forall|t: int, i: int| 0 <= t < m && 0 <= i < k ==> 2 * y + 1 < (#[trigger] tss[t][i]).len(),
    ensures
        term_sum(tss, scalars, c, y, k, m) == term_point(fold_terms(tss, c), scalars, y, k, m),
    decreases m,
{
    if m > 0 {
        lemma_term_sum_folds(tss, scalars, c, y, k, (m - 1) as nat);
        let ts = tss[m - 1];
        assert forall|i: int| 0 <= i < k implies 2 * y + 1 < #[trigger] ts[i].len() by {
            assert(2 * y + 1 < tss[m - 1][i].len());
        }
        lemma_g_prod_folds(ts, c, y, k);
        assert(fold_terms(tss, c)[m - 1] == fold_all(ts, c));
    }
}

/// The general round polynomial at `c` is the sum over the remaining
/// hypercube with the current variable bound to `c`.
proof fn lemma_gen_round_value_folds(eqt: Seq<int>, tss: Seq<Seq<Seq<int>>>, scalars: Seq<int>, c: int, h: nat, k: nat)
    requires
        2 * h <= eqt.len(),
        forall|t: int| 0 <= t < tss.len() ==> k <= (#[trigger] tss[t]).len(),
        forall|t: int, i: int| 0 <= t < tss.len() && 0 <= i < k ==> 2 * h <= (#[trigger] tss[t][i]).len(),
    ensures
        gen_round_value(eqt, tss, scalars, c, h, k) == gen_cube_sum(fold_first(eqt, c), fold_terms(tss, c), scalars, h, k),
    decreases h,
{
    if h > 0 {
        let hm = (h - 1) as nat;
        lemma_gen_round_value_folds(eqt, tss, scalars, c, hm, k);
        lemma_term_sum_folds(tss, scalars, c, h - 1, k, tss.len());
        assert(fold_first(eqt, c)[h - 1] == lerp(eqt[2 * (h - 1)], eqt[2 * (h - 1) + 1], c));
    }
}

/// The claim entering round `k` of an honest general run.
pub open spec fn gen_honest_claim(
    eq: DenseMLPoly,
    terms: Seq<Seq<DenseMLPoly>>,
    scalars: Seq<int>,
    chs: Seq<int>,
    k: nat,
    n: nat,
    l: nat,
) -> int {
    if k == 0 {
        gen_cube_sum(folds(eq.table(), seq![]), bound_terms(terms, seq![]), scalars, pow2(n), (l - 1) as nat)
    } else {
        gen_round_value(
            folds(eq.table(), chs.take(k - 1)),
            bound_terms(terms, chs.take(k - 1)),
            scalars,
            chs[k - 1],
            pow2((n - k) as nat),
            (l - 1) as nat,
        )
    }
}

/// The hypotheses of an honest general run.
pub open spec fn gen_honest_run(
    eq: DenseMLPoly,
    terms: Seq<Seq<DenseMLPoly>>,
    scalars: Seq<int>,
    ms: Seq<Seq<int>>,
    log0: Seq<u8>,
    n: nat,
    l: nat,
) -> bool {
    &&& l >= 2
    &&& eq.evaluations.len() == pow2(n)
    &&& forall|t: int| 0 <= t < terms.len() ==> (#[trigger] terms[t]).len() >= l - 1
    &&& forall|t: int, i: int|
        0 <= t < terms.len() && 0 <= i < terms[t].len() ==> (#[trigger] terms[t][i]).evaluations.len() == pow2(n)
    &&& ms.len() == n
    &&& forall|j: int| 0 <= j < n ==> (#[trigger] ms[j]).len() == l + 1
    &&& forall|j: int|
        0 <= j < n ==> #[trigger] gen_round_msg_correct(eq, terms, scalars, rounds_challenges(log0, ms), j, ms[j], n, l)
}

proof fn lemma_gen_tables_facts(eq: DenseMLPoly, terms: Seq<Seq<DenseMLPoly>>, rs: Seq<int>, n: nat)
    requires
        rs.len() <= n,
        eq.evaluations.len() == pow2(n),
        forall|t: int, i: int|
            0 <= t < terms.len() && 0 <= i < terms[t].len() ==> (#[trigger] terms[t][i]).evaluations.len() == pow2(n),
    ensures
        folds(eq.table(), rs).len() == pow2((n - rs.len()) as nat),
        forall|t: int| 0 <= t < terms.len() ==> (#[trigger] bound_terms(terms, rs)[t]).len() == terms[t].len(),
        forall|t: int, i: int|
            0 <= t < terms.len() && 0 <= i < terms[t].len() ==> (#[trigger] bound_terms(terms, rs)[t][i]).len()
                == pow2((n - rs.len()) as nat),
{
    crate::util::poly::lemma_folds_len(eq.table(), rs, n);
    assert forall|t: int, i: int|
        0 <= t < terms.len() && 0 <= i < terms[t].len() implies (#[trigger] bound_terms(terms, rs)[t][i]).len()
            == pow2((n - rs.len()) as nat) by {
        crate::util::poly::lemma_folds_len(terms[t][i].table(), rs, n);
    }
}

proof fn lemma_gen_step_interp(
    eq: DenseMLPoly,
    terms: Seq<Seq<DenseMLPoly>>,
    scalars: Seq<int>,
    ms: Seq<Seq<int>>,
    log0: Seq<u8>,
    n: nat,
    l: nat,
    k: nat,
)
    requires
        gen_honest_run(eq, terms, scalars, ms, log0, n, l),
        interp_defined(l + 1),
        k < n,
    ensures
        interpolate(ms[k as int], rounds_challenges(log0, ms)[k as int]) == Some(
            gen_honest_claim(eq, terms, scalars, rounds_challenges(log0, ms), k + 1, n, l),
        ),
{
    let chs = rounds_challenges(log0, ms);
    lemma_rounds_take(log0, ms, k);
    let m = ms[k as int];
    let ch = chs[k as int];
    let pre = chs.take(k as int);
    assert(gen_round_msg_correct(eq, terms, scalars, chs, k as int, m, n, l));
    let ets = folds(eq.table(), pre);
    let tts = bound_terms(terms, pre);
    let h = pow2((n - k - 1) as nat);
    let kk = (l - 1) as nat;
    let gp = gen_round_poly(ets, tts, scalars, h, kk);
    lemma_gen_round_poly(ets, tts, scalars, h, kk, ch);
    assert forall|j: int| 0 <= j < m.len() implies cong(#[trigger] m[j], peval(gp, j)) by {
        lemma_gen_round_poly(ets, tts, scalars, h, kk, j);
        assert(m[j] == gen_round_value(ets, tts, scalars, j, h, kk));
    }
    lemma_interpolation_exact(gp, m, ch);
    lemma_gen_round_value_range(ets, tts, scalars, ch, h, kk);
    lemma_cong_mod(peval(gp, ch));
    lemma_residue(peval(gp, ch));
    lemma_cong_residues(gen_round_value(ets, tts, scalars, ch, h, kk), peval(gp, ch) % p());
    assert((n - (k + 1)) as nat == (n - k - 1) as nat);
}

proof fn lemma_gen_round_value_range(eqt: Seq<int>, tss: Seq<Seq<Seq<int>>>, scalars: Seq<int>, c: int, h: nat, k: nat)
    ensures
        0 <= gen_round_value(eqt, tss, scalars, c, h, k) < p(),
{
    if h > 0 {
        lemma_residue(gen_round_value(eqt, tss, scalars, c, (h - 1) as nat, k) + gen_g(eqt, tss, scalars, c, h - 1, k));
    }
}

/// The round polynomial of round `k` at its challenge is the sum over the
/// remaining hypercube of the tables bound to the first `k + 1` challenges.
proof fn lemma_gen_at_challenge(eq: DenseMLPoly, terms: Seq<Seq<DenseMLPoly>>, scalars: Seq<int>, chs: Seq<int>, k: nat, n: nat, l: nat)
    requires
        l >= 2,
        k < n,
        k < chs.len(),
        eq.evaluations.len() == pow2(n),
        forall|t: int| 0 <= t < terms.len() ==> (#[trigger] terms[t]).len() >= l - 1,
        forall|t: int, i: int|
            0 <= t < terms.len() && 0 <= i < terms[t].len() ==> (#[trigger] terms[t][i]).evaluations.len() == pow2(n),
    ensures
        gen_round_value(
            folds(eq.table(), chs.take(k as int)),
            bound_terms(terms, chs.take(k as int)),
            scalars,
            chs[k as int],
            pow2((n - k - 1) as nat),
            (l - 1) as nat,
        ) == gen_cube_sum(
            folds(eq.table(), chs.take(k + 1 as int)),
            bound_terms(terms, chs.take(k + 1 as int)),
            scalars,
            pow2((n - k - 1) as nat),
            (l - 1) as nat,
        ),
{
    let pre = chs.take(k as int);
    let ets = folds(eq.table(), pre);
    let tts = bound_terms(terms, pre);
    let h = pow2((n - k - 1) as nat);
    lemma_gen_tables_facts(eq, terms, pre, n);
    lemma_pow2_unfold((n - k) as nat);
    lemma_gen_round_value_folds(ets, tts, scalars, chs[k as int], h, (l - 1) as nat);
    crate::util::poly::lemma_folds_push(eq.table(), chs, k as int);
    lemma_bound_terms_push(terms, pre, chs[k as int]);
    assert(pre.push(chs[k as int]) =~= chs.take(k + 1 as int));
    assert(fold_terms(tts, chs[k as int]) =~= bound_terms(terms, chs.take(k + 1 as int))) by {
        assert forall|t: int| 0 <= t < terms.len() implies #[trigger] fold_terms(tts, chs[k as int])[t]
            =~= bound_terms(terms, chs.take(k + 1 as int))[t] by {
        }
    }
}

/// Completeness of the general prover: the verifier accepts the round
/// messages of an honest run against the true sum
/// `H = Σ_x eq(x)·Σ_j a_j·Π_i p_{j,i}(x)`, derives the prover's
/// challenges and transcript, and ends with `eq(r)·Σ_j a_j·Π_i p_{j,i}(r)`
/// at the challenge point `r`.
pub proof fn lemma_gen_completeness(
    eq: DenseMLPoly,
    terms: Seq<Seq<DenseMLPoly>>,
    scalars: Seq<int>,
    ms: Seq<Seq<int>>,
    log0: Seq<u8>,
    n: nat,
    l: nat,
)
    requires
        gen_honest_run(eq, terms, scalars, ms, log0, n, l),
        l + 1 <= p(),
    ensures
        ({
            let chs = rounds_challenges(log0, ms);
            verify_spec(
                n,
                l,
                log0,
                ms,
                gen_cube_sum(folds(eq.table(), seq![]), bound_terms(terms, seq![]), scalars, pow2(n), (l - 1) as nat),
            ) == (
                true,
                fmul(terms_at(terms, scalars, chs, (l - 1) as nat, terms.len()), mle(eq.table(), chs)),
                chs,
                rounds_log(log0, ms),
            )
        }),
{
    lemma_interp_defined(l + 1);
    let chs = rounds_challenges(log0, ms);
    let claim = |k: nat| gen_honest_claim(eq, terms, scalars, chs, k, n, l);
    lemma_rounds_take(log0, ms, n);
    assert forall|j: nat| j < n implies fadd(ms[j as int][0], ms[j as int][1]) == #[trigger] claim(j) by {
        assert(gen_round_msg_correct(eq, terms, scalars, chs, j as int, ms[j as int], n, l));
        if j == 0 {
            assert(chs.take(0) =~= seq![]);
        } else {
            lemma_gen_at_challenge(eq, terms, scalars, chs, (j - 1) as nat, n, l);
            assert((j - 1) + 1 == j);
            assert((n - (j - 1) - 1) as nat == (n - j) as nat);
        }
    }
    assert forall|j: nat| j < n implies #[trigger] interpolate(ms[j as int], chs[j as int]) == Some(claim(j + 1)) by {
        lemma_gen_step_interp(eq, terms, scalars, ms, log0, n, l, j);
    }
    lemma_accept_generic(claim, ms, log0, n, l, 0);
    // the last claim: the sum over the one remaining point
    let ets = folds(eq.table(), chs);
    let tts = bound_terms(terms, chs);
    assert(chs.take(n as int) =~= chs);
    lemma2_to64();
    if n >= 1 {
        lemma_gen_at_challenge(eq, terms, scalars, chs, (n - 1) as nat, n, l);
        assert((n - (n - 1) - 1) as nat == 0);
        assert((n - n) as nat == 0);
        assert(claim(n) == gen_cube_sum(ets, tts, scalars, 1, (l - 1) as nat));
    } else {
        assert(chs =~= seq![]);
        assert(claim(n) == gen_cube_sum(ets, tts, scalars, 1, (l - 1) as nat));
    }
    lemma_gen_tables_facts(eq, terms, chs, n);
    assert(gen_cube_sum(ets, tts, scalars, 0, (l - 1) as nat) == 0);
    assert forall|t: int, i: int| 0 <= t < terms.len() && 0 <= i < (l - 1) as nat implies #[trigger] bound_terms(
        terms,
        chs,
    )[t][i].len() > 0 by {
        assert(terms[t].len() >= l - 1);
    }
    lemma_term_point_mle(terms, scalars, chs, (l - 1) as nat, terms.len());
    let v = fmul(term_point(tts, scalars, 0, (l - 1) as nat, tts.len()), ets[0]);
    lemma_residue(term_point(tts, scalars, 0, (l - 1) as nat, tts.len()) * ets[0]);
    lemma_small_mod(v as nat, p() as nat);
    assert(ets.len() > 0);
    assert(mle(eq.table(), chs) == ets[0]);
    assert(ms.take(0) =~= seq![]);
    assert(ms.skip(0) =~= ms);
    assert(chs.take(0) =~= seq![]);
    assert(rounds_log(log0, seq![]) == log0);
}

} // verus!
