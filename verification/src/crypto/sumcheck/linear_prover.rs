//! The linear-time sumcheck prover for `H = Σ_{x∈{0,1}^n} Π_{i<ℓ} p_i(x)`
//! with dense multilinear `p_i`.
use crate::crypto::sumcheck::prover::{
    absorb_round, msgs_vals, rounds_challenges, rounds_log, SumcheckProof, SumcheckProver,
};
use crate::util::field::{
    cong, fadd, fmul, fsub, fvals, lemma_cong_add, lemma_cong_mod, lemma_cong_mul, lemma_fe_range, p,
    Fe, MODULUS,
};
use crate::util::lagrange::{lemma_padd, lemma_scale, lemma_shift, padd, peval, scale, shift};
use crate::util::poly::{
    copy_fes, fold_first, fold_prefix, folds, lemma_folds_len, lemma_lerp_at_0, lemma_lerp_at_1,
    lerp, mle, pow2_usize, DenseMLPoly,
};
use crate::util::transcript::{t_append_u64, Transcript, LABEL_NUM_POLY, LABEL_NUM_VAR};
use vstd::arithmetic::div_mod::*;
use vstd::arithmetic::power2::*;
use vstd::prelude::*;

verus! {

/// `Π_{i<k} lerp(ts[i][2y], ts[i][2y+1], c)`: the product of the tables with
/// the current variable at `c` and the remaining ones at `y`.
pub open spec fn g_prod(ts: Seq<Seq<int>>, c: int, y: int, k: nat) -> int
    decreases k,
{
    if k == 0 {
        1
    } else {
        fmul(g_prod(ts, c, y, (k - 1) as nat), lerp(ts[k - 1][2 * y], ts[k - 1][2 * y + 1], c))
    }
}

/// `Σ_{y<h} g_prod(ts, c, y)`: the round polynomial at `c`.
pub open spec fn round_value(ts: Seq<Seq<int>>, c: int, h: nat) -> int
    decreases h,
{
    if h == 0 {
        0
    } else {
        fadd(round_value(ts, c, (h - 1) as nat), g_prod(ts, c, h - 1, ts.len()))
    }
}

/// `Π_{i<k} ts[i][x]`.
pub open spec fn point_prod(ts: Seq<Seq<int>>, x: int, k: nat) -> int
    decreases k,
{
    if k == 0 {
        1
    } else {
        fmul(point_prod(ts, x, (k - 1) as nat), ts[k - 1][x])
    }
}

/// `Σ_{x<m} Π_i ts[i][x]`: the sum over the hypercube of the product.
pub open spec fn hypercube_sum(ts: Seq<Seq<int>>, m: nat) -> int
    decreases m,
{
    if m == 0 {
        0
    } else {
        fadd(hypercube_sum(ts, (m - 1) as nat), point_prod(ts, m - 1, ts.len()))
    }
}

/// The tables of the polynomials after binding their first variables to `rs`.
pub open spec fn bound_tables(polys: Seq<DenseMLPoly>, rs: Seq<int>) -> Seq<Seq<int>> {
    Seq::new(polys.len(), |i: int| folds(polys[i].table(), rs))
}

/// `Π_{i<k} mle(p_i, point)`.
pub open spec fn mle_prod(polys: Seq<DenseMLPoly>, point: Seq<int>, k: nat) -> int
    decreases k,
{
    if k == 0 {
        1
    } else {
        fmul(mle_prod(polys, point, (k - 1) as nat), mle(polys[k - 1].table(), point))
    }
}

/// All entries of all tables are residues.
pub open spec fn tables_in_range(ts: Seq<Seq<int>>) -> bool {
    forall|i: int, x: int| 0 <= i < ts.len() && 0 <= x < ts[i].len() ==> 0 <= #[trigger] ts[i][x] < p()
}

pub(crate) proof fn lemma_g_prod_at_01(ts: Seq<Seq<int>>, y: int, k: nat)
    requires
        tables_in_range(ts),
        k <= ts.len(),
        forall|i: int| 0 <= i < k ==> 2 * y + 1 < #[trigger] ts[i].len(),
        0 <= y,
    ensures
        g_prod(ts, 0, y, k) == point_prod(ts, 2 * y, k),
        g_prod(ts, 1, y, k) == point_prod(ts, 2 * y + 1, k),
    decreases k,
{
    if k > 0 {
        lemma_g_prod_at_01(ts, y, (k - 1) as nat);
        let t = ts[k - 1];
        assert(0 <= t[2 * y] < p());
        assert(0 <= t[2 * y + 1] < p());
        lemma_lerp_at_0(t[2 * y], t[2 * y + 1]);
        lemma_lerp_at_1(t[2 * y], t[2 * y + 1]);
    }
}

pub(crate) proof fn lemma_add4_mod(a: int, b: int, c: int, d: int)
    ensures
        fadd(fadd(a, b), fadd(c, d)) == fadd(fadd(fadd(a, c), b), d),
{
    lemma_add_mod_noop(a + b, c + d, p());
    lemma_add_mod_noop_right(b, a + c, p());
    assert((a + c) % p() + b == b + (a + c) % p());
    lemma_add_mod_noop_right(d, a + c + b, p());
    assert((a + c + b) % p() + d == d + (a + c + b) % p());
    assert(a + b + (c + d) == d + (a + c + b));
    assert(b + (a + c) == a + c + b);
}

/// The round polynomial at 0 plus at 1 is the sum of the product of the
/// tables over the whole (remaining) hypercube.
pub proof fn lemma_round_sum(ts: Seq<Seq<int>>, h: nat)
    requires
        tables_in_range(ts),
        forall|i: int| 0 <= i < ts.len() ==> 2 * h <= #[trigger] ts[i].len(),
    ensures
        fadd(round_value(ts, 0, h), round_value(ts, 1, h)) == hypercube_sum(ts, 2 * h),
    decreases h,
{
    if h == 0 {
        lemma_small_mod(0, p() as nat);
    } else {
        let hm = (h - 1) as nat;
        lemma_round_sum(ts, hm);
        lemma_g_prod_at_01(ts, hm as int, ts.len());
        let a = round_value(ts, 0, hm);
        let b = g_prod(ts, 0, hm as int, ts.len());
        let c = round_value(ts, 1, hm);
        let d = g_prod(ts, 1, hm as int, ts.len());
        lemma_add4_mod(a, b, c, d);
        assert(2 * h - 1 == 2 * hm + 1);
        assert(((2 * h - 1) as nat) as int - 1 == 2 * hm);
        assert(hypercube_sum(ts, 2 * h) == fadd(
            hypercube_sum(ts, (2 * h - 1) as nat),
            point_prod(ts, 2 * hm as int + 1, ts.len()),
        ));
        assert(hypercube_sum(ts, (2 * h - 1) as nat) == fadd(
            hypercube_sum(ts, 2 * hm),
            point_prod(ts, 2 * hm as int, ts.len()),
        ));
    }
}

/// Round `k`'s message is the round polynomial of the tables bound to the
/// first `k` challenges, at `0..=ℓ`, and its values at 0 and 1 add up to the
/// sum of the product over the remaining hypercube.
pub open spec fn round_msg_correct(
    polys: Seq<DenseMLPoly>,
    chs: Seq<int>,
    k: int,
    msg: Seq<int>,
    n: nat,
) -> bool {
    let ts = bound_tables(polys, chs.take(k));
    &&& forall|j: int|
        0 <= j < msg.len() ==> #[trigger] msg[j] == round_value(ts, j, pow2((n - k - 1) as nat))
    &&& fadd(msg[0], msg[1]) == hypercube_sum(ts, pow2((n - k) as nat))
}

/// The tables of the polynomials.
pub open spec fn poly_tables(polys: Seq<DenseMLPoly>) -> Seq<Seq<int>> {
    Seq::new(polys.len(), |i: int| polys[i].table())
}

/// `round_msg_correct` for polynomials given by their tables.
pub open spec fn tables_msg_correct(tabs: Seq<Seq<int>>, chs: Seq<int>, k: int, msg: Seq<int>, n: nat) -> bool {
    let ts = Seq::new(tabs.len(), |i: int| folds(tabs[i], chs.take(k)));
    &&& forall|j: int|
        0 <= j < msg.len() ==> #[trigger] msg[j] == round_value(ts, j, pow2((n - k - 1) as nat))
    &&& fadd(msg[0], msg[1]) == hypercube_sum(ts, pow2((n - k) as nat))
}

/// Whether a round message is correct depends on the polynomials through
/// their tables only.
pub proof fn lemma_msg_correct_by_tables(polys: Seq<DenseMLPoly>, chs: Seq<int>, k: int, msg: Seq<int>, n: nat)
    ensures
        round_msg_correct(polys, chs, k, msg, n) == tables_msg_correct(poly_tables(polys), chs, k, msg, n),
{
    let tabs = poly_tables(polys);
    assert(bound_tables(polys, chs.take(k)) =~= Seq::new(tabs.len(), |i: int| folds(tabs[i], chs.take(k))));
}

/// Appending a correct round and its challenge keeps every round correct.
pub proof fn lemma_msgs_correct_push(
    polys: Seq<DenseMLPoly>,
    chs: Seq<int>,
    ch: int,
    ms: Seq<Seq<int>>,
    msg: Seq<int>,
    n: nat,
)
    requires
        chs.len() == ms.len(),
        forall|k: int| 0 <= k < ms.len() ==> #[trigger] round_msg_correct(polys, chs, k, ms[k], n),
        round_msg_correct(polys, chs, ms.len() as int, msg, n),
    ensures
        forall|k: int|
            0 <= k <= ms.len() ==> #[trigger] round_msg_correct(
                polys,
                chs.push(ch),
                k,
                ms.push(msg)[k],
                n,
            ),
{
    let chs2 = chs.push(ch);
    let ms2 = ms.push(msg);
    assert forall|k: int| 0 <= k <= ms.len() implies #[trigger] round_msg_correct(
        polys,
        chs2,
        k,
        ms2[k],
        n,
    ) by {
        assert(chs2.take(k) =~= chs.take(k));
        if k < ms.len() {
            assert(ms2[k] == ms[k]);
            assert(round_msg_correct(polys, chs, k, ms[k], n));
        } else {
            assert(ms2[k] == msg);
        }
    }
}

/// Binding one more variable folds every table once more.
pub proof fn lemma_bound_tables_push(polys: Seq<DenseMLPoly>, rs: Seq<int>, r: int)
    ensures
        bound_tables(polys, rs.push(r)) == Seq::new(
            polys.len(),
            |i: int| fold_first(bound_tables(polys, rs)[i], r),
        ),
{
    assert(rs.push(r).drop_last() =~= rs);
    assert(bound_tables(polys, rs.push(r)) =~= Seq::new(
        polys.len(),
        |i: int| fold_first(bound_tables(polys, rs)[i], r),
    ));
}

/// Once every variable is bound, the product of the first entries is the
/// product of the polynomials' values at the challenge point.
pub proof fn lemma_point_prod_mle(polys: Seq<DenseMLPoly>, rs: Seq<int>, k: nat)
    requires
        k <= polys.len(),
        forall|i: int| 0 <= i < k ==> #[trigger] bound_tables(polys, rs)[i].len() > 0,
    ensures
        point_prod(bound_tables(polys, rs), 0, k) == mle_prod(polys, rs, k),
    decreases k,
{
    if k > 0 {
        lemma_point_prod_mle(polys, rs, (k - 1) as nat);
        assert(bound_tables(polys, rs)[k - 1].len() > 0);
    }
}

/// Every table with its first variable bound to `c`.
pub open spec fn fold_all(ts: Seq<Seq<int>>, c: int) -> Seq<Seq<int>> {
    Seq::new(ts.len(), |i: int| fold_first(ts[i], c))
}

pub(crate) proof fn lemma_g_prod_folds(ts: Seq<Seq<int>>, c: int, y: int, k: nat)
    requires
        k <= ts.len(),
        0 <= y,
        forall|i: int| 0 <= i < k ==> 2 * y + 1 < #[trigger] ts[i].len(),
    ensures
        g_prod(ts, c, y, k) == point_prod(fold_all(ts, c), y, k),
    decreases k,
{
    if k > 0 {
        lemma_g_prod_folds(ts, c, y, (k - 1) as nat);
        let t = ts[k - 1];
        assert(2 * y + 1 < t.len());
        assert(y < t.len() / 2);
        assert(fold_all(ts, c)[k - 1][y] == lerp(t[2 * y], t[2 * y + 1], c));
    }
}

/// The round polynomial at `c` is the sum over the remaining hypercube of
/// the product of the tables with the current variable bound to `c`.
pub proof fn lemma_round_value_folds(ts: Seq<Seq<int>>, c: int, h: nat)
    requires
        forall|i: int| 0 <= i < ts.len() ==> 2 * h <= #[trigger] ts[i].len(),
    ensures
        round_value(ts, c, h) == hypercube_sum(fold_all(ts, c), h),
    decreases h,
{
    if h > 0 {
        lemma_round_value_folds(ts, c, (h - 1) as nat);
        assert forall|i: int| 0 <= i < ts.len() implies 2 * (h - 1) + 1 < #[trigger] ts[i].len() by {
            assert(2 * h <= ts[i].len());
        }
        lemma_g_prod_folds(ts, c, h - 1, ts.len());
    }
}

/// The round polynomial of round `k` at the challenge `chs[k]` is the sum
/// over the remaining hypercube of the product of the tables bound to the
/// first `k + 1` challenges.
pub proof fn lemma_round_value_at_challenge(polys: Seq<DenseMLPoly>, chs: Seq<int>, k: nat, n: nat)
    requires
        k < n,
        k < chs.len(),
        forall|i: int| 0 <= i < polys.len() ==> (#[trigger] polys[i]).evaluations.len() == pow2(n),
    ensures
        round_value(bound_tables(polys, chs.take(k as int)), chs[k as int], pow2((n - k - 1) as nat))
            == hypercube_sum(bound_tables(polys, chs.take(k + 1 as int)), pow2((n - k - 1) as nat)),
{
    let ts = bound_tables(polys, chs.take(k as int));
    assert forall|i: int| 0 <= i < ts.len() implies 2 * pow2((n - k - 1) as nat) <= #[trigger] ts[i].len() by {
        lemma_folds_len(polys[i].table(), chs.take(k as int), n);
        lemma_pow2_unfold((n - k) as nat);
    }
    lemma_round_value_folds(ts, chs[k as int], pow2((n - k - 1) as nat));
    lemma_bound_tables_push(polys, chs.take(k as int), chs[k as int]);
    assert(chs.take(k as int).push(chs[k as int]) =~= chs.take(k + 1 as int));
    assert(fold_all(ts, chs[k as int]) =~= bound_tables(polys, chs.take(k + 1 as int)));
}

/// The tables bound to any challenges hold residues, `2^(n - |rs|)` of
/// them each.
pub proof fn lemma_bound_tables_facts(polys: Seq<DenseMLPoly>, rs: Seq<int>, n: nat)
    requires
        rs.len() <= n,
        forall|i: int| 0 <= i < polys.len() ==> (#[trigger] polys[i]).evaluations.len() == pow2(n),
    ensures
        tables_in_range(bound_tables(polys, rs)),
        forall|i: int| 0 <= i < polys.len() ==> #[trigger] bound_tables(polys, rs)[i].len() == pow2((n - rs.len()) as nat),
{
    let ts = bound_tables(polys, rs);
    assert forall|i: int| 0 <= i < polys.len() implies #[trigger] bound_tables(polys, rs)[i].len() == pow2((n - rs.len()) as nat) by {
        lemma_folds_len(polys[i].table(), rs, n);
    }
    assert forall|i: int, x: int| 0 <= i < ts.len() && 0 <= x < ts[i].len() implies 0 <= #[trigger] ts[i][x] < p() by {
        if rs.len() == 0 {
            assert(ts[i] == polys[i].table());
            lemma_fe_range(polys[i].evaluations@[x]);
        } else {
            let prev = folds(polys[i].table(), rs.drop_last());
            assert(ts[i] == fold_first(prev, rs.last()));
            let v = lerp(prev[2 * x], prev[2 * x + 1], rs.last());
            assert(ts[i][x] == v);
            lemma_mod_bound(prev[2 * x] + fmul(rs.last(), fsub(prev[2 * x + 1], prev[2 * x])), p());
        }
    }
}

/// In a run whose rounds are all correct, each round's claim (its message
/// at 0 plus at 1) is the previous round's polynomial at the previous
/// challenge, and the last round's polynomial at the last challenge is the
/// product of the polynomials at the challenge point.
pub proof fn lemma_round_chain(polys: Seq<DenseMLPoly>, chs: Seq<int>, ms: Seq<Seq<int>>, n: nat)
    requires
        chs.len() == n,
        ms.len() == n,
        forall|i: int| 0 <= i < polys.len() ==> (#[trigger] polys[i]).evaluations.len() == pow2(n),
        forall|k: int| 0 <= k < n ==> #[trigger] round_msg_correct(polys, chs, k, ms[k], n),
    ensures
        forall|k: int|
            0 <= k < n - 1 ==> #[trigger] fadd(ms[k + 1][0], ms[k + 1][1]) == round_value(
                bound_tables(polys, chs.take(k)),
                chs[k],
                pow2((n - k - 1) as nat),
            ),
        n >= 1 ==> round_value(bound_tables(polys, chs.take(n - 1)), chs[n - 1], 1) == mle_prod(
            polys,
            chs,
            polys.len(),
        ),
{
    assert forall|k: int| 0 <= k < n implies #[trigger] round_value(
        bound_tables(polys, chs.take(k)),
        chs[k],
        pow2((n - k - 1) as nat),
    ) == hypercube_sum(bound_tables(polys, chs.take(k + 1)), pow2((n - k - 1) as nat)) by {
        lemma_round_value_at_challenge(polys, chs, k as nat, n);
    }
    assert forall|k: int| 0 <= k < n - 1 implies #[trigger] fadd(ms[k + 1][0], ms[k + 1][1])
        == round_value(bound_tables(polys, chs.take(k)), chs[k], pow2((n - k - 1) as nat)) by {
        assert(round_msg_correct(polys, chs, k + 1, ms[k + 1], n));
        assert((n - (k + 1)) as nat == (n - k - 1) as nat);
    }
    if n >= 1 {
        lemma_round_chain_last(polys, chs, n);
    }
}

/// The last round's polynomial at the last challenge is the product of the
/// polynomials at the challenge point.
pub proof fn lemma_round_chain_last(polys: Seq<DenseMLPoly>, chs: Seq<int>, n: nat)
    requires
        n >= 1,
        chs.len() == n,
        forall|i: int| 0 <= i < polys.len() ==> (#[trigger] polys[i]).evaluations.len() == pow2(n),
    ensures
        round_value(bound_tables(polys, chs.take(n - 1)), chs[n - 1], 1) == mle_prod(
            polys,
            chs,
            polys.len(),
        ),
{
    let k = n - 1;
    lemma_round_value_at_challenge(polys, chs, k as nat, n);
    assert(chs.take(n as int) =~= chs);
    lemma2_to64();
    let ts = bound_tables(polys, chs);
    assert forall|i: int| 0 <= i < polys.len() implies #[trigger] ts[i].len() > 0 by {
        lemma_folds_len(polys[i].table(), chs, n);
    }
    lemma_point_prod_mle(polys, chs, polys.len());
    assert(hypercube_sum(ts, 0) == 0);
    assert(hypercube_sum(ts, 1) == fadd(0, point_prod(ts, 0, ts.len())));
    lemma_point_prod_range(ts, 0, ts.len());
    lemma_small_mod(point_prod(ts, 0, ts.len()) as nat, p() as nat);
}

pub(crate) proof fn lemma_point_prod_range(ts: Seq<Seq<int>>, x: int, k: nat)
    ensures
        0 <= point_prod(ts, x, k) < p(),
    decreases k,
{
    if k == 0 {
        lemma_small_mod(1, p() as nat);
    } else {
        lemma_mod_bound(point_prod(ts, x, (k - 1) as nat) * ts[k - 1][x], p());
    }
}

/// The coefficients (lowest degree first) of `Π_{i<k} (a_i + X·d_i)` with
/// `a_i = ts[i][2y]` and `d_i = ts[i][2y+1] - ts[i][2y]`: the product of
/// the tables at `y` as a polynomial in the current variable.
pub open spec fn g_poly(ts: Seq<Seq<int>>, y: int, k: nat) -> Seq<int>
    decreases k,
{
    if k == 0 {
        seq![1]
    } else {
        let prev = g_poly(ts, y, (k - 1) as nat);
        let a = ts[k - 1][2 * y];
        let d = ts[k - 1][2 * y + 1] - a;
        padd(scale(prev, a), scale(shift(prev), d))
    }
}

/// The coefficients of the round polynomial `Σ_{y<h} Π_i (a_i + X·d_i)`.
pub open spec fn round_poly(ts: Seq<Seq<int>>, h: nat) -> Seq<int>
    decreases h,
{
    if h == 0 {
        seq![]
    } else {
        padd(round_poly(ts, (h - 1) as nat), g_poly(ts, h - 1, ts.len()))
    }
}

pub(crate) proof fn lemma_g_poly(ts: Seq<Seq<int>>, y: int, k: nat, c: int)
    ensures
        cong(g_prod(ts, c, y, k), peval(g_poly(ts, y, k), c)),
        g_poly(ts, y, k).len() == k + 1,
    decreases k,
{
    if k == 0 {
        assert(peval(seq![1int], c) == 1 + c * peval(seq![1int].drop_first(), c));
        assert(seq![1int].drop_first().len() == 0);
        assert(peval(seq![1int].drop_first(), c) == 0);
        assert(c * 0 == 0) by (nonlinear_arith);
        lemma_small_mod(1, p() as nat);
    } else {
        let km = (k - 1) as nat;
        lemma_g_poly(ts, y, km, c);
        let prev = g_poly(ts, y, km);
        let a = ts[k - 1][2 * y];
        let b = ts[k - 1][2 * y + 1];
        let d = b - a;
        lemma_shift(prev, c);
        lemma_scale(prev, a, c);
        lemma_scale(shift(prev), d, c);
        lemma_padd(scale(prev, a), scale(shift(prev), d), c);
        let pv = peval(prev, c);
        // lerp(a, b, c) ≡ a + c·(b - a)
        lemma_cong_mod(b - a);
        lemma_cong_mul(c, fsub(b, a), c, b - a);
        lemma_cong_mod(c * fsub(b, a));
        lemma_cong_add(a, fmul(c, fsub(b, a)), a, c * (b - a));
        lemma_cong_mod(a + fmul(c, fsub(b, a)));
        let l = lerp(a, b, c);
        assert(cong(l, a + c * (b - a)));
        let gp = g_prod(ts, c, y, km);
        lemma_cong_mul(gp, l, pv, a + c * (b - a));
        lemma_cong_mod(gp * l);
        assert(a * pv + d * (c * pv) == pv * (a + c * (b - a))) by (nonlinear_arith)
            requires
                d == b - a,
        ;
    }
}

/// The round polynomial is a polynomial of degree at most `ℓ` in the
/// current variable: its coefficients are `round_poly`.
pub proof fn lemma_round_poly(ts: Seq<Seq<int>>, h: nat, c: int)
    ensures
        cong(round_value(ts, c, h), peval(round_poly(ts, h), c)),
        round_poly(ts, h).len() <= ts.len() + 1,
    decreases h,
{
    if h > 0 {
        let hm = (h - 1) as nat;
        lemma_round_poly(ts, hm, c);
        lemma_g_poly(ts, h - 1, ts.len(), c);
        lemma_padd(round_poly(ts, hm), g_poly(ts, h - 1, ts.len()), c);
        lemma_cong_add(
            round_value(ts, c, hm),
            g_prod(ts, c, h - 1, ts.len()),
            peval(round_poly(ts, hm), c),
            peval(g_poly(ts, h - 1, ts.len()), c),
        );
        lemma_cong_mod(round_value(ts, c, hm) + g_prod(ts, c, h - 1, ts.len()));
    } else {
        lemma_small_mod(0, p() as nat);
    }
}

/// The prover of the linear sumcheck protocol: `a_arrays` hold the
/// polynomials with their first `current_round` variables bound to
/// `challenges` (in the first `2^(num_var - current_round)` entries).
pub struct LinearSumcheckProver {
    pub num_var: usize,
    pub num_poly: usize,
    pub a_arrays: Vec<DenseMLPoly>,
    pub current_round: usize,
    pub challenges: Vec<Fe>,
}

impl LinearSumcheckProver {
    /// Entries of each table still in play.
    pub open spec fn table_size(&self) -> nat {
        pow2((self.num_var - self.current_round) as nat)
    }

    /// The current tables, as residues.
    pub open spec fn tables(&self) -> Seq<Seq<int>> {
        Seq::new(
            self.a_arrays.len() as nat,
            |i: int| fvals(self.a_arrays@[i].evaluations@).take(self.table_size() as int),
        )
    }

    /// The state invariant while a proof is under way.
    pub open spec fn inv(&self) -> bool {
        &&& self.a_arrays.len() == self.num_poly
        &&& pow2(self.num_var as nat) <= usize::MAX
        &&& self.current_round <= self.num_var
        &&& self.challenges.len() == self.current_round
        &&& forall|i: int|
            0 <= i < self.num_poly ==> #[trigger] self.a_arrays@[i].evaluations.len() == pow2(
                self.num_var as nat,
            )
    }

    pub(crate) proof fn lemma_tables_facts(&self)
        requires
            self.inv(),
        ensures
            self.tables().len() == self.num_poly,
            tables_in_range(self.tables()),
            self.table_size() <= pow2(self.num_var as nat),
            forall|i: int| 0 <= i < self.num_poly ==> #[trigger] self.tables()[i].len() == self.table_size(),
    {
        if self.current_round > 0 {
            lemma_pow2_strictly_increases(
                (self.num_var - self.current_round) as nat,
                self.num_var as nat,
            );
        }
        lemma_pow2_pos((self.num_var - self.current_round) as nat);
        assert forall|i: int| 0 <= i < self.num_poly implies #[trigger] self.tables()[i].len()
            == self.table_size() by {
            assert(self.a_arrays@[i].evaluations.len() == pow2(self.num_var as nat));
        }
        assert forall|i: int, x: int|
            0 <= i < self.tables().len() && 0 <= x < self.tables()[i].len() implies 0
            <= #[trigger] self.tables()[i][x] < p() by {
            assert(self.a_arrays@[i].evaluations.len() == pow2(self.num_var as nat));
            lemma_fe_range(self.a_arrays@[i].evaluations@[x]);
        }
    }

    /// `Π_i lerp(A_i[2y], A_i[2y+1], c)`.
    fn compute_g_value(&self, c: &Fe, y: usize) -> (r: Fe)
        requires
            self.inv(),
            self.current_round < self.num_var,
            2 * y + 1 < self.table_size(),
        ensures
            r@ == g_prod(self.tables(), c@, y as int, self.num_poly as nat),
    {
        proof {
            self.lemma_tables_facts();
        }
        let mut acc = Fe::one();
        let mut i: usize = 0;
        while i < self.num_poly
            invariant
                self.inv(),
                2 * y + 1 < self.table_size(),
                self.table_size() <= pow2(self.num_var as nat),
                forall|k: int| 0 <= k < self.num_poly ==> #[trigger] self.tables()[k].len() == self.table_size(),
                i <= self.num_poly,
                acc@ == g_prod(self.tables(), c@, y as int, i as nat),
            decreases self.num_poly - i,
        {
            proof {
                assert(self.a_arrays@[i as int].evaluations.len() == pow2(self.num_var as nat));
            }
            let v0 = self.a_arrays[i].evaluations[2 * y];
            let v1 = self.a_arrays[i].evaluations[2 * y + 1];
            let l = v0.add(&c.mul(&v1.sub(&v0)));
            proof {
                let t = self.tables()[i as int];
                assert(t[2 * y as int] == v0@);
                assert(t[2 * y as int + 1] == v1@);
            }
            acc = acc.mul(&l);
            i = i + 1;
        }
        acc
    }

    /// The round message: the round polynomial `s(c) = Σ_y Π_i A_i(c, y)`
    /// at `c = 0, 1, ..., num_poly`.
    pub fn compute_round_message(&self) -> (r: Vec<Fe>)
        requires
            self.inv(),
            self.current_round < self.num_var,
            self.num_poly < MODULUS,
            self.num_poly < usize::MAX,
        ensures
            r.len() == self.num_poly + 1,
            forall|j: int|
                0 <= j <= self.num_poly ==> (#[trigger] r@[j])@ == round_value(
                    self.tables(),
                    j,
                    self.table_size() / 2,
                ),
    {
        proof {
            self.lemma_tables_facts();
            lemma_pow2_unfold((self.num_var - self.current_round) as nat);
        }
        let size = pow2_usize(self.num_var - self.current_round);
        let half = size / 2;
        let mut r: Vec<Fe> = Vec::new();
        let mut j: usize = 0;
        while j <= self.num_poly
            invariant
                self.inv(),
                self.current_round < self.num_var,
                self.num_poly < MODULUS,
                self.num_poly < usize::MAX,
                size == self.table_size(),
                half == size / 2,
                size % 2 == 0,
                j <= self.num_poly + 1,
                r.len() == j,
                forall|k: int|
                    0 <= k < j ==> (#[trigger] r@[k])@ == round_value(self.tables(), k, half as nat),
            decreases self.num_poly + 1 - j,
        {
            let c = Fe::from_u64(j as u64);
            proof {
                lemma_small_mod(j as nat, p() as nat);
            }
            let mut sum = Fe::zero();
            let mut y: usize = 0;
            while y < half
                invariant
                    self.inv(),
                    self.current_round < self.num_var,
                    size == self.table_size(),
                    half == size / 2,
                    size % 2 == 0,
                    y <= half,
                    c@ == j,
                    sum@ == round_value(self.tables(), j as int, y as nat),
                decreases half - y,
            {
                let g = self.compute_g_value(&c, y);
                sum = sum.add(&g);
                y = y + 1;
            }
            r.push(sum);
            j = j + 1;
        }
        r
    }

    /// The product of the fully bound polynomials, once all rounds are done.
    pub fn final_evaluation(&self) -> (r: Fe)
        requires
            self.inv(),
            self.current_round == self.num_var,
        ensures
            r@ == point_prod(self.tables(), 0, self.num_poly as nat),
    {
        proof {
            self.lemma_tables_facts();
            lemma2_to64();
        }
        let mut acc = Fe::one();
        let mut i: usize = 0;
        while i < self.num_poly
            invariant
                self.inv(),
                self.current_round == self.num_var,
                self.table_size() == 1,
                i <= self.num_poly,
                acc@ == point_prod(self.tables(), 0, i as nat),
            decreases self.num_poly - i,
        {
            proof {
                assert(self.a_arrays@[i as int].evaluations.len() == pow2(self.num_var as nat));
                lemma_pow2_pos(self.num_var as nat);
            }
            if !self.a_arrays[i].is_empty() {
                let v = self.a_arrays[i].evaluations[0];
                proof {
                    assert(self.tables()[i as int][0] == v@);
                }
                acc = acc.mul(&v);
            }
            i = i + 1;
        }
        acc
    }

    /// Records the verifier's challenge and binds the current variable to it.
    pub fn receive_challenge(&mut self, challenge: Fe)
        requires
            old(self).inv(),
            old(self).current_round < old(self).num_var,
        ensures
            final(self).inv(),
            final(self).num_var == old(self).num_var,
            final(self).num_poly == old(self).num_poly,
            final(self).current_round == old(self).current_round + 1,
            final(self).challenges@ == old(self).challenges@.push(challenge),
            final(self).tables() == Seq::new(
                old(self).num_poly as nat,
                |i: int| fold_first(old(self).tables()[i], challenge@),
            ),
    {
        self.challenges.push(challenge);
        self.bind_variable_to_challenge(&challenge);
        self.current_round = self.current_round + 1;
        proof {
            let m = (old(self).num_var - old(self).current_round) as nat;
            lemma_pow2_unfold(m);
            assert(self.table_size() == old(self).table_size() / 2);
            assert(self.tables() =~= Seq::new(
                old(self).num_poly as nat,
                |i: int| fold_first(old(self).tables()[i], challenge@),
            ));
        }
    }

    fn bind_variable_to_challenge(&mut self, r_m: &Fe)
        requires
            old(self).a_arrays.len() == old(self).num_poly,
            old(self).current_round < old(self).num_var,
            pow2(old(self).num_var as nat) <= usize::MAX,
            forall|i: int|
                0 <= i < old(self).num_poly ==> #[trigger] old(self).a_arrays@[i].evaluations.len()
                    == pow2(old(self).num_var as nat),
        ensures
            final(self).num_var == old(self).num_var,
            final(self).num_poly == old(self).num_poly,
            final(self).current_round == old(self).current_round,
            final(self).challenges == old(self).challenges,
            final(self).a_arrays.len() == old(self).num_poly,
            forall|i: int|
                0 <= i < old(self).num_poly ==> #[trigger] final(self).a_arrays@[i].evaluations.len()
                    == pow2(old(self).num_var as nat),
            forall|i: int|
                0 <= i < old(self).num_poly ==> fvals(
                    #[trigger] final(self).a_arrays@[i].evaluations@,
                ).take((old(self).table_size() / 2) as int) == fold_first(
                    fvals(old(self).a_arrays@[i].evaluations@).take(old(self).table_size() as int),
                    r_m@,
                ),
    {
        let ghost old_arrays = self.a_arrays@;
        proof {
            lemma_pow2_unfold((self.num_var - self.current_round) as nat);
            if self.current_round > 0 {
                lemma_pow2_strictly_increases(
                    (self.num_var - self.current_round) as nat,
                    self.num_var as nat,
                );
            }
        }
        let size = pow2_usize(self.num_var - self.current_round);
        let mut i: usize = 0;
        while i < self.num_poly
            invariant
                i <= self.num_poly,
                self.a_arrays.len() == self.num_poly,
                old_arrays.len() == self.num_poly,
                size == pow2((self.num_var - self.current_round) as nat),
                size % 2 == 0,
                size <= pow2(self.num_var as nat),
                pow2(self.num_var as nat) <= usize::MAX,
                self.num_var == old(self).num_var,
                self.num_poly == old(self).num_poly,
                self.current_round == old(self).current_round,
                self.challenges == old(self).challenges,
                old_arrays == old(self).a_arrays@,
                forall|k: int|
                    0 <= k < self.num_poly ==> #[trigger] old_arrays[k].evaluations.len() == pow2(
                        self.num_var as nat,
                    ),
                forall|k: int|
                    0 <= k < self.num_poly ==> #[trigger] self.a_arrays@[k].evaluations.len() == pow2(
                        self.num_var as nat,
                    ),
                forall|k: int| i <= k < self.num_poly ==> #[trigger] self.a_arrays@[k] == old_arrays[k],
                forall|k: int|
                    0 <= k < i ==> fvals(#[trigger] self.a_arrays@[k].evaluations@).take(
                        (size / 2) as int,
                    ) == fold_first(fvals(old_arrays[k].evaluations@).take(size as int), r_m@),
            decreases self.num_poly - i,
        {
            proof {
                assert(self.a_arrays@[i as int].evaluations.len() == pow2(self.num_var as nat));
            }
            let mut ev = copy_fes(&self.a_arrays[i].evaluations);
            fold_prefix(&mut ev, size, r_m);
            let nv = self.a_arrays[i].num_vars;
            self.a_arrays.set(i, DenseMLPoly { num_vars: nv, evaluations: ev });
            i = i + 1;
        }
    }


    /// Loads the instances into the prover's tables.
    pub(crate) fn load_instances(&mut self, instances: &Vec<DenseMLPoly>)
        requires
            old(self).current_round == 0,
            old(self).challenges.len() == 0,
            instances.len() >= 1,
            instances.len() == old(self).num_poly,
            forall|i: int|
                0 <= i < instances.len() ==> #[trigger] instances@[i].evaluations.len() == pow2(
                    old(self).num_var as nat,
                ),
        ensures
            final(self).inv(),
            final(self).num_var == old(self).num_var,
            final(self).num_poly == old(self).num_poly,
            final(self).current_round == 0,
            final(self).challenges@ == old(self).challenges@,
            final(self).tables() == bound_tables(instances@, seq![]),
    {
        let n = self.num_var;
        let np = self.num_poly;
        let ghost polys = instances@;
        let mut arrays: Vec<DenseMLPoly> = Vec::new();
        let mut i: usize = 0;
        while i < instances.len()
            invariant
                i <= instances.len(),
                arrays.len() == i,
                forall|k: int|
                    0 <= k < i ==> (#[trigger] arrays@[k]).evaluations@ == instances@[k].evaluations@,
            decreases instances.len() - i,
        {
            let ev = copy_fes(&instances[i].evaluations);
            arrays.push(DenseMLPoly { num_vars: instances[i].num_vars, evaluations: ev });
            i = i + 1;
        }
        self.a_arrays = arrays;
        proof {
            assert(instances@[0].evaluations.len() == pow2(n as nat));
            assert forall|k: int| 0 <= k < np implies #[trigger] self.a_arrays@[k].evaluations.len()
                == pow2(n as nat) by {
                assert(instances@[k].evaluations.len() == pow2(n as nat));
            }
            assert(self.inv());
            assert(self.tables() =~= bound_tables(polys, seq![])) by {
                assert forall|k: int| 0 <= k < np implies #[trigger] self.tables()[k]
                    == bound_tables(polys, seq![])[k] by {
                    assert(instances@[k].evaluations.len() == pow2(n as nat));
                    assert(fvals(self.a_arrays@[k].evaluations@).take(pow2(n as nat) as int)
                        =~= polys[k].table());
                }
            }
        }
    }
}

impl SumcheckProver for LinearSumcheckProver {
    type Instance = Vec<DenseMLPoly>;

    /// A fresh prover, and instances of the declared count and size.
    open spec fn ready(&self, instances: &Vec<DenseMLPoly>) -> bool {
        &&& self.current_round == 0
        &&& self.challenges.len() == 0
        &&& instances.len() >= 1
        &&& instances.len() == self.num_poly
        &&& self.num_poly < MODULUS
        &&& self.num_poly < usize::MAX
        &&& forall|i: int|
            0 <= i < instances.len() ==> #[trigger] instances@[i].evaluations.len() == pow2(
                self.num_var as nat,
            )
    }

    /// A prover for `num_polys` polynomials in `num_var` variables; the
    /// instance size is absorbed into the transcript.
    fn new(num_var: usize, num_polys: usize, transcript: &mut Transcript) -> (r: Self)
        ensures
            r.num_var == num_var,
            r.num_poly == num_polys,
            r.a_arrays.len() == 0,
            r.current_round == 0,
            r.challenges.len() == 0,
            final(transcript)@ == t_append_u64(
                t_append_u64(old(transcript)@, LABEL_NUM_VAR, num_var as u64),
                LABEL_NUM_POLY,
                num_polys as u64,
            ),
    {
        transcript.append_u64(LABEL_NUM_VAR, num_var as u64);
        transcript.append_u64(LABEL_NUM_POLY, num_polys as u64);
        LinearSumcheckProver {
            num_var,
            num_poly: num_polys,
            a_arrays: Vec::new(),
            current_round: 0,
            challenges: Vec::new(),
        }
    }


    /// Runs the protocol on `instances`, drawing challenges from the
    /// transcript (Fiat-Shamir).
    fn prove(&mut self, instances: &Vec<DenseMLPoly>, transcript: &mut Transcript) -> (proof:
        SumcheckProof)
        ensures
            final(self).inv(),
            final(self).num_var == old(self).num_var,
            final(self).num_poly == old(self).num_poly,
            final(self).current_round == old(self).num_var,
            proof.round_messages.len() == old(self).num_var,
            forall|k: int|
                0 <= k < old(self).num_var ==> #[trigger] proof.round_messages@[k].len()
                    == old(self).num_poly + 1,
            ({
                let ms = msgs_vals(proof.round_messages@);
                let chs = rounds_challenges(old(transcript)@, ms);
                &&& final(transcript)@ == rounds_log(old(transcript)@, ms)
                &&& fvals(final(self).challenges@) == chs
                &&& forall|k: int|
                    0 <= k < old(self).num_var ==> #[trigger] round_msg_correct(
                        instances@,
                        chs,
                        k,
                        ms[k],
                        old(self).num_var as nat,
                    )
                &&& proof.final_eval@ == mle_prod(instances@, chs, old(self).num_poly as nat)
            }),
            proof.zk_mask_sum is None,
            proof.zk_mask_coeffs is None,
            proof.zk_mask_commitment is None,
            proof.zk_mask_opening_proof is None,
            proof.zk_mask_opening_point is None,
            proof.zk_mask_opening_eval is None,
    {
        let n = self.num_var;
        let np = self.num_poly;
        let ghost polys = instances@;
        let ghost log0 = transcript@;
        self.load_instances(instances);
        proof {
            assert(msgs_vals(Seq::<Vec<Fe>>::empty()) =~= seq![]);
            assert(fvals(self.challenges@) =~= seq![]);
        }
        let mut round_messages: Vec<Vec<Fe>> = Vec::new();
        let mut round: usize = 0;
        while round < n
            invariant
                self.inv(),
                self.num_var == n,
                self.num_poly == np,
                np == polys.len(),
                np >= 1,
                np < MODULUS,
                np < usize::MAX,
                self.current_round == round,
                round <= n,
                round_messages.len() == round,
                forall|k: int|
                    0 <= k < round ==> #[trigger] round_messages@[k].len() == np + 1,
                fvals(self.challenges@) == rounds_challenges(log0, msgs_vals(round_messages@)),
                transcript@ == rounds_log(log0, msgs_vals(round_messages@)),
                self.tables() == bound_tables(polys, fvals(self.challenges@)),
                forall|k: int|
                    0 <= k < round ==> #[trigger] round_msg_correct(
                        polys,
                        fvals(self.challenges@),
                        k,
                        msgs_vals(round_messages@)[k],
                        n as nat,
                    ),
            decreases n - round,
        {
            let ghost ts = self.tables();
            let ghost chs = fvals(self.challenges@);
            let ghost ms = msgs_vals(round_messages@);
            let msg = self.compute_round_message();
            proof {
                self.lemma_tables_facts();
                lemma_pow2_unfold((n - round) as nat);
                lemma_round_sum(ts, pow2((n - round - 1) as nat));
                assert(chs.take(round as int) =~= chs);
                assert(round_msg_correct(polys, chs, round as int, fvals(msg@), n as nat)) by {
                    assert(fvals(msg@)[0] == msg@[0]@);
                    assert(fvals(msg@)[1] == msg@[1]@);
                }
            }
            let ch = absorb_round(transcript, &msg);
            round_messages.push(msg);
            self.receive_challenge(ch);
            proof {
                let ms2 = msgs_vals(round_messages@);
                assert(ms2 =~= ms.push(fvals(msg@)));
                assert(ms2.drop_last() =~= ms);
                assert(fvals(self.challenges@) =~= chs.push(ch@));
                lemma_bound_tables_push(polys, chs, ch@);
                assert(self.tables() =~= bound_tables(polys, fvals(self.challenges@)));
                lemma_msgs_correct_push(polys, chs, ch@, ms, fvals(msg@), n as nat);
            }
            round = round + 1;
        }
        let final_eval = self.final_evaluation();
        proof {
            self.lemma_tables_facts();
            lemma2_to64();
            lemma_point_prod_mle(polys, fvals(self.challenges@), np as nat);
        }
        SumcheckProof {
            final_eval,
            round_messages,
            zk_mask_sum: None,
            zk_mask_coeffs: None,
            zk_mask_commitment: None,
            zk_mask_opening_proof: None,
            zk_mask_opening_point: None,
            zk_mask_opening_eval: None,
        }
    }
}

} // verus!
