//! Exactness of Lagrange interpolation: a polynomial of degree below the
//! number of nodes is recovered from its values at the nodes, wherever the
//! inversion checks of the interpolation pass.
use crate::util::field::{
    cong, fadd, fmul, fpow, fsub, lemma_cong_add, lemma_cong_mod, lemma_cong_mul,
    lemma_cong_residues, lemma_cong_sub, lemma_residue, p,
};
use crate::util::poly::{
    inv_ok, interp_defined, interp_sum, interpolate, lagrange_basis_at, prod_except,
};
use vstd::arithmetic::div_mod::*;
use vstd::prelude::*;

verus! {

/// The polynomial with coefficients `cs` (lowest degree first) at `x`,
/// over the integers.
pub open spec fn peval(cs: Seq<int>, x: int) -> int
    decreases cs.len(),
{
    if cs.len() == 0 {
        0
    } else {
        cs[0] + x * peval(cs.drop_first(), x)
    }
}

/// The quotient of `cs` by `X - a` (synthetic division).
pub open spec fn quot(cs: Seq<int>, a: int) -> Seq<int>
    decreases cs.len(),
{
    if cs.len() <= 1 {
        seq![]
    } else {
        seq![peval(cs.drop_first(), a)] + quot(cs.drop_first(), a)
    }
}

/// `X·cs`.
pub open spec fn shift(cs: Seq<int>) -> Seq<int> {
    seq![0] + cs
}

/// `b·cs`.
pub open spec fn scale(cs: Seq<int>, b: int) -> Seq<int> {
    cs.map_values(|c: int| b * c)
}

/// `cs + ds`.
pub open spec fn padd(cs: Seq<int>, ds: Seq<int>) -> Seq<int> {
    let n = if cs.len() >= ds.len() {
        cs.len()
    } else {
        ds.len()
    };
    Seq::new(
        n,
        |j: int|
            (if j < cs.len() {
                cs[j]
            } else {
                0
            }) + (if j < ds.len() {
                ds[j]
            } else {
                0
            }),
    )
}

/// `w` is an inverse of `d` modulo `p`.
pub open spec fn is_inverse(d: int, w: int) -> bool {
    cong(d * w, 1)
}

/// `d` has an inverse modulo `p`.
pub open spec fn invertible(d: int) -> bool {
    exists|w: int| #[trigger] is_inverse(d, w)
}

pub proof fn lemma_quot_len(cs: Seq<int>, a: int)
    ensures
        quot(cs, a).len() == if cs.len() == 0 {
            0
        } else {
            cs.len() - 1
        },
    decreases cs.len(),
{
    if cs.len() > 1 {
        lemma_quot_len(cs.drop_first(), a);
    }
}

/// Synthetic division: `cs(x) - cs(a) = (x - a)·q(x)`.
pub proof fn lemma_quot(cs: Seq<int>, a: int, x: int)
    ensures
        peval(cs, x) - peval(cs, a) == (x - a) * peval(quot(cs, a), x),
    decreases cs.len(),
{
    if cs.len() <= 1 {
        assert(quot(cs, a) == Seq::<int>::empty());
        assert(peval(Seq::<int>::empty(), x) == 0);
        if cs.len() == 1 {
            assert(cs.drop_first().len() == 0);
            assert(peval(cs.drop_first(), x) == 0);
            assert(peval(cs.drop_first(), a) == 0);
            assert(x * 0 == 0 && a * 0 == 0) by (nonlinear_arith);
        }
        assert((x - a) * 0 == 0) by (nonlinear_arith);
    } else {
        let rest = cs.drop_first();
        lemma_quot(rest, a, x);
        let q = quot(cs, a);
        let rq = quot(rest, a);
        assert(q.drop_first() =~= rq);
        let big_r = peval(rest, a);
        let qv = peval(rq, x);
        assert(peval(q, x) == big_r + x * qv);
        let rx = peval(rest, x);
        assert(peval(cs, x) - peval(cs, a) == (x - a) * (big_r + x * qv)) by (nonlinear_arith)
            requires
                rx - big_r == (x - a) * qv,
                peval(cs, x) == cs[0] + x * rx,
                peval(cs, a) == cs[0] + a * big_r,
        ;
    }
}

pub proof fn lemma_shift(cs: Seq<int>, x: int)
    ensures
        peval(shift(cs), x) == x * peval(cs, x),
{
    assert(shift(cs).drop_first() =~= cs);
}

pub proof fn lemma_scale(cs: Seq<int>, b: int, x: int)
    ensures
        peval(scale(cs, b), x) == b * peval(cs, x),
        scale(cs, b).len() == cs.len(),
    decreases cs.len(),
{
    if cs.len() == 0 {
        assert(b * 0 == 0) by (nonlinear_arith);
    } else {
        lemma_scale(cs.drop_first(), b, x);
        assert(scale(cs, b).drop_first() =~= scale(cs.drop_first(), b));
        let v = peval(cs.drop_first(), x);
        assert(b * cs[0] + x * (b * v) == b * (cs[0] + x * v)) by (nonlinear_arith);
    }
}

pub proof fn lemma_padd(cs: Seq<int>, ds: Seq<int>, x: int)
    ensures
        peval(padd(cs, ds), x) == peval(cs, x) + peval(ds, x),
        padd(cs, ds).len() == if cs.len() >= ds.len() {
            cs.len()
        } else {
            ds.len()
        },
    decreases cs.len() + ds.len(),
{
    let s = padd(cs, ds);
    if cs.len() == 0 && ds.len() == 0 {
    } else if cs.len() == 0 {
        assert(s =~= ds);
    } else if ds.len() == 0 {
        assert(s =~= cs);
    } else {
        lemma_padd(cs.drop_first(), ds.drop_first(), x);
        assert(s.drop_first() =~= padd(cs.drop_first(), ds.drop_first()));
        let u = peval(cs.drop_first(), x);
        let v = peval(ds.drop_first(), x);
        assert(x * (u + v) == x * u + x * v) by (nonlinear_arith);
    }
}

/// A polynomial of degree below the number of nodes that vanishes (modulo
/// `p`) at every node, whose pairwise differences are invertible, vanishes
/// everywhere.
pub proof fn lemma_roots_vanish(cs: Seq<int>, xs: Seq<int>, r: int)
    requires
        cs.len() <= xs.len(),
        forall|k: int| 0 <= k < xs.len() ==> #[trigger] cong(peval(cs, xs[k]), 0),
        forall|i: int, j: int|
            0 <= i < xs.len() && 0 <= j < xs.len() && i != j ==> #[trigger] invertible(
                xs[i] - xs[j],
            ),
    ensures
        cong(peval(cs, r), 0),
    decreases xs.len(),
{
    if cs.len() == 0 {
    } else {
        let a = xs[0];
        let q = quot(cs, a);
        lemma_quot_len(cs, a);
        let xs2 = xs.drop_first();
        assert(cong(peval(cs, a), 0));
        assert forall|k: int| 0 <= k < xs2.len() implies #[trigger] cong(peval(q, xs2[k]), 0) by {
            let x = xs2[k];
            assert(x == xs[k + 1]);
            assert(cong(peval(cs, xs[k + 1]), 0));
            lemma_quot(cs, a, x);
            assert(invertible(xs[k + 1] - xs[0]));
            let w = choose|w: int| #[trigger] is_inverse(x - a, w);
            // (x - a)·q(x) ≡ 0, so q(x) ≡ w·(x - a)·q(x) ≡ 0
            lemma_cong_sub(peval(cs, x), peval(cs, a), 0, 0);
            assert(cong((x - a) * peval(q, x), 0));
            lemma_cong_mul(w, (x - a) * peval(q, x), w, 0);
            lemma_cong_mul((x - a) * w, peval(q, x), 1, peval(q, x));
            assert(w * ((x - a) * peval(q, x)) == ((x - a) * w) * peval(q, x)) by (nonlinear_arith);
            assert(w * 0 == 0);
            assert(1 * peval(q, x) == peval(q, x));
        }
        assert forall|i: int, j: int|
            0 <= i < xs2.len() && 0 <= j < xs2.len() && i != j implies #[trigger] invertible(
                xs2[i] - xs2[j],
            ) by {
            assert(invertible(xs[i + 1] - xs[j + 1]));
        }
        lemma_roots_vanish(q, xs2, r);
        lemma_quot(cs, a, r);
        lemma_cong_mul(r - a, peval(q, r), r - a, 0);
        assert((r - a) * 0 == 0) by (nonlinear_arith);
        lemma_cong_add((r - a) * peval(q, r), peval(cs, a), 0, 0);
    }
}

/// The coefficients of `Π_{j<k, j≠i} (X - j)`.
pub open spec fn prod_except_poly(i: int, k: nat) -> Seq<int>
    decreases k,
{
    if k == 0 {
        seq![1]
    } else {
        let prev = prod_except_poly(i, (k - 1) as nat);
        if k - 1 == i {
            prev
        } else {
            padd(shift(prev), scale(prev, -(k - 1)))
        }
    }
}

proof fn lemma_prod_except_poly(i: int, k: nat, a: int)
    requires
        0 <= i,
    ensures
        cong(prod_except(a, i, k), peval(prod_except_poly(i, k), a)),
        prod_except_poly(i, k).len() == if i < k {
            k as int
        } else {
            k + 1int
        },
    decreases k,
{
    if k == 0 {
        assert(peval(seq![1int], a) == 1 + a * peval(seq![1int].drop_first(), a));
        assert(seq![1int].drop_first().len() == 0);
        assert(a * 0 == 0) by (nonlinear_arith);
    } else {
        let km = (k - 1) as nat;
        lemma_prod_except_poly(i, km, a);
        let prev = prod_except_poly(i, km);
        if k - 1 != i {
            let pv = prod_except(a, i, km);
            let qv = peval(prev, a);
            lemma_shift(prev, a);
            lemma_scale(prev, -(k - 1), a);
            lemma_padd(shift(prev), scale(prev, -(k - 1)), a);
            lemma_cong_mod(a - (k - 1));
            lemma_cong_mul(pv, fsub(a, k - 1), qv, a - (k - 1));
            lemma_cong_mod(pv * fsub(a, k - 1));
            assert(a * qv + (-(k - 1)) * qv == qv * (a - (k - 1))) by (nonlinear_arith);
        }
    }
}

/// `prod_except(a, i, k)` has the factor `a - j` for every `j < k`, `j ≠ i`.
proof fn lemma_prod_except_factor(a: int, i: int, j: int, k: nat) -> (t: int)
    requires
        0 <= j < k,
        j != i,
    ensures
        cong(prod_except(a, i, k), (a - j) * t),
    decreases k,
{
    let km = (k - 1) as nat;
    let prev = prod_except(a, i, km);
    if k - 1 == j {
        lemma_cong_mod(a - j);
        lemma_cong_mul(prev, fsub(a, j), prev, a - j);
        lemma_cong_mod(prev * fsub(a, j));
        assert(prev * (a - j) == (a - j) * prev) by (nonlinear_arith);
        prev
    } else {
        let t0 = lemma_prod_except_factor(a, i, j, km);
        if k - 1 == i {
            t0
        } else {
            let f = fsub(a, k - 1);
            lemma_cong_mul(prev, f, (a - j) * t0, f);
            lemma_cong_mod(prev * f);
            assert((a - j) * t0 * f == (a - j) * (t0 * f)) by (nonlinear_arith);
            t0 * f
        }
    }
}

/// At a node `m ≠ i` (with `m < k`) the product vanishes.
proof fn lemma_prod_except_zero(m: int, i: int, k: nat)
    requires
        0 <= m < k,
        m != i,
    ensures
        prod_except(m, i, k) == 0,
    decreases k,
{
    let km = (k - 1) as nat;
    if k - 1 == m {
        lemma_small_mod(0, p() as nat);
        assert(fsub(m, m) == 0);
        assert(prod_except(m, i, km) * 0 == 0) by (nonlinear_arith);
    } else {
        lemma_prod_except_zero(m, i, km);
        if k - 1 != i {
            assert(0 * fsub(m, k - 1) == 0) by (nonlinear_arith);
            lemma_small_mod(0, p() as nat);
        }
    }
}

/// The Lagrange basis polynomial `L_i` at a node `m`: 1 at `m = i`, else 0.
proof fn lemma_basis_at_node(m: int, i: int, n: nat)
    requires
        0 <= m < n,
        0 <= i < n,
        interp_defined(n),
    ensures
        lagrange_basis_at(m, i, n) == if m == i {
            1int
        } else {
            0int
        },
{
    if m == i {
        assert(inv_ok(prod_except(i, i, n)));
    } else {
        lemma_prod_except_zero(m, i, n);
        assert(0 * fpow(prod_except(i, i, n), (p() - 2) as nat) == 0) by (nonlinear_arith);
        lemma_small_mod(0, p() as nat);
    }
}

/// `Σ_{i<k} ys[i]·c_i·Π_{j≠i}(X - j)`: the interpolating polynomial's
/// first `k` terms, `c_i` the inverted denominators.
pub open spec fn interp_poly(ys: Seq<int>, k: nat) -> Seq<int>
    decreases k,
{
    if k == 0 {
        seq![]
    } else {
        let i = k - 1;
        let c = fpow(prod_except(i, i, ys.len()), (p() - 2) as nat);
        padd(interp_poly(ys, (k - 1) as nat), scale(prod_except_poly(i, ys.len()), ys[i] * c))
    }
}

proof fn lemma_interp_poly(ys: Seq<int>, k: nat, r: int)
    requires
        k <= ys.len(),
    ensures
        cong(interp_sum(ys, r, k), peval(interp_poly(ys, k), r)),
        interp_poly(ys, k).len() <= ys.len(),
    decreases k,
{
    let n = ys.len();
    if k > 0 {
        let km = (k - 1) as nat;
        let i = k - 1;
        lemma_interp_poly(ys, km, r);
        let c = fpow(prod_except(i, i, n), (p() - 2) as nat);
        let pp = prod_except_poly(i, n);
        lemma_prod_except_poly(i, n, r);
        lemma_scale(pp, ys[i] * c, r);
        lemma_padd(interp_poly(ys, km), scale(pp, ys[i] * c), r);
        let pe = prod_except(r, i, n);
        let prev = interp_sum(ys, r, km);
        // ys[i]·(pe·c) ≡ (ys[i]·c)·peval(pp, r)
        lemma_cong_mod(pe * c);
        lemma_cong_mul(pe, c, peval(pp, r), c);
        lemma_cong_mul(ys[i], fmul(pe, c), ys[i], peval(pp, r) * c);
        lemma_cong_mod(ys[i] * fmul(pe, c));
        assert(ys[i] * (peval(pp, r) * c) == (ys[i] * c) * peval(pp, r)) by (nonlinear_arith);
        lemma_cong_add(prev, fmul(ys[i], fmul(pe, c)), peval(interp_poly(ys, km), r), (ys[i] * c) * peval(pp, r));
        lemma_cong_mod(prev + fmul(ys[i], fmul(pe, c)));
    }
}

/// At a node `m`, the interpolation sum over the first `k` basis
/// polynomials is `ys[m]` if `m < k`, else 0.
proof fn lemma_interp_sum_at_node(ys: Seq<int>, m: int, k: nat)
    requires
        k <= ys.len(),
        0 <= m < ys.len(),
        interp_defined(ys.len()),
    ensures
        cong(interp_sum(ys, m, k), if m < k {
            ys[m]
        } else {
            0int
        }),
    decreases k,
{
    if k > 0 {
        let km = (k - 1) as nat;
        lemma_interp_sum_at_node(ys, m, km);
        let i = k - 1;
        lemma_basis_at_node(m, i, ys.len());
        let prev = interp_sum(ys, m, km);
        let b = lagrange_basis_at(m, i, ys.len());
        if m == i {
            assert(ys[i] * 1 == ys[i]);
            lemma_cong_mod(ys[i]);
            lemma_cong_add(prev, fmul(ys[i], b), 0, ys[i]);
        } else {
            assert(ys[i] * 0 == 0);
            lemma_small_mod(0, p() as nat);
            lemma_cong_add(prev, fmul(ys[i], b), if m < km { ys[m] } else { 0int }, 0);
        }
        lemma_cong_mod(prev + fmul(ys[i], b));
    }
}

/// The nodes `0..n` have invertible differences when the inversion checks
/// of the interpolation pass.
proof fn lemma_nodes_invertible(n: nat, i: int, j: int)
    requires
        interp_defined(n),
        0 <= i < n,
        0 <= j < n,
        i != j,
    ensures
        invertible(i - j),
{
    let a = prod_except(i, i, n);
    let w = fpow(a, (p() - 2) as nat);
    assert(inv_ok(a));
    let t = lemma_prod_except_factor(i, i, j, n);
    // (i - j)·(t·w) ≡ a·w ≡ 1
    lemma_cong_mul(a, w, (i - j) * t, w);
    assert((i - j) * t * w == (i - j) * (t * w)) by (nonlinear_arith);
    lemma_small_mod(1, p() as nat);
    assert(is_inverse(i - j, t * w));
}

/// Lagrange interpolation through the nodes `0..n` is exact on
/// polynomials with at most `n` coefficients: wherever the inversion checks
/// pass, interpolating the polynomial's values at the nodes gives its value
/// anywhere.
pub proof fn lemma_interpolation_exact(cs: Seq<int>, ys: Seq<int>, r: int)
    requires
        cs.len() <= ys.len(),
        forall|m: int| 0 <= m < ys.len() ==> cong(#[trigger] ys[m], peval(cs, m)),
        interp_defined(ys.len()),
    ensures
        interpolate(ys, r) == Some(peval(cs, r) % p()),
{
    let n = ys.len();
    let lp = interp_poly(ys, n);
    lemma_interp_poly(ys, n, r);
    let d = padd(cs, scale(lp, -1));
    lemma_scale(lp, -1, r);
    lemma_padd(cs, scale(lp, -1), r);
    let xs = Seq::new(n, |k: int| k);
    assert forall|k: int| 0 <= k < xs.len() implies #[trigger] cong(peval(d, xs[k]), 0) by {
        let m = xs[k];
        assert(m == k);
        lemma_interp_poly(ys, n, m);
        lemma_scale(lp, -1, m);
        lemma_padd(cs, scale(lp, -1), m);
        lemma_interp_sum_at_node(ys, m, n);
        assert(cong(ys[m], peval(cs, m)));
        // d(m) = cs(m) - lp(m) ≡ ys[m] - ys[m]
        lemma_cong_sub(peval(cs, m), peval(lp, m), ys[m], ys[m]);
        assert(peval(d, m) == peval(cs, m) - peval(lp, m));
    }
    assert forall|i: int, j: int|
        0 <= i < xs.len() && 0 <= j < xs.len() && i != j implies #[trigger] invertible(xs[i] - xs[j]) by {
        lemma_nodes_invertible(n, i, j);
    }
    lemma_scale(lp, -1, 0);
    lemma_padd(cs, scale(lp, -1), 0);
    assert(d.len() <= n);
    lemma_roots_vanish(d, xs, r);
    // cs(r) ≡ lp(r) ≡ interp_sum
    assert(peval(d, r) == peval(cs, r) - peval(lp, r));
    lemma_cong_add(peval(d, r), peval(lp, r), 0, interp_sum(ys, r, n));
    assert(peval(d, r) + peval(lp, r) == peval(cs, r));
    lemma_interp_sum_range(ys, r, n);
    lemma_cong_mod(peval(cs, r));
    lemma_residue(peval(cs, r));
    lemma_cong_residues(interp_sum(ys, r, n), peval(cs, r) % p());
}

proof fn lemma_interp_sum_range(ys: Seq<int>, r: int, k: nat)
    ensures
        0 <= interp_sum(ys, r, k) < p(),
{
    if k == 0 {
    } else {
        lemma_residue(interp_sum(ys, r, (k - 1) as nat) + fmul(ys[k - 1], lagrange_basis_at(r, k - 1, ys.len())));
    }
}

/// `Σ_{j<k} cs[j]·x^j` over the integers.
pub open spec fn power_sum(cs: Seq<int>, x: int, k: nat) -> int
    decreases k,
{
    if k == 0 {
        0
    } else {
        power_sum(cs, x, (k - 1) as nat) + cs[k - 1] * vstd::arithmetic::power::pow(x, (k - 1) as nat)
    }
}

proof fn lemma_power_sum_shift(cs: Seq<int>, x: int, k: nat)
    requires
        k + 1 <= cs.len(),
    ensures
        power_sum(cs, x, k + 1) == cs[0] + x * power_sum(cs.drop_first(), x, k),
    decreases k,
{
    if k == 0 {
        vstd::arithmetic::power::lemma_pow0(x);
        assert(x * 0 == 0) by (nonlinear_arith);
        assert(power_sum(cs, x, 1) == power_sum(cs, x, 0) + cs[0] * vstd::arithmetic::power::pow(x, 0));
    } else {
        lemma_power_sum_shift(cs, x, (k - 1) as nat);
        let rest = cs.drop_first();
        let pk = vstd::arithmetic::power::pow(x, (k - 1) as nat);
        vstd::arithmetic::power::lemma_pow_adds(x, 1, (k - 1) as nat);
        vstd::arithmetic::power::lemma_pow1(x);
        assert(vstd::arithmetic::power::pow(x, k) == x * pk);
        assert(rest[k - 1] == cs[k as int]);
        let ps = power_sum(rest, x, (k - 1) as nat);
        assert(x * (ps + rest[k - 1] * pk) == x * ps + cs[k as int] * (x * pk)) by (nonlinear_arith)
            requires
                rest[k - 1] == cs[k as int],
        ;
    }
}

/// The Horner form is the power sum: `peval(cs, x) = Σ_j cs[j]·x^j`.
pub proof fn lemma_peval_power_sum(cs: Seq<int>, x: int)
    ensures
        peval(cs, x) == power_sum(cs, x, cs.len()),
    decreases cs.len(),
{
    if cs.len() > 0 {
        lemma_peval_power_sum(cs.drop_first(), x);
        lemma_power_sum_shift(cs, x, (cs.len() - 1) as nat);
    }
}

} // verus!
