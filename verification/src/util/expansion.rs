//! The multilinear extension as a sum over the hypercube:
//! `mle(e, x) = Σ_i e[i] · Π_v (x_v if bit v of i is set, else 1 - x_v)`.
use crate::util::field::{
    cong, fadd, fmul, fsub, lemma_cong_add, lemma_cong_mod, lemma_cong_mul, lemma_cong_residues,
    lemma_residue, p,
};
use crate::util::poly::{fold_first, folds, lerp, mle};
use vstd::arithmetic::div_mod::*;
use vstd::arithmetic::power2::*;
use vstd::prelude::*;

verus! {

/// Bit `i` of `x`.
pub open spec fn bit(x: int, i: int) -> int {
    (x / (pow2(i as nat) as int)) % 2
}

/// `Σ_{i<m} h(i)` in the field.
pub open spec fn fsum(h: spec_fn(int) -> int, m: nat) -> int
    decreases m,
{
    if m == 0 {
        0
    } else {
        fadd(fsum(h, (m - 1) as nat), h(m - 1))
    }
}

/// The factor of a coordinate `t` for a bit `b`: `t` for `1`, else `1 - t`.
pub open spec fn bit_factor(b: int, t: int) -> int {
    if b == 1 {
        t
    } else {
        1 - t
    }
}

/// `Π_{v<n} bit_factor(bit(i, v), x[v])` in the field: the multilinear
/// polynomial that is `1` at corner `i` of the hypercube and `0` at the
/// others, evaluated at `x`.
pub open spec fn basis_at(x: Seq<int>, i: int, n: nat) -> int
    decreases n,
{
    if n == 0 {
        1
    } else {
        fmul(basis_at(x, i, (n - 1) as nat), bit_factor(bit(i, n - 1), x[n - 1]))
    }
}

/// `Σ_{i<m} e[i] · basis_at(x, i, n)` in the field.
pub open spec fn expansion(e: Seq<int>, x: Seq<int>, n: nat, m: nat) -> int {
    fsum(|i: int| fmul(e[i], basis_at(x, i, n)), m)
}

proof fn lemma_fmul_assoc(a: int, b: int, c: int)
    ensures
        fmul(fmul(a, b), c) == fmul(a, fmul(b, c)),
{
    lemma_cong_mod(a * b);
    lemma_cong_mod(b * c);
    lemma_cong_mul(a * b % p(), c, a * b, c);
    lemma_cong_mul(a, b * c % p(), a, b * c);
    assert(a * b * c == a * (b * c)) by (nonlinear_arith);
}

proof fn lemma_fmul_comm(a: int, b: int)
    ensures
        fmul(a, b) == fmul(b, a),
{
    assert(a * b == b * a) by (nonlinear_arith);
}

/// Sums of terms that agree in the field agree.
pub proof fn lemma_fsum_congruent(h1: spec_fn(int) -> int, h2: spec_fn(int) -> int, m: nat)
    requires
        forall|i: int| 0 <= i < m ==> cong(#[trigger] h1(i), h2(i)),
    ensures
        fsum(h1, m) == fsum(h2, m),
    decreases m,
{
    if m > 0 {
        lemma_fsum_congruent(h1, h2, (m - 1) as nat);
        let s = fsum(h1, (m - 1) as nat);
        lemma_cong_add(s, h1(m - 1), s, h2(m - 1));
    }
}

/// A sum over `2m` terms adds up the pairs `(2y, 2y + 1)`.
pub proof fn lemma_fsum_pairs(h: spec_fn(int) -> int, m: nat)
    ensures
        fsum(h, 2 * m) == fsum(|y: int| fadd(h(2 * y), h(2 * y + 1)), m),
    decreases m,
{
    let g = |y: int| fadd(h(2 * y), h(2 * y + 1));
    if m > 0 {
        let k = (m - 1) as nat;
        let ki = k as int;
        lemma_fsum_pairs(h, k);
        assert((2 * m - 1) as nat == 2 * k + 1);
        assert((2 * k + 1 - 1) as nat == 2 * k);
        assert(fsum(h, 2 * k + 1) == fadd(fsum(h, 2 * k), h(2 * ki)));
        assert(fsum(h, 2 * k + 2) == fadd(fsum(h, 2 * k + 1), h(2 * ki + 1)));
        assert(2 * m == 2 * k + 2);
        let a = fsum(h, 2 * k);
        let b = h(2 * ki);
        let c = h(2 * ki + 1);
        lemma_cong_mod(a + b);
        lemma_cong_mod(b + c);
        lemma_cong_add(a + b, c, (a + b) % p(), c);
        lemma_cong_add(a, b + c, a, (b + c) % p());
        assert(g(ki) == fadd(b, c));
    }
}

/// Binding the first variable and then the others is binding them all.
pub proof fn lemma_folds_first(e: Seq<int>, rs: Seq<int>)
    requires
        rs.len() >= 1,
    ensures
        folds(e, rs) == folds(fold_first(e, rs[0]), rs.drop_first()),
    decreases rs.len(),
{
    let f0 = fold_first(e, rs[0]);
    assert(folds(e, rs) == fold_first(folds(e, rs.drop_last()), rs.last()));
    if rs.len() > 1 {
        lemma_folds_first(e, rs.drop_last());
        assert(rs.drop_last().drop_first() =~= rs.drop_first().drop_last());
        assert(rs.drop_last()[0] == rs[0]);
        assert(rs.drop_first().last() == rs.last());
        assert(folds(f0, rs.drop_first()) == fold_first(folds(f0, rs.drop_first().drop_last()), rs.drop_first().last()));
    } else {
        assert(rs.drop_last() =~= Seq::<int>::empty());
        assert(rs.drop_first() =~= Seq::<int>::empty());
        assert(folds(e, Seq::<int>::empty()) == e);
        assert(folds(f0, Seq::<int>::empty()) == f0);
        assert(rs.last() == rs[0]);
    }
}

/// The basis polynomial factors out its first variable.
pub proof fn lemma_basis_first(x: Seq<int>, i: int, n: nat)
    requires
        n >= 1,
        i >= 0,
        x.len() >= n,
    ensures
        basis_at(x, i, n) == fmul(bit_factor(bit(i, 0), x[0]), basis_at(x.drop_first(), i / 2, (n - 1) as nat)),
    decreases n,
{
    lemma2_to64();
    let xd = x.drop_first();
    if n == 1 {
        assert(basis_at(x, i, 0) == 1);
        assert(basis_at(xd, i / 2, 0) == 1);
        lemma_fmul_comm(1, bit_factor(bit(i, 0), x[0]));
    } else {
        let m = (n - 1) as nat;
        lemma_basis_first(x, i, m);
        let f0 = bit_factor(bit(i, 0), x[0]);
        let inner = basis_at(xd, i / 2, (m - 1) as nat);
        let last = bit_factor(bit(i, n - 1), x[n - 1]);
        // bit n-1 of i is bit n-2 of i/2
        assert(bit(i / 2, n - 2) == bit(i, n - 1)) by {
            lemma_pow2_pos((n - 2) as nat);
            lemma_pow2_unfold((n - 1) as nat);
            lemma_div_denominator(i, 2, pow2((n - 2) as nat) as int);
        }
        assert(xd[n - 2] == x[n - 1]);
        assert(basis_at(xd, i / 2, m) == fmul(inner, last));
        lemma_fmul_assoc(f0, inner, last);
    }
}

/// The multilinear extension is the sum over the hypercube of the table
/// entries times the basis polynomials.
pub proof fn lemma_mle_expansion(e: Seq<int>, x: Seq<int>, n: nat)
    requires
        e.len() == pow2(n),
        x.len() == n,
        forall|k: int| 0 <= k < e.len() ==> 0 <= #[trigger] e[k] < p(),
    ensures
        mle(e, x) == expansion(e, x, n, pow2(n)),
    decreases n,
{
    lemma2_to64();
    if n == 0 {
        assert(x =~= Seq::<int>::empty());
        assert(folds(e, x) == e);
        let h = |i: int| fmul(e[i], basis_at(x, i, 0));
        assert(fsum(h, 1) == fadd(fsum(h, 0), h(0)));
        assert(h(0) == fmul(e[0], 1));
        assert(expansion(e, x, 0, 1) == fsum(h, 1));
        lemma_small_mod(e[0] as nat, p() as nat);
        lemma_small_mod(0, p() as nat);
    } else {
        let m = (n - 1) as nat;
        let half = pow2(m);
        lemma_pow2_unfold(n);
        let x0 = x[0];
        let xd = x.drop_first();
        let f = fold_first(e, x0);
        lemma_folds_first(e, x);
        assert(f.len() == half) by {
            lemma_div_multiples_vanish(half as int, 2);
        }
        assert forall|k: int| 0 <= k < f.len() implies 0 <= #[trigger] f[k] < p() by {
            lemma_residue(e[2 * k] + fmul(x0, fsub(e[2 * k + 1], e[2 * k])));
        }
        lemma_mle_expansion(f, xd, m);
        // split the sum over the hypercube by the first variable
        let h = |i: int| fmul(e[i], basis_at(x, i, n));
        let g = |y: int| fmul(f[y], basis_at(xd, y, m));
        lemma_fsum_pairs(h, half);
        let pairs = |y: int| fadd(h(2 * y), h(2 * y + 1));
        assert forall|y: int| 0 <= y < half implies cong(#[trigger] pairs(y), g(y)) by {
            let b = basis_at(xd, y, m);
            let a0 = e[2 * y];
            let a1 = e[2 * y + 1];
            lemma_basis_first(x, 2 * y, n);
            lemma_basis_first(x, 2 * y + 1, n);
            assert((2 * y) / 2 == y);
            assert((2 * y + 1) / 2 == y);
            assert(pow2(0) == 1);
            assert((2 * y) / 1 == 2 * y);
            assert((2 * y + 1) / 1 == 2 * y + 1);
            assert(bit(2 * y, 0) == 0);
            assert(bit(2 * y + 1, 0) == 1);
            // h(2y) + h(2y+1) = (a0 (1 - x0) + a1 x0) b = lerp(a0, a1, x0) b
            let t0 = fmul(1 - x0, b);
            let t1 = fmul(x0, b);
            lemma_cong_mod((1 - x0) * b);
            lemma_cong_mod(x0 * b);
            lemma_cong_mul(a0, t0, a0, (1 - x0) * b);
            lemma_cong_mul(a1, t1, a1, x0 * b);
            lemma_cong_mod(a0 * t0);
            lemma_cong_mod(a1 * t1);
            lemma_cong_add(a0 * t0 % p(), a1 * t1 % p(), a0 * ((1 - x0) * b), a1 * (x0 * b));
            lemma_cong_mod(a0 * t0 % p() + a1 * t1 % p());
            // the lerp side
            let d = fsub(a1, a0);
            let r = fmul(x0, d);
            lemma_cong_mod(a1 - a0);
            lemma_cong_mul(x0, d, x0, a1 - a0);
            lemma_cong_mod(x0 * d);
            lemma_cong_add(a0, r, a0, x0 * (a1 - a0));
            lemma_cong_mod(a0 + r);
            let lv = lerp(a0, a1, x0);
            lemma_cong_mul(lv, b, a0 + x0 * (a1 - a0), b);
            lemma_cong_mod(lv * b);
            assert(a0 * ((1 - x0) * b) + a1 * (x0 * b) == (a0 + x0 * (a1 - a0)) * b) by (nonlinear_arith);
        }
        lemma_fsum_congruent(pairs, g, half);
        assert(expansion(e, x, n, pow2(n)) == fsum(h, 2 * half));
        assert(expansion(f, xd, m, half) == fsum(g, half));
        assert(mle(e, x) == mle(f, xd));
    }
}

/// `Π_{i<m} h(i)` in the field.
pub open spec fn fprod(h: spec_fn(int) -> int, m: nat) -> int
    decreases m,
{
    if m == 0 {
        1
    } else {
        fmul(fprod(h, (m - 1) as nat), h(m - 1))
    }
}

/// `0, 1, .., m - 1`.
pub open spec fn range_seq(m: nat) -> Seq<int> {
    Seq::new(m, |k: int| k)
}

/// `order` lists each of `0..n` exactly once.
pub open spec fn is_order_of(order: Seq<int>, n: nat) -> bool {
    &&& order.len() == n
    &&& order.no_duplicates()
    &&& forall|k: int| 0 <= k < order.len() ==> 0 <= #[trigger] order[k] < n
}

/// An order of `0..n` takes every value of `0..n`.
pub proof fn lemma_order_covers(order: Seq<int>, n: nat)
    requires
        is_order_of(order, n),
    ensures
        forall|v: int| 0 <= v < n ==> order.contains(v),
{
    broadcast use vstd::seq_lib::seq_to_set_is_finite;

    let s = order.to_set();
    let r = vstd::set_lib::set_int_range(0, n as int);
    order.unique_seq_to_set();
    vstd::set_lib::lemma_int_range(0, n as int);
    assert(s.subset_of(r)) by {
        assert forall|v: int| s.contains(v) implies r.contains(v) by {
            let k = choose|k: int| 0 <= k < order.len() && order[k] == v;
            assert(0 <= order[k] < n);
        }
    }
    vstd::set_lib::lemma_subset_equality(s, r);
    assert forall|v: int| 0 <= v < n implies order.contains(v) by {
        assert(r.contains(v));
        assert(s.contains(v));
    }
}

/// An order of `0..m` has the multiset of `0..m`.
pub proof fn lemma_order_multiset(s: Seq<int>, m: nat)
    requires
        is_order_of(s, m),
    ensures
        s.to_multiset() =~= range_seq(m).to_multiset(),
    decreases m,
{
    broadcast use vstd::seq_lib::group_to_multiset_ensures;
    broadcast use vstd::multiset::group_multiset_axioms;

    if m == 0 {
        assert(s =~= range_seq(0));
    } else {
        let top = (m - 1) as int;
        lemma_order_covers(s, m);
        assert(s.contains(top));
        let k = choose|k: int| 0 <= k < s.len() && s[k] == top;
        let s2 = s.remove(k);
        assert(is_order_of(s2, (m - 1) as nat)) by {
            assert forall|a: int, b: int| 0 <= a < s2.len() && 0 <= b < s2.len() && a != b implies s2[a] != s2[b] by {
                let a2 = if a < k { a } else { a + 1 };
                let b2 = if b < k { b } else { b + 1 };
                assert(s2[a] == s[a2]);
                assert(s2[b] == s[b2]);
            }
            assert forall|j: int| 0 <= j < s2.len() implies 0 <= #[trigger] s2[j] < m - 1 by {
                let j2 = if j < k { j } else { j + 1 };
                assert(s2[j] == s[j2]);
                assert(j2 != k);
            }
        }
        lemma_order_multiset(s2, (m - 1) as nat);
        vstd::seq_lib::to_multiset_remove(s, k);
        assert(range_seq(m) =~= range_seq((m - 1) as nat).push(top));
        vstd::seq_lib::to_multiset_build(range_seq((m - 1) as nat), top);
        let ms = s.to_multiset();
        assert(ms.count(top) > 0) by {
            vstd::seq_lib::to_multiset_contains(s, top);
        }
        assert(ms =~= ms.remove(top).insert(top));
    }
}

/// Folding additions over a list of indices sums their terms.
proof fn lemma_fold_add(h: spec_fn(int) -> int, s: Seq<int>)
    ensures
        s.fold_left(0, |acc: int, k: int| fadd(acc, h(k))) == fsum(|j: int| h(s[j]), s.len()),
    decreases s.len(),
{
    let f = |acc: int, k: int| fadd(acc, h(k));
    if s.len() > 0 {
        let d = s.drop_last();
        lemma_fold_add(h, d);
        lemma_fsum_congruent(|j: int| h(d[j]), |j: int| h(s[j]), d.len());
    }
}

/// Folding multiplications over a list of indices multiplies their factors.
proof fn lemma_fold_mul(h: spec_fn(int) -> int, s: Seq<int>)
    ensures
        s.fold_left(1, |acc: int, k: int| fmul(acc, h(k))) == fprod(|j: int| h(s[j]), s.len()),
    decreases s.len(),
{
    if s.len() > 0 {
        let d = s.drop_last();
        lemma_fold_mul(h, d);
        lemma_fprod_congruent(|j: int| h(d[j]), |j: int| h(s[j]), d.len());
    }
}

/// Products of factors that agree in the field agree.
pub proof fn lemma_fprod_congruent(h1: spec_fn(int) -> int, h2: spec_fn(int) -> int, m: nat)
    requires
        forall|i: int| 0 <= i < m ==> cong(#[trigger] h1(i), h2(i)),
    ensures
        fprod(h1, m) == fprod(h2, m),
    decreases m,
{
    if m > 0 {
        lemma_fprod_congruent(h1, h2, (m - 1) as nat);
        let s = fprod(h1, (m - 1) as nat);
        lemma_cong_mul(s, h1(m - 1), s, h2(m - 1));
    }
}

/// Summing the terms of the indices in another order gives the same sum.
pub proof fn lemma_fsum_reindex(h: spec_fn(int) -> int, s: Seq<int>, m: nat)
    requires
        is_order_of(s, m),
    ensures
        fsum(|j: int| h(s[j]), m) == fsum(h, m),
{
    let f = |acc: int, k: int| fadd(acc, h(k));
    assert(vstd::seq_lib::commutative_foldl(f)) by {
        assert forall|x: int, y: int, v: int| #[trigger] f(f(v, x), y) == f(f(v, y), x) by {
            lemma_cong_mod(v + h(x));
            lemma_cong_mod(v + h(y));
            lemma_cong_add((v + h(x)) % p(), h(y), v + h(x), h(y));
            lemma_cong_add((v + h(y)) % p(), h(x), v + h(y), h(x));
        }
    }
    lemma_order_multiset(s, m);
    vstd::seq_lib::lemma_fold_left_permutation(s, range_seq(m), f, 0);
    lemma_fold_add(h, s);
    lemma_fold_add(h, range_seq(m));
    lemma_fsum_congruent(|j: int| h(range_seq(m)[j]), h, m);
}

/// Multiplying the factors of the indices in another order gives the same product.
pub proof fn lemma_fprod_reindex(h: spec_fn(int) -> int, s: Seq<int>, m: nat)
    requires
        is_order_of(s, m),
    ensures
        fprod(|j: int| h(s[j]), m) == fprod(h, m),
{
    let f = |acc: int, k: int| fmul(acc, h(k));
    assert(vstd::seq_lib::commutative_foldl(f)) by {
        assert forall|x: int, y: int, v: int| #[trigger] f(f(v, x), y) == f(f(v, y), x) by {
            lemma_fmul_assoc(v, h(x), h(y));
            lemma_fmul_assoc(v, h(y), h(x));
            lemma_fmul_comm(h(x), h(y));
        }
    }
    lemma_order_multiset(s, m);
    vstd::seq_lib::lemma_fold_left_permutation(s, range_seq(m), f, 1);
    lemma_fold_mul(h, s);
    lemma_fold_mul(h, range_seq(m));
    lemma_fprod_congruent(|j: int| h(range_seq(m)[j]), h, m);
}

/// The basis polynomial is the product of its factors.
pub proof fn lemma_basis_as_product(x: Seq<int>, i: int, n: nat)
    ensures
        basis_at(x, i, n) == fprod(|v: int| bit_factor(bit(i, v), x[v]), n),
    decreases n,
{
    if n > 0 {
        lemma_basis_as_product(x, i, (n - 1) as nat);
    }
}

/// Sums add termwise.
pub proof fn lemma_fsum_add(h1: spec_fn(int) -> int, h2: spec_fn(int) -> int, m: nat)
    ensures
        fsum(|i: int| fadd(h1(i), h2(i)), m) == fadd(fsum(h1, m), fsum(h2, m)),
    decreases m,
{
    let h = |i: int| fadd(h1(i), h2(i));
    if m == 0 {
        lemma_small_mod(0, p() as nat);
    } else {
        let k = (m - 1) as nat;
        lemma_fsum_add(h1, h2, k);
        let a = fsum(h1, k);
        let b = fsum(h2, k);
        let c = h1(k as int);
        let d = h2(k as int);
        lemma_cong_mod(a + b);
        lemma_cong_mod(c + d);
        lemma_cong_mod(a + c);
        lemma_cong_mod(b + d);
        lemma_cong_add((a + b) % p(), (c + d) % p(), a + b, c + d);
        lemma_cong_add((a + c) % p(), (b + d) % p(), a + c, b + d);
        assert(a + b + (c + d) == a + c + (b + d));
        assert(h(k as int) == fadd(c, d));
    }
}

/// A sum times a factor is the sum of the terms times the factor.
pub proof fn lemma_fsum_scale(h: spec_fn(int) -> int, b: int, m: nat)
    ensures
        fmul(fsum(h, m), b) == fsum(|i: int| fmul(h(i), b), m),
    decreases m,
{
    let g = |i: int| fmul(h(i), b);
    if m == 0 {
        lemma_small_mod(0, p() as nat);
    } else {
        let k = (m - 1) as nat;
        lemma_fsum_scale(h, b, k);
        let s = fsum(h, k);
        let t = h(k as int);
        lemma_cong_mod(s + t);
        lemma_cong_mul((s + t) % p(), b, s + t, b);
        lemma_cong_mod(s * b);
        lemma_cong_mod(t * b);
        lemma_cong_add(fmul(s, b), fmul(t, b), s * b, t * b);
        assert((s + t) * b == s * b + t * b) by (nonlinear_arith);
        lemma_cong_mod(fmul(s, b) + fmul(t, b));
        lemma_cong_residues(fmul(s + t, b) % p(), fadd(fmul(s, b), fmul(t, b)));
        lemma_residue(fmul(s, b) + fmul(t, b));
        lemma_residue((s + t) * b);
        lemma_cong_mod((s + t) * b);
        assert(fmul(fsum(h, m), b) == fmul(fadd(s, t), b));
    }
}

/// The order of two sums does not matter.
pub proof fn lemma_fsum_swap(c: spec_fn(int, int) -> int, rows: nat, cols: nat)
    ensures
        fsum(|j: int| fsum(|k: int| c(j, k), cols), rows) == fsum(
            |k: int| fsum(|j: int| c(j, k), rows),
            cols,
        ),
    decreases rows,
{
    let left = |j: int| fsum(|k: int| c(j, k), cols);
    let right = |k: int| fsum(|j: int| c(j, k), rows);
    if rows == 0 {
        assert forall|k: int| 0 <= k < cols implies cong(#[trigger] right(k), (|k: int| 0int)(k)) by {
        }
        lemma_fsum_congruent(right, |k: int| 0int, cols);
        lemma_fsum_zero(cols);
    } else {
        let r = (rows - 1) as nat;
        lemma_fsum_swap(c, r, cols);
        let prev = |k: int| fsum(|j: int| c(j, k), r);
        let last = |k: int| c(r as int, k);
        // right(k) = prev(k) + c(r, k)
        assert forall|k: int| 0 <= k < cols implies cong(#[trigger] right(k), (|k: int| fadd(prev(k), last(k)))(k)) by {
        }
        lemma_fsum_congruent(right, |k: int| fadd(prev(k), last(k)), cols);
        lemma_fsum_add(prev, last, cols);
        assert(left(r as int) == fsum(last, cols)) by {
            lemma_fsum_congruent(|k: int| c(r as int, k), last, cols);
        }
    }
}

/// A sum of zeros is zero.
pub proof fn lemma_fsum_zero(m: nat)
    ensures
        fsum(|k: int| 0int, m) == 0,
    decreases m,
{
    if m > 0 {
        lemma_fsum_zero((m - 1) as nat);
        lemma_small_mod(0, p() as nat);
    }
}

/// Adding `d` to one term of a sum adds `d` to the sum.
pub proof fn lemma_fsum_bump(h1: spec_fn(int) -> int, h2: spec_fn(int) -> int, m: nat, j: int, d: int)
    requires
        0 <= j < m,
        forall|i: int| 0 <= i < m && i != j ==> cong(#[trigger] h1(i), h2(i)),
        cong(h2(j), h1(j) + d),
    ensures
        fsum(h2, m) == fadd(fsum(h1, m), d),
    decreases m,
{
    let k = (m - 1) as nat;
    let s1 = fsum(h1, k);
    let s2 = fsum(h2, k);
    if j == k {
        assert forall|i: int| 0 <= i < k implies cong(#[trigger] h1(i), h2(i)) by {
        }
        lemma_fsum_congruent(h1, h2, k);
        // (s + h2(j)) ≡ (s + h1(j)) + d
        lemma_cong_add(s1, h2(j), s1, h1(j) + d);
        lemma_cong_mod(s1 + h1(j));
        lemma_cong_add((s1 + h1(j)) % p(), d, s1 + h1(j), d);
        assert(s1 + (h1(j) + d) == (s1 + h1(j)) + d);
        lemma_cong_mod(s1 + h2(j));
        lemma_cong_mod(fadd(s1, h1(j)) + d);
        lemma_residue(s1 + h2(j));
        lemma_residue(fadd(s1, h1(j)) + d);
        lemma_cong_residues(fadd(s1, h2(j)), fadd(fadd(s1, h1(j)), d));
    } else {
        lemma_fsum_bump(h1, h2, k, j, d);
        assert(cong(h1(k as int), h2(k as int)));
        // s2 = (s1 + d) % p
        lemma_cong_mod(s1 + d);
        lemma_cong_add(s2, h2(k as int), s1 + d, h1(k as int));
        lemma_cong_mod(s1 + h1(k as int));
        lemma_cong_add((s1 + h1(k as int)) % p(), d, s1 + h1(k as int), d);
        assert(s1 + d + h1(k as int) == s1 + h1(k as int) + d);
        lemma_cong_mod(s2 + h2(k as int));
        lemma_cong_mod(fadd(s1, h1(k as int)) + d);
        lemma_residue(s2 + h2(k as int));
        lemma_residue(fadd(s1, h1(k as int)) + d);
        lemma_cong_residues(fadd(s2, h2(k as int)), fadd(fadd(s1, h1(k as int)), d));
    }
}

/// A sum in the field is a residue.
pub proof fn lemma_fsum_residue(h: spec_fn(int) -> int, m: nat)
    ensures
        0 <= fsum(h, m) < p(),
{
    if m == 0 {
    } else {
        lemma_residue(fsum(h, (m - 1) as nat) + h(m - 1));
    }
}

} // verus!
