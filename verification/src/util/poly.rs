//! Dense multilinear polynomials over the Goldilocks field, given by their
//! evaluations on the boolean hypercube.  Evaluation index `x` has the
//! value of variable `i` in bit `i` of `x`, so binding the first variable
//! pairs up entries `2y` and `2y + 1`.
use crate::util::field::{fadd, fmul, fpow, fsub, fvals, lemma_fe_range, p, Fe, MODULUS};
use vstd::arithmetic::div_mod::*;
use vstd::arithmetic::power2::*;
use vstd::prelude::*;

verus! {

/// `a + r * (b - a)`: the line through `(0, a)` and `(1, b)` at `r`.
pub open spec fn lerp(a: int, b: int, r: int) -> int {
    fadd(a, fmul(r, fsub(b, a)))
}

/// Binds the first variable of an evaluation table to `r`.
pub open spec fn fold_first(e: Seq<int>, r: int) -> Seq<int> {
    Seq::new(e.len() / 2, |y: int| lerp(e[2 * y], e[2 * y + 1], r))
}

/// Binds the first `rs.len()` variables, in order, to the values of `rs`.
pub open spec fn folds(e: Seq<int>, rs: Seq<int>) -> Seq<int>
    decreases rs.len(),
{
    if rs.len() == 0 {
        e
    } else {
        fold_first(folds(e, rs.drop_last()), rs.last())
    }
}

/// The multilinear extension of the table `e`, evaluated at `point`.
pub open spec fn mle(e: Seq<int>, point: Seq<int>) -> int {
    let f = folds(e, point);
    if f.len() > 0 {
        f[0]
    } else {
        0
    }
}

/// `L_idx(r) = Π_{i<k} (r_i if bit i of idx is set, else 1 - r_i)`.
pub open spec fn lagrange_single(r: Seq<int>, idx: usize, k: nat) -> int
    decreases k,
{
    if k == 0 {
        1
    } else {
        let prev = lagrange_single(r, idx, (k - 1) as nat);
        let i = (k - 1) as int;
        if (idx >> (i as usize)) & 1 == 1 {
            fmul(prev, r[i])
        } else {
            fmul(prev, fsub(1, r[i]))
        }
    }
}

pub proof fn lemma_fold_first_len(e: Seq<int>, r: int)
    ensures
        fold_first(e, r).len() == e.len() / 2,
{
}

/// Folding a table of `2^n` entries `k <= n` times leaves `2^(n-k)` entries.
pub proof fn lemma_folds_len(e: Seq<int>, rs: Seq<int>, n: nat)
    requires
        e.len() == pow2(n),
        rs.len() <= n,
    ensures
        folds(e, rs).len() == pow2((n - rs.len()) as nat),
    decreases rs.len(),
{
    if rs.len() > 0 {
        lemma_folds_len(e, rs.drop_last(), n);
        let m = (n - rs.len()) as nat;
        lemma_pow2_unfold(m + 1);
        assert(pow2(m + 1) == 2 * pow2(m));
        assert((n - rs.drop_last().len()) as nat == m + 1);
        lemma_div_multiples_vanish(pow2(m) as int, 2);
    }
}

/// Binding one more variable extends the fold by one step.
pub proof fn lemma_folds_push(e: Seq<int>, rs: Seq<int>, k: int)
    requires
        0 <= k < rs.len(),
    ensures
        folds(e, rs.take(k + 1)) == fold_first(folds(e, rs.take(k)), rs[k]),
{
    assert(rs.take(k + 1).drop_last() =~= rs.take(k));
}

pub proof fn lemma_lerp_at_0(a: int, b: int)
    requires
        0 <= a < p(),
    ensures
        lerp(a, b, 0) == a,
{
    lemma_small_mod(0, p() as nat);
    lemma_small_mod(a as nat, p() as nat);
    assert(0 * fsub(b, a) == 0);
}

pub proof fn lemma_lerp_at_1(a: int, b: int)
    requires
        0 <= a < p(),
        0 <= b < p(),
    ensures
        lerp(a, b, 1) == b,
{
    lemma_mod_bound(b - a, p());
    lemma_small_mod(fsub(b, a) as nat, p() as nat);
    assert(1 * fsub(b, a) == fsub(b, a));
    lemma_add_mod_noop_right(a, b - a, p());
    lemma_small_mod(b as nat, p() as nat);
}

/// `2^k` as a machine word.
pub fn pow2_usize(k: usize) -> (r: usize)
    requires
        pow2(k as nat) <= usize::MAX,
    ensures
        r == pow2(k as nat),
{
    let mut r: usize = 1;
    let mut i: usize = 0;
    proof {
        lemma2_to64();
    }
    while i < k
        invariant
            i <= k,
            r == pow2(i as nat),
            pow2(k as nat) <= usize::MAX,
        decreases k - i,
    {
        proof {
            lemma_pow2_unfold((i + 1) as nat);
            if i + 1 < k {
                lemma_pow2_strictly_increases((i + 1) as nat, k as nat);
            }
        }
        r = r * 2;
        i = i + 1;
    }
    r
}

/// A dense multilinear polynomial in `num_vars` variables.
#[derive(Clone, Debug)]
pub struct DenseMLPoly {
    pub num_vars: usize,
    pub evaluations: Vec<Fe>,
}

/// An exact copy of a vector of field elements.
pub fn copy_fes(v: &Vec<Fe>) -> (r: Vec<Fe>)
    ensures
        r@ == v@,
{
    let mut r: Vec<Fe> = Vec::new();
    let mut i: usize = 0;
    while i < v.len()
        invariant
            i <= v.len(),
            r@ == v@.take(i as int),
        decreases v.len() - i,
    {
        r.push(v[i]);
        i = i + 1;
        assert(r@ =~= v@.take(i as int));
    }
    assert(v@.take(v.len() as int) =~= v@);
    r
}

/// Binds the first variable of the table held in `evals[..size]` to `r`, in
/// place: afterwards `evals[..size/2]` holds the folded table and the rest
/// of the vector is unchanged.
pub fn fold_prefix(evals: &mut Vec<Fe>, size: usize, r: &Fe)
    requires
        size <= old(evals).len(),
        size % 2 == 0,
    ensures
        final(evals).len() == old(evals).len(),
        fvals(final(evals)@).take((size / 2) as int) == fold_first(
            fvals(old(evals)@).take(size as int),
            r@,
        ),
        forall|i: int| size / 2 <= i < old(evals).len() ==> #[trigger] final(evals)@[i] == old(evals)@[i],
{
    let half = size / 2;
    let ghost old_e = evals@;
    let mut y: usize = 0;
    while y < half
        invariant
            half == size / 2,
            size <= old_e.len(),
            size % 2 == 0,
            y <= half,
            evals.len() == old_e.len(),
            forall|i: int|
                0 <= i < y ==> #[trigger] evals@[i]@ == lerp(
                    old_e[2 * i]@,
                    old_e[2 * i + 1]@,
                    r@,
                ),
            forall|i: int| y <= i < old_e.len() ==> #[trigger] evals@[i] == old_e[i],
        decreases half - y,
    {
        let a0 = evals[2 * y];
        let a1 = evals[2 * y + 1];
        let d = a1.sub(&a0);
        let t = r.mul(&d);
        let v = a0.add(&t);
        evals.set(y, v);
        y = y + 1;
    }
    let ghost s = fvals(old_e).take(size as int);
    assert(fvals(evals@).take(half as int) =~= fold_first(s, r@)) by {
        assert forall|i: int| 0 <= i < half implies fvals(evals@).take(half as int)[i] == fold_first(
            s,
            r@,
        )[i] by {
            assert(s[2 * i] == old_e[2 * i]@);
            assert(s[2 * i + 1] == old_e[2 * i + 1]@);
        }
    }
}

impl DenseMLPoly {
    /// Well-formed: exactly `2^num_vars` evaluations.
    pub open spec fn wf(&self) -> bool {
        self.evaluations.len() == pow2(self.num_vars as nat)
    }

    /// The evaluation table as residues.
    pub open spec fn table(&self) -> Seq<int> {
        fvals(self.evaluations@)
    }

    pub fn new(num_vars: usize, evaluations: Vec<Fe>) -> (r: DenseMLPoly)
        requires
            evaluations.len() == pow2(num_vars as nat),
        ensures
            r.num_vars == num_vars,
            r.evaluations@ == evaluations@,
            r.wf(),
    {
        DenseMLPoly { num_vars, evaluations }
    }

    pub fn len(&self) -> (r: usize)
        ensures
            r == self.evaluations.len(),
    {
        self.evaluations.len()
    }

    pub fn is_empty(&self) -> (r: bool)
        ensures
            r == (self.evaluations.len() == 0),
    {
        self.evaluations.len() == 0
    }

    /// The value of the multilinear extension at `point`.
    pub fn evaluate_at_point(&self, point: &[Fe]) -> (r: Fe)
        requires
            self.wf(),
            point.len() == self.num_vars,
        ensures
            r@ == mle(self.table(), fvals(point@)),
    {
        let n = self.num_vars;
        let mut ev = copy_fes(&self.evaluations);
        let ghost e = self.table();
        let ghost pt = fvals(point@);
        let mut size: usize = self.evaluations.len();
        let mut k: usize = 0;
        proof {
            assert(fvals(ev@).take(size as int) =~= folds(e, pt.take(0)));
            lemma_pow2_pos(n as nat);
        }
        while k < n
            invariant
                n == self.num_vars,
                n == point.len(),
                pt == fvals(point@),
                e == self.table(),
                e.len() == pow2(n as nat),
                k <= n,
                size == pow2((n - k) as nat),
                size <= ev.len(),
                ev.len() == e.len(),
                fvals(ev@).take(size as int) == folds(e, pt.take(k as int)),
            decreases n - k,
        {
            proof {
                lemma_pow2_unfold((n - k) as nat);
                lemma_pow2_pos((n - k - 1) as nat);
            }
            let ghost prev = ev@;
            fold_prefix(&mut ev, size, &point[k]);
            proof {
                lemma_folds_push(e, pt, k as int);
                assert(pt[k as int] == point@[k as int]@);
                assert(fvals(prev).take(size as int) == folds(e, pt.take(k as int)));
            }
            size = size / 2;
            k = k + 1;
        }
        proof {
            assert(pt.take(n as int) =~= pt);
            lemma_pow2_pos(0);
            assert(size == 1) by {
                lemma2_to64();
            }
            assert(fvals(ev@).take(1)[0] == ev@[0]@);
        }
        ev[0]
    }
}

/// A power of two that fits a machine word has an exponent below the word
/// size.
pub proof fn lemma_log_below_bits(n: nat)
    requires
        pow2(n) <= usize::MAX,
    ensures
        n < usize::BITS,
{
    lemma2_to64();
    if n >= usize::BITS {
        if n > usize::BITS {
            lemma_pow2_strictly_increases(usize::BITS as nat, n);
        }
        assert(usize::BITS == 32 || usize::BITS == 64);
    }
}

/// The Lagrange basis of the hypercube at `r`: entry `x` is
/// `L_x(r) = Π_i (r_i if bit i of x is 1, else 1 - r_i)`.
pub fn evaluate_lagrange_basis(r: &[Fe]) -> (res: Vec<Fe>)
    requires
        pow2(r.len() as nat) <= usize::MAX,
    ensures
        res.len() == pow2(r.len() as nat),
        forall|x: int| 0 <= x < res.len() ==> (#[trigger] res@[x])@ == lagrange_single(fvals(r@), x as usize, r.len() as nat),
{
    proof {
        lemma_log_below_bits(r.len() as nat);
    }
    let size = pow2_usize(r.len());
    let mut res: Vec<Fe> = Vec::new();
    let mut x: usize = 0;
    while x < size
        invariant
            x <= size,
            size == pow2(r.len() as nat),
            r.len() <= usize::BITS,
            res.len() == x,
            forall|k: int| 0 <= k < x ==> (#[trigger] res@[k])@ == lagrange_single(fvals(r@), k as usize, r.len() as nat),
        decreases size - x,
    {
        res.push(evaluate_lagrange_single(r, x));
        x = x + 1;
    }
    res
}

impl DenseMLPoly {
    /// Binds the first `point.len()` variables, in order, to `point`.
    pub fn fix_variables(&self, point: &[Fe]) -> (r: DenseMLPoly)
        requires
            self.wf(),
            point.len() <= self.num_vars,
        ensures
            r.num_vars == self.num_vars - point.len(),
            r.wf(),
            r.table() == folds(self.table(), fvals(point@)),
    {
        let n = self.num_vars;
        let b = point.len();
        let mut ev = copy_fes(&self.evaluations);
        let ghost e = self.table();
        let ghost pt = fvals(point@);
        let mut size: usize = self.evaluations.len();
        let mut k: usize = 0;
        proof {
            assert(fvals(ev@).take(size as int) =~= folds(e, pt.take(0)));
            lemma_pow2_pos(n as nat);
        }
        while k < b
            invariant
                n == self.num_vars,
                b == point.len(),
                b <= n,
                pt == fvals(point@),
                e == self.table(),
                e.len() == pow2(n as nat),
                k <= b,
                size == pow2((n - k) as nat),
                size <= ev.len(),
                ev.len() == e.len(),
                fvals(ev@).take(size as int) == folds(e, pt.take(k as int)),
            decreases b - k,
        {
            proof {
                lemma_pow2_unfold((n - k) as nat);
                lemma_pow2_pos((n - k - 1) as nat);
            }
            let ghost prev = ev@;
            fold_prefix(&mut ev, size, &point[k]);
            proof {
                lemma_folds_push(e, pt, k as int);
                assert(pt[k as int] == point@[k as int]@);
                assert(fvals(prev).take(size as int) == folds(e, pt.take(k as int)));
            }
            size = size / 2;
            k = k + 1;
        }
        let mut out: Vec<Fe> = Vec::new();
        let mut i: usize = 0;
        while i < size
            invariant
                i <= size,
                size <= ev.len(),
                out@ == ev@.take(i as int),
            decreases size - i,
        {
            out.push(ev[i]);
            i = i + 1;
            assert(out@ =~= ev@.take(i as int));
        }
        proof {
            assert(pt.take(b as int) =~= pt);
            assert(fvals(out@) =~= fvals(ev@).take(size as int));
        }
        DenseMLPoly::new(n - b, out)
    }
}

/// The table of the last variables of `e` for fixed first variables `i`:
/// entry `f` is `e[i + f · low]`, where `low` counts the assignments of the
/// first variables.
pub open spec fn high_column(e: Seq<int>, low: int, high: nat, i: int) -> Seq<int> {
    Seq::new(high, |f: int| e[i + f * low])
}

/// Binds the last `point.len()` variables of `poly` to `point`: entry `i` of
/// the result is the multilinear extension, at `point`, of the entries that
/// share the first variables `i`.
pub fn fix_variables_from_right(poly: &DenseMLPoly, point: &[Fe]) -> (r: DenseMLPoly)
    requires
        poly.wf(),
        point.len() <= poly.num_vars,
        pow2(poly.num_vars as nat) <= usize::MAX,
    ensures
        r.num_vars == poly.num_vars - point.len(),
        r.wf(),
        forall|i: int|
            0 <= i < pow2(r.num_vars as nat) ==> (#[trigger] r.table()[i]) == mle(
                high_column(
                    poly.table(),
                    pow2(r.num_vars as nat) as int,
                    pow2(point.len() as nat),
                    i,
                ),
                fvals(point@),
            ),
{
    let nv = poly.num_vars;
    let nb = point.len();
    let keep = nv - nb;
    proof {
        lemma_pow2_adds(keep as nat, nb as nat);
        lemma_pow2_pos(keep as nat);
        lemma_pow2_pos(nb as nat);
        if keep < nv {
            lemma_pow2_strictly_increases(keep as nat, nv as nat);
        }
        if nb < nv {
            lemma_pow2_strictly_increases(nb as nat, nv as nat);
        }
    }
    let low = pow2_usize(keep);
    let high = pow2_usize(nb);
    let ghost e = poly.table();
    let mut out: Vec<Fe> = Vec::new();
    let mut i: usize = 0;
    while i < low
        invariant
            i <= low,
            low == pow2(keep as nat),
            high == pow2(nb as nat),
            low * high == pow2(nv as nat),
            nv == poly.num_vars,
            nb == point.len(),
            keep == nv - nb,
            pow2(poly.num_vars as nat) <= usize::MAX,
            poly.wf(),
            e == poly.table(),
            out.len() == i,
            forall|k: int|
                0 <= k < i ==> (#[trigger] out@[k])@ == mle(
                    high_column(e, low as int, high as nat, k),
                    fvals(point@),
                ),
        decreases low - i,
    {
        let mut col: Vec<Fe> = Vec::new();
        let mut f: usize = 0;
        while f < high
            invariant
                i < low,
                f <= high,
                low == pow2(keep as nat),
                high == pow2(nb as nat),
                low * high == pow2(nv as nat),
                nv == poly.num_vars,
                pow2(poly.num_vars as nat) <= usize::MAX,
                poly.wf(),
                e == poly.table(),
                col.len() == f,
                forall|k: int| 0 <= k < f ==> (#[trigger] col@[k]) == poly.evaluations@[i + k * low],
            decreases high - f,
        {
            assert(i + f * low < low * high) by (nonlinear_arith)
                requires
                    i < low,
                    f < high,
            ;
            col.push(poly.evaluations[i + f * low]);
            f = f + 1;
        }
        let cpoly = DenseMLPoly::new(nb, col);
        let v = cpoly.evaluate_at_point(point);
        proof {
            assert(cpoly.table() =~= high_column(e, low as int, high as nat, i as int)) by {
                assert forall|k: int| 0 <= k < high implies cpoly.table()[k] == high_column(
                    e,
                    low as int,
                    high as nat,
                    i as int,
                )[k] by {
                    assert(i + k * low < low * high) by (nonlinear_arith)
                        requires
                            i < low,
                            0 <= k < high,
                    ;
                }
            }
        }
        out.push(v);
        i = i + 1;
    }
    proof {
        assert(pow2(nv as nat) == low * high) by {
            assert(keep + nb == nv);
        }
    }
    DenseMLPoly::new(keep, out)
}

/// The point of the hypercube whose coordinate `i` is bit `i` of `x`.
pub open spec fn bits_of(x: nat, n: nat) -> Seq<int> {
    Seq::new(n, |i: int| (x / pow2(i as nat)) as int % 2)
}

proof fn lemma_folds_on_bits(e: Seq<int>, n: nat, x: nat, k: nat, y: int)
    requires
        e.len() == pow2(n),
        forall|j: int| 0 <= j < e.len() ==> 0 <= #[trigger] e[j] < p(),
        x < pow2(n),
        k <= n,
        0 <= y < pow2((n - k) as nat),
    ensures
        folds(e, bits_of(x, n).take(k as int))[y] == e[y * pow2(k) + (x % pow2(k)) as int],
        folds(e, bits_of(x, n).take(k as int)).len() == pow2((n - k) as nat),
    decreases k,
{
    let b = bits_of(x, n);
    lemma_folds_len(e, b.take(k as int), n);
    if k == 0 {
        lemma2_to64();
        assert(b.take(0) =~= seq![]);
        assert(x % 1 == 0);
        assert(y * 1 == y);
    } else {
        let km = (k - 1) as nat;
        let pk = pow2(km) as int;
        lemma_pow2_pos(km);
        lemma_pow2_unfold((n - km) as nat);
        assert((n - km) as nat == (n - k) as nat + 1);
        lemma_folds_push(e, b, km as int);
        let f = folds(e, b.take(km as int));
        let bk = b[km as int];
        assert(bk == (x / pow2(km)) as int % 2);
        lemma_folds_on_bits(e, n, x, km, 2 * y);
        lemma_folds_on_bits(e, n, x, km, 2 * y + 1);
        lemma_folds_len(e, b.take(km as int), n);
        assert(f.len() == pow2((n - km) as nat));
        let a0 = f[2 * y];
        let a1 = f[2 * y + 1];
        // entries of folds of residues are residues
        lemma_mod_bound(x as int, pk);
        let lo = (x % pow2(km)) as int;
        assert(0 <= lo < pk);
        let i0 = (2 * y) * pk + lo;
        let i1 = (2 * y + 1) * pk + lo;
        assert(0 <= i0 < i1) by (nonlinear_arith)
            requires
                y >= 0,
                pk > 0,
                lo >= 0,
                i0 == (2 * y) * pk + lo,
                i1 == (2 * y + 1) * pk + lo,
        ;
        let big = pow2((n - k) as nat) as int;
        assert(e.len() == big * 2 * pk) by {
            lemma_pow2_adds((n - km) as nat, km);
            assert((n - km) + km == n);
        }
        assert(i1 < e.len()) by (nonlinear_arith)
            requires
                i1 == (2 * y + 1) * pk + lo,
                lo < pk,
                y + 1 <= big,
                pk > 0,
                e.len() == big * 2 * pk,
        ;
        assert(0 <= a0 < p());
        assert(0 <= a1 < p());
        lemma_lerp_at_0(a0, a1);
        lemma_lerp_at_1(a0, a1);
        assert(fold_first(f, bk)[y] == lerp(a0, a1, bk));
        // x mod 2^k = bk·2^(k-1) + x mod 2^(k-1)
        lemma_mod_breakdown(x as int, pk, 2);
        lemma_pow2_unfold(k);
        assert(pow2(k) == pk * 2);
        lemma_mod_bound((x / pow2(km)) as int, 2);
        if bk == 0 {
            assert(y * pow2(k) + (x % pow2(k)) as int == i0) by (nonlinear_arith)
                requires
                    pow2(k) == pk * 2,
                    (x % pow2(k)) as int == pk * bk + lo,
                    bk == 0,
                    i0 == (2 * y) * pk + lo,
            ;
        } else {
            assert(y * pow2(k) + (x % pow2(k)) as int == i1) by (nonlinear_arith)
                requires
                    pow2(k) == pk * 2,
                    (x % pow2(k)) as int == pk * bk + lo,
                    bk == 1,
                    i1 == (2 * y + 1) * pk + lo,
            ;
        }
    }
}

/// The multilinear extension agrees with the table on the hypercube: at the
/// point whose coordinate `i` is bit `i` of `x`, it is entry `x`.
pub proof fn lemma_mle_on_cube(e: Seq<int>, n: nat, x: nat)
    requires
        e.len() == pow2(n),
        forall|j: int| 0 <= j < e.len() ==> 0 <= #[trigger] e[j] < p(),
        x < pow2(n),
    ensures
        mle(e, bits_of(x, n)) == e[x as int],
{
    let b = bits_of(x, n);
    lemma2_to64();
    assert((n - n) as nat == 0);
    lemma_folds_on_bits(e, n, x, n, 0);
    assert(b.take(n as int) =~= b);
    lemma_small_mod(x, pow2(n));
}

/// Evaluates one Lagrange basis polynomial of the hypercube at `r`:
/// `L_idx(r) = Π_i (r_i if bit i of idx is 1, else 1 - r_i)`.
pub fn evaluate_lagrange_single(r: &[Fe], idx: usize) -> (res: Fe)
    requires
        r.len() <= usize::BITS,
    ensures
        res@ == lagrange_single(fvals(r@), idx, r.len() as nat),
{
    let one = Fe::one();
    let mut result = one;
    let mut i: usize = 0;
    proof {
        lemma_fe_range(one);
    }
    while i < r.len()
        invariant
            i <= r.len(),
            r.len() <= usize::BITS,
            one@ == 1,
            result@ == lagrange_single(fvals(r@), idx, i as nat),
        decreases r.len() - i,
    {
        let r_i = r[i];
        if (idx >> i) & 1 == 1 {
            result = result.mul(&r_i);
        } else {
            result = result.mul(&one.sub(&r_i));
        }
        proof {
            let pr = lagrange_single(fvals(r@), idx, i as nat);
            lemma_fe_range(result);
            assert(fvals(r@)[i as int] == r_i@);
            assert(((i + 1) as nat - 1) as nat == i as nat);
        }
        i = i + 1;
    }
    result
}


/// `Π_{j<k, j≠i} (a - j)`.
pub open spec fn prod_except(a: int, i: int, k: nat) -> int
    decreases k,
{
    if k == 0 {
        1
    } else {
        let prev = prod_except(a, i, (k - 1) as nat);
        if k - 1 == i {
            prev
        } else {
            fmul(prev, fsub(a, k - 1))
        }
    }
}

/// `a` passes the inversion check: `a * a^(p-2) == 1`.
pub open spec fn inv_ok(a: int) -> bool {
    fmul(a, fpow(a, (p() - 2) as nat)) == 1
}

/// Every Lagrange denominator for the nodes `0..n` is invertible.
pub open spec fn interp_defined(n: nat) -> bool {
    forall|i: int| 0 <= i < n ==> #[trigger] inv_ok(prod_except(i, i, n))
}

/// The `i`-th Lagrange basis polynomial for nodes `0..n`, at `r`.
pub open spec fn lagrange_basis_at(r: int, i: int, n: nat) -> int {
    fmul(prod_except(r, i, n), fpow(prod_except(i, i, n), (p() - 2) as nat))
}

/// `Σ_{i<k} ys[i] · L_i(r)` for nodes `0..ys.len()`.
pub open spec fn interp_sum(ys: Seq<int>, r: int, k: nat) -> int
    decreases k,
{
    if k == 0 {
        0
    } else {
        fadd(
            interp_sum(ys, r, (k - 1) as nat),
            fmul(ys[k - 1], lagrange_basis_at(r, k - 1, ys.len())),
        )
    }
}

/// The value at `r` of the polynomial through `(i, ys[i])`, `i < ys.len()`.
pub open spec fn interpolate(ys: Seq<int>, r: int) -> Option<int> {
    if interp_defined(ys.len()) {
        Some(interp_sum(ys, r, ys.len()))
    } else {
        None
    }
}

/// `Π_{j<n, j≠i} (a - j)` in the field.
fn prod_except_exec(a: &Fe, i: usize, n: usize) -> (r: Fe)
    ensures
        r@ == prod_except(a@, i as int, n as nat),
{
    let mut acc = Fe::one();
    let mut j: usize = 0;
    while j < n
        invariant
            j <= n,
            acc@ == prod_except(a@, i as int, j as nat),
        decreases n - j,
    {
        if j != i {
            let fj = Fe::from_u64(j as u64);
            let d = a.sub(&fj);
            proof {
                vstd::arithmetic::div_mod::lemma_sub_mod_noop_right(a@, j as int, p());
                vstd::arithmetic::div_mod::lemma_mod_twice(a@ - j, p());
                vstd::arithmetic::div_mod::lemma_sub_mod_noop(a@, j as int, p());
                lemma_fe_range(*a);
                vstd::arithmetic::div_mod::lemma_small_mod(a@ as nat, p() as nat);
            }
            acc = acc.mul(&d);
        }
        j = j + 1;
    }
    acc
}

/// Evaluates at `r` the univariate polynomial of degree `< evals.len()`
/// that takes the value `evals[i]` at `i`, by Lagrange interpolation;
/// `None` when a denominator fails the inversion check.
pub fn evaluate_univariate_polynomial(evals: &[Fe], r: &Fe) -> (res: Option<Fe>)
    requires
        evals.len() < MODULUS,
    ensures
        res matches Some(v) ==> interpolate(fvals(evals@), r@) == Some(v@),
        res is None ==> interpolate(fvals(evals@), r@) is None,
{
    let n = evals.len();
    let ghost ys = fvals(evals@);
    let mut sum = Fe::zero();
    let mut i: usize = 0;
    while i < n
        invariant
            n == evals.len(),
            n < MODULUS,
            ys == fvals(evals@),
            i <= n,
            sum@ == interp_sum(ys, r@, i as nat),
            forall|k: int| 0 <= k < i ==> #[trigger] inv_ok(prod_except(k, k, n as nat)),
        decreases n - i,
    {
        let fi = Fe::from_u64(i as u64);
        proof {
            vstd::arithmetic::div_mod::lemma_small_mod(i as nat, p() as nat);
        }
        let num = prod_except_exec(r, i, n);
        let den = prod_except_exec(&fi, i, n);
        match den.inverse() {
            Some(inv) => {
                let basis = num.mul(&inv);
                let term = evals[i].mul(&basis);
                sum = sum.add(&term);
                proof {
                    assert(ys[i as int] == evals@[i as int]@);
                    assert(((i + 1) as nat - 1) as nat == i as nat);
                }
            },
            None => {
                proof {
                    assert(!inv_ok(prod_except(i as int, i as int, n as nat)));
                    assert(!interp_defined(n as nat));
                }
                return None;
            },
        }
        i = i + 1;
    }
    Some(sum)
}

} // verus!
