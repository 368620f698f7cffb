//! Index bookkeeping for einsum: reordering the variables of an evaluation
//! table, mapping a point back to the given variable order, summing out
//! trailing variables, and reading the index structure of an equation.
use crate::util::field::{fvals, lemma_fe_range, p, Fe};
use crate::util::expansion::{
    basis_at, bit, bit_factor, expansion, is_order_of, lemma_basis_as_product, lemma_fprod_reindex,
    lemma_fsum_congruent, lemma_fsum_reindex, lemma_mle_expansion, lemma_order_covers,
};
use crate::util::poly::{bits_of, mle, pow2_usize};
use vstd::arithmetic::div_mod::*;
use vstd::arithmetic::power2::*;
use vstd::bits::{lemma_u64_pow2_no_overflow, lemma_u64_shl_is_mul, lemma_u64_shr_is_div};
use vstd::prelude::*;

pub use crate::basicblock::einsum_equation::{
    char_to_range, classify_einsum_indices_from_shapes, einsum_helper, einsum_output_shape,
    EinsumIndexClassification, EinsumShapeError, RangeMap,
};

verus! {

/// The einsum block: contracts its inputs as `equation` says.
#[derive(Clone, Debug)]
pub struct Einsum {
    pub equation: String,
}

/// The positions `start, start + 1, .., end - 1` (empty when `start >= end`).
pub open spec fn span(start: int, end: int) -> Seq<int> {
    if start < end {
        Seq::new((end - start) as nat, |k: int| start + k)
    } else {
        Seq::empty()
    }
}

/// The variables of the ranges, range after range: entry `q` is the
/// variable of the input table that becomes variable `q`.
pub open spec fn range_order(ranges: Seq<(usize, usize)>) -> Seq<int>
    decreases ranges.len(),
{
    if ranges.len() == 0 {
        Seq::empty()
    } else {
        range_order(ranges.drop_last()) + span(ranges.last().0 as int, ranges.last().1 as int)
    }
}

/// Every range satisfies `start <= end <= n`, and together the ranges list
/// each of `0..n` exactly once.
pub open spec fn ranges_partition(ranges: Seq<(usize, usize)>, n: nat) -> bool {
    &&& forall|r: int| 0 <= r < ranges.len() ==> #[trigger] ranges[r].0 <= ranges[r].1 <= n
    &&& is_order_of(range_order(ranges), n)
}

/// Entry `j` of the reordered table is entry `i` of the input table: bit `q` of
/// `j` is bit `order[q]` of `i`, for every position `q`.
pub open spec fn moves_bits(order: Seq<int>, i: int, j: int) -> bool {
    forall|q: int| 0 <= q < order.len() ==> bit(i, #[trigger] order[q]) == bit(j, q)
}

/// A list of words as integers.
pub open spec fn as_ints(s: Seq<usize>) -> Seq<int> {
    s.map_values(|x: usize| x as int)
}

/// Two numbers below `2^n` with the same low `n` bits are equal.
pub proof fn lemma_bits_determine(x: int, y: int, n: nat)
    requires
        0 <= x < pow2(n),
        0 <= y < pow2(n),
        forall|v: int| 0 <= v < n ==> #[trigger] bit(x, v) == bit(y, v),
    ensures
        x == y,
    decreases n,
{
    lemma2_to64();
    if n > 0 {
        let m = (n - 1) as nat;
        lemma_pow2_unfold(n);
        let x2 = x / 2;
        let y2 = y / 2;
        lemma_fundamental_div_mod(x, 2);
        lemma_fundamental_div_mod(y, 2);
        assert forall|v: int| 0 <= v < m implies #[trigger] bit(x2, v) == bit(y2, v) by {
            lemma_pow2_pos(v as nat);
            lemma_pow2_unfold((v + 1) as nat);
            lemma_div_denominator(x, 2, pow2(v as nat) as int);
            lemma_div_denominator(y, 2, pow2(v as nat) as int);
            assert(bit(x, v + 1) == bit(y, v + 1));
        }
        lemma_bits_determine(x2, y2, m);
        assert(bit(x, 0) == bit(y, 0));
        assert(x / 1 == x && y / 1 == y);
    }
}

/// Bit `v` of `x`, read with a shift and a mask.
pub(crate) proof fn lemma_shift_bit(x: u64, v: u64)
    requires
        v < 64,
    ensures
        ((x >> v) & 1) as int == bit(x as int, v as int),
{
    lemma_u64_shr_is_div(x, v);
    let y = x >> v;
    assert(y & 1 == y % 2) by (bit_vector);
}

/// Setting bit `w` changes bit `w` only.
proof fn lemma_set_bit(a: u64, w: u64, v: u64)
    requires
        w < 64,
        v < 64,
    ensures
        ((a | (1u64 << w)) >> v) & 1 == (if v == w { 1u64 } else { (a >> v) & 1 }),
{
    assert(((a | (1u64 << w)) >> v) & 1 == (if v == w { 1u64 } else { (a >> v) & 1 }))
        by (bit_vector)
        requires
            w < 64,
            v < 64,
    ;
}

/// Setting a bit below `n` keeps a number below `2^n`.
proof fn lemma_set_bit_bound(a: u64, w: u64, n: u64)
    requires
        w < n,
        n < 64,
        a < (1u64 << n),
    ensures
        (a | (1u64 << w)) < (1u64 << n),
{
    assert((a | (1u64 << w)) < (1u64 << n)) by (bit_vector)
        requires
            w < n,
            n < 64,
            a < (1u64 << n),
    ;
}

/// `2^k` as a shift, for `k < 64`.
proof fn lemma_shl_one(k: u64)
    requires
        k < 64,
    ensures
        (1u64 << k) as int == pow2(k as nat),
{
    lemma_u64_pow2_no_overflow(k as nat);
    lemma_u64_shl_is_mul(1u64, k);
}

/// A table of `2^n` entries that fits in memory has `n < 64`.
proof fn lemma_small_exponent(n: nat)
    requires
        pow2(n) <= usize::MAX,
    ensures
        n < 64,
{
    if n >= 64 {
        lemma2_to64_rest();
        if n > 64 {
            lemma_pow2_strictly_increases(64, n);
        }
    }
}

/// `2^a <= 2^b` for `a <= b`.
proof fn lemma_pow2_le(a: nat, b: nat)
    requires
        a <= b,
    ensures
        pow2(a) <= pow2(b),
{
    if a < b {
        lemma_pow2_strictly_increases(a, b);
    }
}

/// The variables of the ranges, in order.
fn flatten_ranges(ranges: &[(usize, usize)]) -> (order: Vec<usize>)
    ensures
        as_ints(order@) == range_order(ranges@),
{
    let mut order: Vec<usize> = Vec::new();
    let mut r: usize = 0;
    while r < ranges.len()
        invariant
            r <= ranges.len(),
            as_ints(order@) == range_order(ranges@.take(r as int)),
        decreases ranges.len() - r,
    {
        let (start, end) = ranges[r];
        let mut v: usize = start;
        while v < end
            invariant
                start <= v,
                v <= end || v == start,
                as_ints(order@) == range_order(ranges@.take(r as int)) + span(
                    start as int,
                    v as int,
                ),
            decreases end - v,
        {
            order.push(v);
            proof {
                let pre = range_order(ranges@.take(r as int));
                assert(span(start as int, (v + 1) as int) =~= span(start as int, v as int).push(
                    v as int,
                ));
                assert(as_ints(order@) =~= as_ints(order@.drop_last()).push(v as int));
                assert(pre + span(start as int, (v + 1) as int) =~= (pre + span(
                    start as int,
                    v as int,
                )).push(v as int));
            }
            v = v + 1;
        }
        proof {
            let t = ranges@.take(r as int + 1);
            assert(t.drop_last() =~= ranges@.take(r as int));
            assert(t.last() == ranges@[r as int]);
            if start < end {
                assert(v == end);
            } else {
                assert(span(start as int, v as int) =~= span(start as int, end as int));
            }
        }
        r = r + 1;
    }
    proof {
        assert(ranges@.take(ranges.len() as int) =~= ranges@);
    }
    order
}

/// The entry of the input table that lands at entry `j` of the
/// reordered one: bit `q` of `j` moves to bit `order[q]`.
fn source_index(order: &Vec<usize>, n: usize, j: usize) -> (src: usize)
    requires
        n < 64,
        pow2(n as nat) <= usize::MAX,
        is_order_of(as_ints(order@), n as nat),
        j < pow2(n as nat),
    ensures
        src < pow2(n as nat),
        moves_bits(as_ints(order@), src as int, j as int),
{
    let ghost ord = as_ints(order@);
    let jw = j as u64;
    let mut src: u64 = 0;
    let mut q: usize = 0;
    proof {
        lemma_shl_one(n as u64);
        lemma_pow2_pos(n as nat);
        assert(forall|v: u64| (0u64 >> v) & 1 == 0) by (bit_vector);
    }
    while q < n
        invariant
            n < 64,
            q <= n,
            order.len() == n,
            ord == as_ints(order@),
            is_order_of(ord, n as nat),
            jw == j,
            src < (1u64 << (n as u64)),
            forall|k: int|
                0 <= k < q ==> ((src >> (#[trigger] order@[k] as u64)) & 1) == ((jw >> (k as u64))
                    & 1),
            forall|v: u64|
                v < 64 && (forall|k: int| 0 <= k < q ==> order@[k] != v) ==> ((src >> v) & 1)
                    == 0,
        decreases n - q,
    {
        let w = order[q] as u64;
        assert(ord[q as int] == w);
        assert(w < n);
        let old_src = src;
        proof {
            assert forall|kk: int| 0 <= kk < q implies order@[kk] != w by {
                assert(ord[kk] != ord[q as int]);
            }
            assert((old_src >> w) & 1 == 0);
            let jb = jw >> (q as u64);
            assert((jb & 1) == 0 || (jb & 1) == 1) by (bit_vector);
        }
        if (jw >> (q as u64)) & 1 == 1 {
            proof {
                lemma_set_bit_bound(src, w, n as u64);
            }
            src = src | (1u64 << w);
        }
        proof {
            assert forall|k: int| 0 <= k < q + 1 implies ((src >> (#[trigger] order@[k] as u64))
                & 1) == ((jw >> (k as u64)) & 1) by {
                let vk = order@[k] as u64;
                assert(ord[k] == vk);
                lemma_set_bit(old_src, w, vk);
                if k < q {
                    assert(vk != w);
                } else {
                    assert(vk == w);
                }
            }
            assert forall|v: u64|
                v < 64 && (forall|k: int| 0 <= k < q + 1 ==> order@[k] != v) implies ((src >> v)
                & 1) == 0 by {
                lemma_set_bit(old_src, w, v);
                assert(order@[q as int] != v);
            }
        }
        q = q + 1;
    }
    proof {
        lemma_shl_one(n as u64);
        assert forall|k: int| 0 <= k < ord.len() implies bit(src as int, #[trigger] ord[k]) == bit(
            j as int,
            k,
        ) by {
            let vk = order@[k] as u64;
            assert(ord[k] == vk);
            lemma_shift_bit(src, vk);
            lemma_shift_bit(jw, k as u64);
        }
    }
    src as usize
}

/// Reorders the variables of an evaluation table of `2^n` entries: the
/// ranges, taken in order, list the old variables in their new order, so
/// bit `q` of a new index is bit `range_order(ranges)[q]` of the old one.
pub fn permute_evals_by_ranges<T: Copy>(evals: &[T], n: usize, ranges: &[(usize, usize)]) -> (out:
    Vec<T>)
    requires
        evals.len() == pow2(n as nat),
        ranges.len() > 0,
        ranges_partition(ranges@, n as nat),
    ensures
        out.len() == evals.len(),
        forall|i: int, j: int|
            #![trigger moves_bits(range_order(ranges@), i, j)]
            0 <= i < evals.len() && 0 <= j < evals.len() && moves_bits(range_order(ranges@), i, j)
                ==> out@[j] == evals@[i],
{
    let order = flatten_ranges(ranges);
    let ghost ord = as_ints(order@);
    proof {
        lemma_small_exponent(n as nat);
        lemma_order_covers(ord, n as nat);
    }
    let total = evals.len();
    let mut out: Vec<T> = Vec::new();
    let mut j: usize = 0;
    while j < total
        invariant
            n < 64,
            total == evals.len(),
            total == pow2(n as nat),
            ord == as_ints(order@),
            ord == range_order(ranges@),
            is_order_of(ord, n as nat),
            forall|v: int| 0 <= v < n ==> ord.contains(v),
            j <= total,
            out.len() == j,
            forall|i: int, jj: int|
                #![trigger moves_bits(ord, i, jj)]
                0 <= i < total && 0 <= jj < j && moves_bits(ord, i, jj) ==> out@[jj] == evals@[i],
        decreases total - j,
    {
        let src = source_index(&order, n, j);
        out.push(evals[src]);
        proof {
            assert forall|i: int, jj: int|
                #![trigger moves_bits(ord, i, jj)]
                0 <= i < total && 0 <= jj < j + 1 && moves_bits(ord, i, jj) implies out@[jj]
                == evals@[i] by {
                if jj == j {
                    assert forall|v: int| 0 <= v < n implies #[trigger] bit(i, v) == bit(
                        src as int,
                        v,
                    ) by {
                        assert(ord.contains(v));
                        let k = choose|k: int| 0 <= k < ord.len() && ord[k] == v;
                        assert(bit(i, ord[k]) == bit(jj, k));
                        assert(bit(src as int, ord[k]) == bit(jj, k));
                    }
                    lemma_bits_determine(i, src as int, n as nat);
                }
            }
        }
        j = j + 1;
    }
    out
}

/// Position of the last occurrence of `v` in `order`, or `0` if there is none.
pub open spec fn last_pos(order: Seq<int>, v: int) -> int
    decreases order.len(),
{
    if order.len() == 0 {
        0
    } else if order.last() == v {
        order.len() - 1
    } else {
        last_pos(order.drop_last(), v)
    }
}

/// Where `v` occurs, `last_pos` finds it; in a list without repeats it
/// finds the only occurrence.
pub proof fn lemma_last_pos(order: Seq<int>, v: int)
    ensures
        0 <= last_pos(order, v) < order.len() || (last_pos(order, v) == 0 && order.len() == 0),
        order.contains(v) ==> order[last_pos(order, v)] == v,
        forall|q: int|
            0 <= q < order.len() && order.no_duplicates() && order[q] == v ==> last_pos(order, v)
                == q,
    decreases order.len(),
{
    if order.len() > 0 {
        let d = order.drop_last();
        lemma_last_pos(d, v);
        if order.last() != v && order.contains(v) {
            let k = choose|k: int| 0 <= k < order.len() && order[k] == v;
            assert(k < d.len());
            assert(d[k] == v);
            assert(d.contains(v));
        }
        assert forall|q: int|
            0 <= q < order.len() && order.no_duplicates() && order[q] == v implies last_pos(
            order,
            v,
        ) == q by {
            if q < order.len() - 1 {
                assert(order.last() != v);
                assert(d[q] == v);
                assert(d.no_duplicates());
            }
        }
    }
}

/// Inverts the variable reordering on a point: coordinate `v` of the result
/// is the coordinate of `y` at the last position `q` with
/// `range_order(ranges)[q] == v` (at position `0` if there is none).
pub fn invert_points_by_ranges<T: Copy>(y: &[T], ranges: &[(usize, usize)]) -> (x: Vec<T>)
    requires
        range_order(ranges@).len() == y.len(),
        forall|k: int| 0 <= k < y.len() ==> #[trigger] range_order(ranges@)[k] < y.len(),
    ensures
        x.len() == y.len(),
        forall|v: int| 0 <= v < y.len() ==> #[trigger] x@[v] == y@[last_pos(range_order(ranges@), v)],
{
    let n = y.len();
    let order = flatten_ranges(ranges);
    let ghost ord = as_ints(order@);
    assert(order.len() == n);
    let mut pos: Vec<usize> = Vec::new();
    let mut k: usize = 0;
    while k < n
        invariant
            k <= n,
            pos.len() == k,
            forall|v: int| 0 <= v < k ==> pos@[v] == 0,
        decreases n - k,
    {
        pos.push(0);
        k = k + 1;
    }
    let mut q: usize = 0;
    while q < n
        invariant
            q <= n,
            n == y.len(),
            order.len() == n,
            ord == as_ints(order@),
            ord == range_order(ranges@),
            forall|k: int| 0 <= k < n ==> #[trigger] ord[k] < n,
            pos.len() == n,
            forall|v: int| 0 <= v < n ==> #[trigger] pos@[v] == last_pos(ord.take(q as int), v),
            forall|v: int| 0 <= v < n ==> #[trigger] pos@[v] < n,
        decreases n - q,
    {
        let v = order[q];
        assert(ord[q as int] == v);
        pos.set(v, q);
        proof {
            let t = ord.take(q as int + 1);
            assert(t.drop_last() =~= ord.take(q as int));
            assert(t.last() == v);
        }
        q = q + 1;
    }
    proof {
        assert(ord.take(n as int) =~= ord);
    }
    let mut x: Vec<T> = Vec::new();
    let mut v: usize = 0;
    while v < n
        invariant
            v <= n,
            n == y.len(),
            pos.len() == n,
            ord == range_order(ranges@),
            forall|w: int| 0 <= w < n ==> #[trigger] pos@[w] == last_pos(ord, w),
            forall|w: int| 0 <= w < n ==> #[trigger] pos@[w] < n,
            x.len() == v,
            forall|w: int| 0 <= w < v ==> #[trigger] x@[w] == y@[last_pos(ord, w)],
        decreases n - v,
    {
        x.push(y[pos[v]]);
        v = v + 1;
    }
    x
}

/// The number whose bit `v` is `b[v]`, for bits `b` in `{0, 1}`.
pub open spec fn from_bits(b: Seq<int>) -> int
    decreases b.len(),
{
    if b.len() == 0 {
        0
    } else {
        b[0] + 2 * from_bits(b.drop_first())
    }
}

/// `from_bits(b)` is below `2^|b|` and has the bits `b`.
pub proof fn lemma_from_bits(b: Seq<int>)
    requires
        forall|v: int| 0 <= v < b.len() ==> #[trigger] b[v] == 0 || b[v] == 1,
    ensures
        0 <= from_bits(b) < pow2(b.len()),
        forall|v: int| 0 <= v < b.len() ==> #[trigger] bit(from_bits(b), v) == b[v],
    decreases b.len(),
{
    lemma2_to64();
    if b.len() > 0 {
        let d = b.drop_first();
        lemma_from_bits(d);
        lemma_pow2_unfold(b.len());
        let x = from_bits(b);
        let x2 = from_bits(d);
        assert(x / 2 == x2 && x % 2 == b[0]) by {
            lemma_fundamental_div_mod_converse(x, 2, x2, b[0]);
        }
        assert forall|v: int| 0 <= v < b.len() implies #[trigger] bit(x, v) == b[v] by {
            if v == 0 {
                assert(x / 1 == x);
            } else {
                lemma_pow2_pos((v - 1) as nat);
                lemma_pow2_unfold(v as nat);
                lemma_div_denominator(x, 2, pow2((v - 1) as nat) as int);
                assert(bit(x2, v - 1) == d[v - 1]);
            }
        }
    }
}

/// Coordinate `v` of the point that `invert_points_by_ranges` gives for `y`.
pub open spec fn inverted_point(order: Seq<int>, y: Seq<int>) -> Seq<int> {
    Seq::new(order.len(), |v: int| y[last_pos(order, v)])
}

/// For an order of `0..n`, every entry `j` of a reordered table of `2^n`
/// entries comes from exactly one entry `i` of the input: the contract of
/// `permute_evals_by_ranges` fixes the whole table.
pub proof fn lemma_moves_bits_exactly_one(order: Seq<int>, n: nat, j: int)
    requires
        is_order_of(order, n),
        0 <= j < pow2(n),
    ensures
        exists|i: int| 0 <= i < pow2(n) && #[trigger] moves_bits(order, i, j),
        forall|i1: int, i2: int|
            0 <= i1 < pow2(n) && 0 <= i2 < pow2(n) && #[trigger] moves_bits(order, i1, j)
                && #[trigger] moves_bits(order, i2, j) ==> i1 == i2,
{
    lemma_order_covers(order, n);
    let y = bits_of(j as nat, n);
    let b = inverted_point(order, y);
    assert forall|v: int| 0 <= v < b.len() implies #[trigger] b[v] == 0 || b[v] == 1 by {
        lemma_last_pos(order, v);
        assert(order.contains(v));
        let q = last_pos(order, v);
        lemma_pow2_pos(q as nat);
        lemma_mod_bound((j / pow2(q as nat) as int), 2);
    }
    lemma_from_bits(b);
    let i = from_bits(b);
    assert(moves_bits(order, i, j)) by {
        assert forall|q: int| 0 <= q < order.len() implies bit(i, #[trigger] order[q]) == bit(j, q) by {
            let v = order[q];
            lemma_last_pos(order, v);
            assert(last_pos(order, v) == q);
            assert(b[v] == y[q]);
        }
    }
    assert forall|i1: int, i2: int|
        0 <= i1 < pow2(n) && 0 <= i2 < pow2(n) && #[trigger] moves_bits(order, i1, j)
            && #[trigger] moves_bits(order, i2, j) implies i1 == i2 by {
        assert forall|v: int| 0 <= v < n implies #[trigger] bit(i1, v) == bit(i2, v) by {
            assert(order.contains(v));
            let k = choose|k: int| 0 <= k < order.len() && order[k] == v;
            assert(bit(i1, order[k]) == bit(j, k));
            assert(bit(i2, order[k]) == bit(j, k));
        }
        lemma_bits_determine(i1, i2, n);
    }
}

/// The basis polynomial of corner `j` at `y` equals the basis polynomial
/// of the corner it comes from at the point mapped back.
proof fn lemma_basis_reorder(order: Seq<int>, n: nat, i: int, j: int, y: Seq<int>)
    requires
        is_order_of(order, n),
        moves_bits(order, i, j),
        y.len() == n,
    ensures
        basis_at(y, j, n) == basis_at(inverted_point(order, y), i, n),
{
    let x = inverted_point(order, y);
    let t = |v: int| bit_factor(bit(i, v), x[v]);
    let sq = |q: int| bit_factor(bit(j, q), y[q]);
    lemma_basis_as_product(y, j, n);
    lemma_basis_as_product(x, i, n);
    assert forall|q: int| 0 <= q < n implies crate::util::field::cong(#[trigger] sq(q), (|k: int| t(order[k]))(q)) by {
        let v = order[q];
        lemma_last_pos(order, v);
        assert(last_pos(order, v) == q);
        assert(x[v] == y[q]);
        assert(bit(i, order[q]) == bit(j, q));
    }
    crate::util::expansion::lemma_fprod_congruent(sq, |k: int| t(order[k]), n);
    lemma_fprod_reindex(t, order, n);
}

/// Reordering a table and mapping a point back preserve the multilinear
/// extension: if `out` is `evals` with its variables reordered by `order`
/// (the relation that `permute_evals_by_ranges` ensures), then at every
/// point `y` the extension of `out` equals the extension of `evals` at the
/// point that `invert_points_by_ranges` gives for `y`.
pub proof fn lemma_reorder_then_invert(
    evals: Seq<int>,
    out: Seq<int>,
    order: Seq<int>,
    n: nat,
    y: Seq<int>,
)
    requires
        is_order_of(order, n),
        evals.len() == pow2(n),
        out.len() == pow2(n),
        forall|k: int| 0 <= k < evals.len() ==> 0 <= #[trigger] evals[k] < p(),
        forall|k: int| 0 <= k < out.len() ==> 0 <= #[trigger] out[k] < p(),
        forall|i: int, jj: int|
            #![trigger moves_bits(order, i, jj)]
            0 <= i < pow2(n) && 0 <= jj < pow2(n) && moves_bits(order, i, jj) ==> out[jj]
                == evals[i],
        y.len() == n,
    ensures
        mle(out, y) == mle(evals, inverted_point(order, y)),
{
    let big = pow2(n);
    let x = inverted_point(order, y);
    let g = |j: int| choose|i: int| 0 <= i < big && #[trigger] moves_bits(order, i, j);
    let gs = Seq::new(big, |j: int| g(j));
    assert forall|j: int| 0 <= j < big implies 0 <= #[trigger] gs[j] < big && moves_bits(order, gs[j], j) by {
        lemma_moves_bits_exactly_one(order, n, j);
    }
    assert(is_order_of(gs, big)) by {
        assert forall|a: int, b: int| 0 <= a < gs.len() && 0 <= b < gs.len() && a != b implies gs[a] != gs[b] by {
            if gs[a] == gs[b] {
                assert(moves_bits(order, gs[a], a));
                assert(moves_bits(order, gs[b], b));
                lemma_order_covers(order, n);
                lemma_pow2_pos(n);
                assert forall|q: int| 0 <= q < n implies #[trigger] bit(a, q) == bit(b, q) by {
                    assert(bit(gs[a], order[q]) == bit(a, q));
                    assert(bit(gs[b], order[q]) == bit(b, q));
                }
                lemma_bits_determine(a, b, n);
            }
        }
    }
    let hy = |j: int| crate::util::field::fmul(out[j], basis_at(y, j, n));
    let hx = |i: int| crate::util::field::fmul(evals[i], basis_at(x, i, n));
    assert forall|j: int| 0 <= j < big implies crate::util::field::cong(#[trigger] hy(j), (|k: int| hx(gs[k]))(j)) by {
        let i = gs[j];
        assert(moves_bits(order, i, j));
        assert(out[j] == evals[i]);
        lemma_basis_reorder(order, n, i, j, y);
    }
    lemma_fsum_congruent(hy, |k: int| hx(gs[k]), big);
    lemma_fsum_reindex(hx, gs, big);
    lemma_mle_expansion(out, y, n);
    lemma_mle_expansion(evals, x, n);
    assert(expansion(out, y, n, big) == crate::util::expansion::fsum(hy, big));
    assert(expansion(evals, x, n, big) == crate::util::expansion::fsum(hx, big));
}

/// Repeats the table `2^add_dims` times: the evaluations of the same
/// polynomial with `add_dims` extra (ignored) high variables.
pub fn broadcast_evals_by_doubling<T: Copy>(evals: &[T], add_dims: usize) -> (out: Vec<T>)
    requires
        evals.len() * pow2(add_dims as nat) <= usize::MAX,
    ensures
        out.len() == evals.len() * pow2(add_dims as nat),
        forall|k: int| 0 <= k < out.len() ==> #[trigger] out@[k] == evals@[k % (evals.len() as int)],
{
    let e = evals.len();
    let mut out: Vec<T> = Vec::new();
    let mut k: usize = 0;
    while k < e
        invariant
            k <= e,
            e == evals.len(),
            out.len() == k,
            forall|i: int| 0 <= i < k ==> #[trigger] out@[i] == evals@[i],
        decreases e - k,
    {
        out.push(evals[k]);
        k = k + 1;
    }
    proof {
        lemma2_to64();
        assert forall|i: int| 0 <= i < out.len() implies #[trigger] out@[i] == evals@[i % (
        e as int)] by {
            lemma_small_mod(i as nat, e as nat);
        }
    }
    let mut d: usize = 0;
    while d < add_dims
        invariant
            d <= add_dims,
            e == evals.len(),
            e * pow2(add_dims as nat) <= usize::MAX,
            out.len() == e * pow2(d as nat),
            forall|i: int| 0 <= i < out.len() ==> #[trigger] out@[i] == evals@[i % (e as int)],
        decreases add_dims - d,
    {
        let len = out.len();
        proof {
            lemma_pow2_unfold((d + 1) as nat);
            lemma_pow2_le((d + 1) as nat, add_dims as nat);
            assert(e * pow2((d + 1) as nat) <= e * pow2(add_dims as nat)) by (nonlinear_arith)
                requires
                    pow2((d + 1) as nat) <= pow2(add_dims as nat),
            ;
            assert(e * pow2((d + 1) as nat) == 2 * len) by (nonlinear_arith)
                requires
                    pow2((d + 1) as nat) == 2 * pow2(d as nat),
                    len == e * pow2(d as nat),
            ;
        }
        let mut k: usize = 0;
        while k < len
            invariant
                k <= len,
                e == evals.len(),
                len == e * pow2(d as nat),
                2 * len <= usize::MAX,
                out.len() == len + k,
                forall|i: int| 0 <= i < out.len() ==> #[trigger] out@[i] == evals@[i % (e as int)],
            decreases len - k,
        {
            let x = out[k];
            out.push(x);
            proof {
                let i = (len + k) as int;
                assert(out@[i] == evals@[(k as int) % (e as int)]);
                if e > 0 {
                    lemma_mod_multiples_vanish(pow2(d as nat) as int, k as int, e as int);
                    assert(e * pow2(d as nat) == (e as int) * (pow2(d as nat) as int));
                }
            }
            k = k + 1;
        }
        d = d + 1;
    }
    out
}

/// `Σ_{k < count} e[base + k·stride]`.
pub open spec fn stride_sum(e: Seq<int>, base: int, stride: int, count: nat) -> int
    decreases count,
{
    if count == 0 {
        0
    } else {
        stride_sum(e, base, stride, (count - 1) as nat) + e[base + (count - 1) * stride]
    }
}

/// Summing at stride `h` over `2K` terms is summing the even and the odd
/// terms, each at stride `2h`.
pub proof fn lemma_stride_sum_interleave(e: Seq<int>, base: int, h: int, count: nat)
    ensures
        stride_sum(e, base, h, 2 * count) == stride_sum(e, base, 2 * h, count) + stride_sum(
            e,
            base + h,
            2 * h,
            count,
        ),
    decreases count,
{
    if count > 0 {
        let c = (count - 1) as nat;
        lemma_stride_sum_interleave(e, base, h, c);
        assert((2 * count - 1) as nat == 2 * c + 1);
        assert((2 * c + 1 - 1) as nat == 2 * c);
        assert(base + (2 * c) * h == base + c * (2 * h)) by (nonlinear_arith);
        assert(base + (2 * c + 1) * h == (base + h) + c * (2 * h)) by (nonlinear_arith);
        assert(stride_sum(e, base, h, 2 * c + 1) == stride_sum(e, base, h, 2 * c) + e[base + (2
            * c) * h]);
        assert(stride_sum(e, base, h, 2 * c + 2) == stride_sum(e, base, h, 2 * c + 1) + e[base + (2
            * c + 1) * h]);
        assert(2 * count == 2 * c + 2);
    }
}

/// A stride sum in the field.
proof fn lemma_stride_sum_mod(e: Seq<int>, base: int, stride: int, count: nat)
    ensures
        stride_sum(e, base, stride, count) % p() == crate::util::expansion::fsum(
            |k: int| e[base + k * stride],
            count,
        ),
    decreases count,
{
    if count == 0 {
        lemma_small_mod(0, p() as nat);
    } else {
        let c = (count - 1) as nat;
        lemma_stride_sum_mod(e, base, stride, c);
        let s = stride_sum(e, base, stride, c);
        let t = e[base + c * stride];
        crate::util::field::lemma_cong_mod(s);
        crate::util::field::lemma_cong_add(s % p(), t, s, t);
    }
}

/// Binding the variables of `a` and then those of `b` binds `a + b`.
pub(crate) proof fn lemma_folds_concat(e: Seq<int>, a: Seq<int>, b: Seq<int>)
    ensures
        crate::util::poly::folds(e, a + b) == crate::util::poly::folds(crate::util::poly::folds(e, a), b),
    decreases b.len(),
{
    if b.len() == 0 {
        assert(a + b =~= a);
    } else {
        lemma_folds_concat(e, a, b.drop_last());
        assert((a + b).drop_last() =~= a + b.drop_last());
        assert((a + b).last() == b.last());
    }
}

/// The entries of a table bound at some variables are field elements.
pub(crate) proof fn lemma_folds_residues(e: Seq<int>, rs: Seq<int>)
    requires
        forall|k: int| 0 <= k < e.len() ==> 0 <= #[trigger] e[k] < p(),
    ensures
        forall|k: int|
            0 <= k < crate::util::poly::folds(e, rs).len() ==> 0 <= #[trigger] crate::util::poly::folds(e, rs)[k] < p(),
    decreases rs.len(),
{
    if rs.len() > 0 {
        lemma_folds_residues(e, rs.drop_last());
        let f = crate::util::poly::folds(e, rs.drop_last());
        assert forall|k: int|
            0 <= k < crate::util::poly::folds(e, rs).len() implies 0 <= #[trigger] crate::util::poly::folds(e, rs)[k] < p() by {
            crate::util::field::lemma_residue(
                f[2 * k] + crate::util::field::fmul(rs.last(), crate::util::field::fsub(f[2 * k + 1], f[2 * k])),
            );
        }
    }
}

/// Binding the first `keep` variables of a table at `x` leaves, at entry
/// `k`, the extension at `x` of block `k` of the table.
pub(crate) proof fn lemma_folds_blocks(e: Seq<int>, x: Seq<int>, nv: nat, k: int)
    requires
        e.len() == pow2(nv),
        x.len() <= nv,
        0 <= k < pow2((nv - x.len()) as nat),
    ensures
        crate::util::poly::folds(e, x).len() == pow2((nv - x.len()) as nat),
        crate::util::poly::folds(e, x)[k] == mle(
            e.subrange(k * pow2(x.len()), (k + 1) * pow2(x.len())),
            x,
        ),
    decreases x.len(),
{
    lemma2_to64();
    let keep = x.len();
    crate::util::poly::lemma_folds_len(e, x, nv);
    if keep == 0 {
        assert(x =~= Seq::<int>::empty());
        let blk = e.subrange(k, k + 1);
        assert(crate::util::poly::folds(blk, x) == blk);
        assert(crate::util::poly::folds(e, x) == e);
        assert(pow2(x.len()) == 1);
        assert(k * 1 == k);
        assert((k + 1) * 1 == k + 1);
        assert(e.subrange(k * pow2(x.len()), (k + 1) * pow2(x.len())) == blk);
        assert(mle(blk, x) == blk[0]);
    } else {
        let big = pow2(keep) as int;
        let half = pow2((keep - 1) as nat) as int;
        lemma_pow2_unfold(keep);
        lemma_pow2_unfold(nv);
        lemma_pow2_pos((keep - 1) as nat);
        let f = crate::util::poly::fold_first(e, x[0]);
        let xd = x.drop_first();
        assert(f.len() == pow2((nv - 1) as nat)) by {
            lemma_div_multiples_vanish(pow2((nv - 1) as nat) as int, 2);
        }
        crate::util::expansion::lemma_folds_first(e, x);
        assert((nv - 1 - xd.len()) as nat == (nv - keep) as nat);
        lemma_folds_blocks(f, xd, (nv - 1) as nat, k);
        let blk = e.subrange(k * big, (k + 1) * big);
        let fblk = f.subrange(k * half, (k + 1) * half);
        assert(k * big == 2 * (k * half)) by (nonlinear_arith)
            requires
                big == 2 * half,
        ;
        assert((k + 1) * big == 2 * ((k + 1) * half)) by (nonlinear_arith)
            requires
                big == 2 * half,
        ;
        assert(pow2(nv) == pow2((nv - keep) as nat) * pow2(keep)) by {
            lemma_pow2_adds((nv - keep) as nat, keep);
        }
        assert((k + 1) * big <= e.len()) by (nonlinear_arith)
            requires
                k + 1 <= pow2((nv - keep) as nat),
                e.len() == pow2(nv),
                pow2(nv) == pow2((nv - keep) as nat) * big,
                big > 0,
        {
        }
        assert(0 <= k * big <= (k + 1) * big) by (nonlinear_arith)
            requires
                k >= 0,
                big > 0,
        ;
        assert(blk.len() == big) by {
            assert(blk.len() == (k + 1) * big - k * big);
            assert((k + 1) * big - k * big == big) by (nonlinear_arith);
        }
        assert(fblk =~= crate::util::poly::fold_first(blk, x[0])) by {
            assert forall|y: int| 0 <= y < half implies #[trigger] fblk[y] == crate::util::poly::fold_first(blk, x[0])[y] by {
                assert(fblk[y] == f[k * half + y]);
                assert(2 * (k * half + y) == k * big + 2 * y);
                assert(blk[2 * y] == e[k * big + 2 * y]);
                assert(blk[2 * y + 1] == e[k * big + 2 * y + 1]);
            }
        }
        crate::util::expansion::lemma_folds_first(blk, x);
        assert(xd.len() == keep - 1);
        assert(pow2(xd.len()) == half);
        assert(f.subrange(k * half, (k + 1) * half) == fblk);
        assert(crate::util::poly::folds(e, x) == crate::util::poly::folds(f, xd));
        assert(crate::util::poly::folds(blk, x) == crate::util::poly::folds(
            crate::util::poly::fold_first(blk, x[0]),
            xd,
        ));
        assert(mle(fblk, xd) == mle(blk, x));
        assert(crate::util::poly::folds(e, x)[k] == mle(blk, x));
    }
}

/// Summing out the trailing variables commutes with evaluating the others:
/// for the table `out` that `sum_over_suffix` returns, the extension of
/// `out` at `x` is the sum, over the corners `b` of the trailing
/// variables, of the extension of `evals` at `x` followed by `b`.
pub proof fn lemma_sum_over_suffix_extension(e: Seq<int>, out: Seq<int>, nv: nat, keep: nat, x: Seq<int>)
    requires
        e.len() == pow2(nv),
        keep <= nv,
        forall|k: int| 0 <= k < e.len() ==> 0 <= #[trigger] e[k] < p(),
        out.len() == pow2(keep),
        forall|j: int|
            0 <= j < out.len() ==> #[trigger] out[j] == stride_sum(
                e,
                j,
                pow2(keep) as int,
                pow2((nv - keep) as nat),
            ) % p(),
        x.len() == keep,
    ensures
        mle(out, x) == crate::util::expansion::fsum(
            |k: int| mle(e, x + bits_of(k as nat, (nv - keep) as nat)),
            pow2((nv - keep) as nat),
        ),
{
    let big = pow2(keep) as int;
    let cnt = pow2((nv - keep) as nat);
    let c = |j: int, k: int| crate::util::field::fmul(e[j + k * big], basis_at(x, j, keep));
    assert forall|j: int| 0 <= j < out.len() implies 0 <= #[trigger] out[j] < p() by {
        crate::util::field::lemma_residue(stride_sum(e, j, big, cnt));
    }
    crate::util::expansion::lemma_mle_expansion(out, x, keep);
    // each term of the expansion of `out` is a sum over the blocks
    let lhs = |j: int| crate::util::field::fmul(out[j], basis_at(x, j, keep));
    let rows = |j: int| crate::util::expansion::fsum(|k: int| c(j, k), cnt);
    assert forall|j: int| 0 <= j < big implies crate::util::field::cong(#[trigger] lhs(j), rows(j)) by {
        lemma_stride_sum_mod(e, j, big, cnt);
        crate::util::expansion::lemma_fsum_scale(|k: int| e[j + k * big], basis_at(x, j, keep), cnt);
        crate::util::expansion::lemma_fsum_congruent(
            |k: int| crate::util::field::fmul((|k: int| e[j + k * big])(k), basis_at(x, j, keep)),
            |k: int| c(j, k),
            cnt,
        );
    }
    lemma_fsum_congruent(lhs, rows, big as nat);
    crate::util::expansion::lemma_fsum_swap(c, big as nat, cnt);
    // each column is the extension of one block
    let cols = |k: int| crate::util::expansion::fsum(|j: int| c(j, k), big as nat);
    let target = |k: int| mle(e, x + bits_of(k as nat, (nv - keep) as nat));
    lemma_folds_residues(e, x);
    assert forall|k: int| 0 <= k < cnt implies crate::util::field::cong(#[trigger] cols(k), target(k)) by {
        lemma_pow2_pos(keep);
        assert(pow2(nv) == cnt * big) by {
            lemma_pow2_adds((nv - keep) as nat, keep);
        }
        assert((k + 1) * big <= e.len()) by (nonlinear_arith)
            requires
                k + 1 <= cnt,
                e.len() == pow2(nv),
                pow2(nv) == cnt * big,
                big > 0,
        {
        }
        assert(0 <= k * big <= (k + 1) * big) by (nonlinear_arith)
            requires
                k >= 0,
                big > 0,
        ;
        let blk = e.subrange(k * big, (k + 1) * big);
        lemma_folds_blocks(e, x, nv, k);
        assert(blk.len() == big) by {
            assert(blk.len() == (k + 1) * big - k * big);
            assert((k + 1) * big - k * big == big) by (nonlinear_arith);
        }
        crate::util::expansion::lemma_mle_expansion(blk, x, keep);
        crate::util::expansion::lemma_fsum_congruent(
            |j: int| c(j, k),
            |j: int| crate::util::field::fmul(blk[j], basis_at(x, j, keep)),
            big as nat,
        );
        let fx = crate::util::poly::folds(e, x);
        crate::util::poly::lemma_mle_on_cube(fx, (nv - keep) as nat, k as nat);
        lemma_folds_concat(e, x, bits_of(k as nat, (nv - keep) as nat));
        crate::util::field::lemma_cong_mod(cols(k));
        lemma_folds_residues(blk, x);
    }
    lemma_fsum_congruent(cols, target, cnt);
}

/// Sums out the trailing `nv - keep_prefix` variables of a table of
/// `2^nv` evaluations: entry `j` of the result is the sum of the entries
/// `j + k·2^keep_prefix`.
pub fn sum_over_suffix(evals: &[Fe], nv: usize, keep_prefix: usize) -> (out: Vec<Fe>)
    requires
        evals.len() == pow2(nv as nat),
        keep_prefix <= nv,
    ensures
        out.len() == pow2(keep_prefix as nat),
        forall|j: int|
            0 <= j < out.len() ==> #[trigger] out@[j]@ == stride_sum(
                fvals(evals@),
                j,
                pow2(keep_prefix as nat) as int,
                pow2((nv - keep_prefix) as nat),
            ) % p(),
{
    let ghost e = fvals(evals@);
    let mut poly: Vec<Fe> = Vec::new();
    let mut k: usize = 0;
    while k < evals.len()
        invariant
            k <= evals.len(),
            e == fvals(evals@),
            poly.len() == k,
            forall|i: int| 0 <= i < k ==> #[trigger] poly@[i] == evals@[i],
        decreases evals.len() - k,
    {
        poly.push(evals[k]);
        k = k + 1;
    }
    proof {
        lemma2_to64();
        assert forall|j: int| 0 <= j < pow2(nv as nat) implies #[trigger] poly@[j]@
            == stride_sum(e, j, pow2(nv as nat) as int, pow2(0)) % p() by {
            assert(stride_sum(e, j, pow2(nv as nat) as int, 0) == 0);
            assert(j + 0 * (pow2(nv as nat) as int) == j);
            lemma_fe_range(evals@[j]);
            lemma_small_mod(e[j] as nat, p() as nat);
        }
    }
    let suffix_vars = nv - keep_prefix;
    let mut i: usize = 0;
    while i < suffix_vars
        invariant
            i <= suffix_vars,
            suffix_vars == nv - keep_prefix,
            keep_prefix <= nv,
            e == fvals(evals@),
            evals.len() == pow2(nv as nat),
            poly.len() == pow2(nv as nat),
            forall|j: int|
                0 <= j < pow2((nv - i) as nat) ==> #[trigger] poly@[j]@ == stride_sum(
                    e,
                    j,
                    pow2((nv - i) as nat) as int,
                    pow2(i as nat),
                ) % p(),
        decreases suffix_vars - i,
    {
        proof {
            lemma_pow2_le((nv - 1 - i) as nat, nv as nat);
            lemma_pow2_unfold((nv - i) as nat);
            lemma_pow2_unfold((i + 1) as nat);
            lemma_pow2_le((nv - i) as nat, nv as nat);
        }
        let half = pow2_usize(nv - 1 - i);
        let ghost a = pow2((nv - i) as nat) as int;
        let ghost cnt = pow2(i as nat);
        assert(a == 2 * half);
        let mut j: usize = 0;
        while j < half
            invariant
                j <= half,
                a == 2 * half,
                a <= poly.len(),
                poly.len() == pow2(nv as nat),
                cnt == pow2(i as nat),
                e == fvals(evals@),
                forall|jj: int|
                    0 <= jj < j ==> #[trigger] poly@[jj]@ == stride_sum(
                        e,
                        jj,
                        half as int,
                        2 * cnt,
                    ) % p(),
                forall|jj: int|
                    j <= jj < a ==> #[trigger] poly@[jj]@ == stride_sum(e, jj, a, cnt) % p(),
            decreases half - j,
        {
            let s = poly[j].add(&poly[j + half]);
            proof {
                lemma_stride_sum_interleave(e, j as int, half as int, cnt);
                lemma_add_mod_noop(
                    stride_sum(e, j as int, a, cnt),
                    stride_sum(e, (j + half) as int, a, cnt),
                    p(),
                );
            }
            poly.set(j, s);
            j = j + 1;
        }
        proof {
            assert((nv - (i + 1)) as nat == (nv - 1 - i) as nat);
            assert(2 * cnt == pow2((i + 1) as nat));
        }
        i = i + 1;
    }
    proof {
        assert((nv - suffix_vars) as nat == keep_prefix as nat);
        lemma_pow2_le(keep_prefix as nat, nv as nat);
    }
    let keep = pow2_usize(keep_prefix);
    poly.truncate(keep);
    poly
}

} // verus!
