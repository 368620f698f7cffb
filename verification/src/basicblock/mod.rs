//! Witness generation for the basic blocks of the circuit: the values each
//! block computes from its inputs, and the table selections its lookups
//! are proved against.
pub mod add;
pub mod einsum;
pub mod einsum_equation;
pub mod einsum_sumcheck;
pub mod elemdiv;
pub mod exp;
pub mod llama;
pub mod range;
pub mod relu;
pub mod scale;
pub mod shape;
pub mod spmv;

use crate::util::field::{fsub, Fe};
use vstd::arithmetic::div_mod::lemma_fundamental_div_mod_converse;
use vstd::prelude::*;

verus! {

/// The field element that encodes the signed integer `v` through a `u32`:
/// `v as u32` when `v >= 0`, otherwise `0 - ((-v) as u32)`.
pub open spec fn encode_spec(v: int) -> int {
    if v >= 0 {
        (v as u32) as int
    } else {
        fsub(0, ((-v) as u32) as int)
    }
}

/// Encodes a signed integer as a field element through a `u32`.
pub fn encode_signed(v: i128) -> (r: Fe)
    requires
        v > i128::MIN,
    ensures
        r@ == encode_spec(v as int),
{
    if v >= 0 {
        Fe::from_u32(v as u32)
    } else {
        Fe::zero().sub(&Fe::from_u32((-v) as u32))
    }
}

/// Entry `g + d·stride` (with `g < stride`) has group `g` and position `d`.
pub(crate) proof fn lemma_group_index(g: int, d: int, stride: int)
    requires
        0 <= g < stride,
        0 <= d,
    ensures
        (g + d * stride) % stride == g,
        (g + d * stride) / stride == d,
{
    lemma_fundamental_div_mod_converse(g + d * stride, stride, d, g);
}

pub(crate) proof fn lemma_index_bound(g: int, d: int, stride: int, m: int)
    requires
        0 <= g < stride,
        0 <= d < m,
    ensures
        0 <= g + d * stride < stride * m,
{
    assert(d * stride <= (m - 1) * stride) by (nonlinear_arith)
        requires
            d <= m - 1,
            stride > 0,
    ;
    assert((m - 1) * stride + stride == stride * m) by (nonlinear_arith);
    assert(0 <= d * stride) by (nonlinear_arith)
        requires
            d >= 0,
            stride > 0,
    ;
}

/// A value that fits a `u32` in magnitude is encoded exactly: its residue.
pub proof fn lemma_encode_small(v: int)
    requires
        -0x1_0000_0000 < v < 0x1_0000_0000,
    ensures
        encode_spec(v) == v % crate::util::field::p(),
{
    if v >= 0 {
        assert((v as u32) as int == v);
        vstd::arithmetic::div_mod::lemma_small_mod(v as nat, crate::util::field::p() as nat);
    } else {
        assert(((-v) as u32) as int == -v);
        assert(0 - (-v) == v);
    }
}

/// The signed value of the residue of a small integer is the integer.
pub proof fn lemma_signed_of_small(a: int)
    requires
        -(crate::util::field::p() - 1) / 2 <= a <= (crate::util::field::p() - 1) / 2,
    ensures
        crate::util::field::signed_value(a % crate::util::field::p()) == a,
{
    let p = crate::util::field::p();
    if a >= 0 {
        vstd::arithmetic::div_mod::lemma_small_mod(a as nat, p as nat);
    } else {
        vstd::arithmetic::div_mod::lemma_mod_add_multiples_vanish(a, p);
        vstd::arithmetic::div_mod::lemma_small_mod((a + p) as nat, p as nat);
    }
}

} // verus!
