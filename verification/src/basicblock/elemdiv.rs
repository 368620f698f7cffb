//! Element-wise division advice.
use crate::basicblock::{encode_signed, encode_spec};
use crate::util::field::{lemma_fe_range, lemma_signed_value_bounds, signed_value, Fe};
use vstd::arithmetic::power2::{lemma_pow2_unfold, pow2};
use vstd::prelude::*;

verus! {

/// Rust's integer division: the quotient of the magnitudes, rounded toward
/// zero, with the sign of the product.
pub open spec fn trunc_div(a: int, b: int) -> int {
    let q = (if a >= 0 { a } else { -a }) / (if b >= 0 { b } else { -b });
    if (a >= 0) == (b > 0) || a == 0 {
        q
    } else {
        -q
    }
}

/// Advice block computing `z = S·x / y` element-wise with `S = 2^sf`,
/// rounded toward zero (the floor, for the non-negative numerators and
/// positive divisors of attention normalization); `z = 0` where `y = 0`.
/// Its soundness comes from constraints elsewhere: `y·z` by an einsum,
/// `S·x` by a scale-up, and the range checks `0 <= S·x - y·z < y`.
#[derive(Clone, Debug)]
pub struct ElemDivHelper;

/// `2^k` as an `i128`.
pub(crate) fn pow2_i128(k: usize) -> (r: i128)
    requires
        k < 127,
    ensures
        r == pow2(k as nat),
{
    let mut r: i128 = 1;
    let mut j: usize = 0;
    proof {
        vstd::arithmetic::power2::lemma2_to64();
    }
    while j < k
        invariant
            j <= k,
            k < 127,
            r == pow2(j as nat),
        decreases k - j,
    {
        proof {
            lemma_pow2_unfold((j + 1) as nat);
            vstd::arithmetic::power2::lemma2_to64_rest();
            vstd::arithmetic::power2::lemma_pow2_adds(63, 63);
            if j + 1 < 126 {
                vstd::arithmetic::power2::lemma_pow2_strictly_increases((j + 1) as nat, 126);
            }
        }
        r = r * 2;
        j = j + 1;
    }
    r
}

/// The quotient of one entry: `trunc_div(2^sf·x, y)`, or 0 where `y = 0`.
pub open spec fn elem_div_value(x: int, y: int, sf: nat) -> int {
    if signed_value(y) != 0 {
        encode_spec(trunc_div(pow2(sf) * signed_value(x), signed_value(y)))
    } else {
        0
    }
}

impl ElemDivHelper {
    /// `z[i] = 2^sf·x[i] / y[i]` (rounded toward zero), 0 where `y[i] = 0`.
    pub fn run(&self, x: &[Fe], y: &[Fe], sf: usize) -> (z: Vec<Fe>)
        requires
            sf < 127,
            y.len() >= x.len(),
            forall|i: int|
                0 <= i < x.len() && signed_value(y@[i]@) != 0 ==> -i128::MAX <= pow2(sf as nat)
                    * #[trigger] signed_value(x@[i]@) <= i128::MAX,
        ensures
            z.len() == x.len(),
            forall|i: int|
                0 <= i < x.len() ==> (#[trigger] z@[i])@ == elem_div_value(x@[i]@, y@[i]@, sf as nat),
            forall|i: int| 0 <= i < x.len() && signed_value(y@[i]@) == 0 ==> (#[trigger] z@[i])@ == 0,
            forall|i: int|
                0 <= i < x.len() && signed_value(y@[i]@) != 0 && -0x1_0000_0000 < pow2(sf as nat) * signed_value(
                    x@[i]@,
                ) < 0x1_0000_0000 ==> {
                    let a = pow2(sf as nat) * signed_value(x@[i]@);
                    let b = signed_value(y@[i]@);
                    let r = a - signed_value((#[trigger] z@[i])@) * b;
                    &&& (if r >= 0 { r } else { -r }) < (if b >= 0 { b } else { -b })
                    &&& r == 0 || (r > 0) == (a > 0)
                },
    {
        let s = pow2_i128(sf);
        let mut z_data: Vec<Fe> = Vec::new();
        let mut i: usize = 0;
        while i < x.len()
            invariant
                i <= x.len(),
                y.len() >= x.len(),
                s == pow2(sf as nat),
                forall|k: int|
                    0 <= k < x.len() && signed_value(y@[k]@) != 0 ==> -i128::MAX <= pow2(sf as nat)
                        * #[trigger] signed_value(x@[k]@) <= i128::MAX,
                z_data.len() == i,
                forall|k: int|
                    0 <= k < i ==> (#[trigger] z_data@[k])@ == elem_div_value(
                        x@[k]@,
                        y@[k]@,
                        sf as nat,
                    ),
            decreases x.len() - i,
        {
            let x_i = x[i].to_int();
            let y_i = y[i].to_int();
            if y_i != 0 {
                proof {
                    assert(-i128::MAX <= pow2(sf as nat) * signed_value(x@[i as int]@) <= i128::MAX);
                    lemma_fe_range(y@[i as int]);
                    lemma_signed_value_bounds(y@[i as int]@);
                }
                let sx = s * x_i;
                let ua: u128 = if sx >= 0 { sx as u128 } else { (-sx) as u128 };
                let ub: u128 = if y_i >= 0 { y_i as u128 } else { (-y_i) as u128 };
                let q = ua / ub;
                proof {
                    assert(q <= ua) by {
                        vstd::arithmetic::div_mod::lemma_div_is_ordered_by_denominator(ua as int, 1, ub as int);
                    }
                }
                let z_i: i128 = if (sx >= 0) == (y_i > 0) || sx == 0 { q as i128 } else { -(q as i128) };
                z_data.push(encode_signed(z_i));
            } else {
                z_data.push(Fe::zero());
            }
            i = i + 1;
        }
        proof {
            assert forall|i: int|
                0 <= i < x.len() && signed_value(y@[i]@) != 0 && -0x1_0000_0000 < pow2(sf as nat) * signed_value(
                    x@[i]@,
                ) < 0x1_0000_0000 implies {
                    let a = pow2(sf as nat) * signed_value(x@[i]@);
                    let b = signed_value(y@[i]@);
                    let r = a - signed_value((#[trigger] z_data@[i])@) * b;
                    &&& (if r >= 0 { r } else { -r }) < (if b >= 0 { b } else { -b })
                    &&& r == 0 || (r > 0) == (a > 0)
                } by {
                lemma_fe_range(x@[i]);
                lemma_fe_range(y@[i]);
                lemma_elem_div_value_divides(x@[i]@, y@[i]@, sf as nat);
            }
        }
        z_data
    }
}

/// For a non-negative numerator and a positive divisor the quotient is the
/// floor, and the remainder `S·x - y·z` lies in `[0, y)`: the range checks
/// that make the advice sound hold of it.
pub proof fn lemma_elem_div_remainder(a: int, b: int)
    requires
        a >= 0,
        b > 0,
    ensures
        trunc_div(a, b) == a / b,
        0 <= a - b * trunc_div(a, b) < b,
{
    vstd::arithmetic::div_mod::lemma_fundamental_div_mod(a, b);
    vstd::arithmetic::div_mod::lemma_mod_bound(a, b);
}

/// `trunc_div` is Rust's integer division: for a nonzero divisor `b`, the
/// quotient `q` and remainder `r = a - q·b` satisfy `|r| < |b|`, and `r` is
/// zero or has the sign of `a` (the quotient is rounded toward zero).
pub proof fn lemma_trunc_div_divides(a: int, b: int)
    requires
        b != 0,
    ensures
        ({
            let q = trunc_div(a, b);
            let r = a - q * b;
            &&& (if r >= 0 { r } else { -r }) < (if b >= 0 { b } else { -b })
            &&& r == 0 || (r > 0) == (a > 0)
        }),
{
    let ua = if a >= 0 { a } else { -a };
    let ub = if b >= 0 { b } else { -b };
    vstd::arithmetic::div_mod::lemma_fundamental_div_mod(ua, ub);
    vstd::arithmetic::div_mod::lemma_mod_bound(ua, ub);
    let m = ua / ub;
    let rm = ua % ub;
    let q = trunc_div(a, b);
    let r = a - q * b;
    if (a >= 0) == (b > 0) || a == 0 {
        assert(q == m);
        if a == 0 {
            assert(m == 0) by {
                vstd::arithmetic::div_mod::lemma_div_of0(ub);
            }
            assert(r == 0) by (nonlinear_arith)
                requires
                    r == a - q * b,
                    a == 0,
                    q == 0,
            ;
        } else if a > 0 {
            assert(r == rm) by (nonlinear_arith)
                requires
                    ua == a,
                    b > 0,
                    ub == b,
                    ua == ub * m + rm,
                    r == a - m * b,
            ;
        } else {
            assert(r == -rm) by (nonlinear_arith)
                requires
                    ua == -a,
                    b < 0,
                    ub == -b,
                    ua == ub * m + rm,
                    r == a - m * b,
            ;
        }
    } else {
        assert(q == -m);
        if a > 0 {
            assert(r == rm) by (nonlinear_arith)
                requires
                    ua == a,
                    b < 0,
                    ub == -b,
                    ua == ub * m + rm,
                    r == a - (-m) * b,
            ;
        } else {
            assert(r == -rm) by (nonlinear_arith)
                requires
                    ua == -a,
                    b > 0,
                    ub == b,
                    ua == ub * m + rm,
                    r == a - (-m) * b,
            ;
        }
    }
}

/// The division advice divides: where `y ≠ 0` and the quotient fits the
/// `u32` encoding (`|2^sf·x| < 2^32`), the output `z` (as a signed value)
/// and the remainder `r = 2^sf·x - z·y` satisfy `|r| < |y|`, with `r` zero
/// or of the sign of `2^sf·x`; so the output has the sign of the product
/// `2^sf·x·y` where it is not zero.
pub proof fn lemma_elem_div_value_divides(x: int, y: int, sf: nat)
    requires
        0 <= x < crate::util::field::p(),
        0 <= y < crate::util::field::p(),
        signed_value(y) != 0,
        -0x1_0000_0000 < pow2(sf) * signed_value(x) < 0x1_0000_0000,
    ensures
        ({
            let a = pow2(sf) * signed_value(x);
            let b = signed_value(y);
            let z = signed_value(elem_div_value(x, y, sf));
            let r = a - z * b;
            &&& (if r >= 0 { r } else { -r }) < (if b >= 0 { b } else { -b })
            &&& r == 0 || (r > 0) == (a > 0)
        }),
{
    let a = pow2(sf) * signed_value(x);
    let b = signed_value(y);
    let q = trunc_div(a, b);
    lemma_trunc_div_divides(a, b);
    let ua = if a >= 0 { a } else { -a };
    let ub = if b >= 0 { b } else { -b };
    assert(ua / ub <= ua) by {
        vstd::arithmetic::div_mod::lemma_div_is_ordered_by_denominator(ua, 1, ub);
    }
    assert(-0x1_0000_0000 < q < 0x1_0000_0000);
    crate::basicblock::lemma_encode_small(q);
    crate::basicblock::lemma_signed_of_small(q);
}

} // verus!
