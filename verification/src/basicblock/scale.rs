//! Rescaling between fixed-point scale factors.
use crate::basicblock::elemdiv::pow2_i128;
use crate::basicblock::{encode_signed, encode_spec};
use crate::util::field::{
    cong, fmul, fsub, lemma_cong_mod, lemma_cong_mul, lemma_cong_residues, lemma_cong_sub,
    lemma_fe_range, lemma_residue, lemma_signed_value_bounds, p, signed_value, Fe,
};
use vstd::arithmetic::div_mod::{lemma_fundamental_div_mod, lemma_fundamental_div_mod_converse, lemma_mod_bound};
use vstd::arithmetic::power2::{lemma_pow2_pos, pow2};
use vstd::prelude::*;

verus! {

/// Divides fixed-point values by `2^(input_sf - output_sf)`, rounding to
/// the nearest integer; the remainder, shifted by half the factor, is
/// looked up in a table of size `2^(input_sf - output_sf)`.
#[derive(Clone, Debug)]
pub struct ScaleDown {
    pub input_sf: usize,
    pub output_sf: usize,
}

/// Multiplies fixed-point values by `2^(output_sf - input_sf)`.
#[derive(Clone, Debug)]
pub struct ScaleUp {
    pub input_sf: usize,
    pub output_sf: usize,
}

/// The table index of the remainder `x - y·R` (as a signed integer)
/// shifted by `R/2`, where `R = 2^k` enters the field through a `u32`.
pub open spec fn rescale_aux(x: int, y: int, k: nat) -> int {
    signed_value(fsub(x, fmul(y, (pow2(k) as u32) as int))) + pow2(k) / 2
}

/// One entry of the scale-down with the quotient rounded to `rounded`:
/// the output and its table index, before the boundary fix.
pub open spec fn scale_down_step(x: int, rounded: int, k: nat) -> (int, int) {
    let y = encode_spec(rounded);
    (y, rescale_aux(x, y, k))
}

/// One entry of the scale-down: where the table index would be `R` (a
/// remainder of exactly `R/2`), the quotient is rounded up instead.
pub open spec fn scale_down_entry(x: int, rounded: int, k: nat) -> (int, int) {
    let first = scale_down_step(x, rounded, k);
    if first.1 >= pow2(k) {
        scale_down_step(x, rounded + 1, k)
    } else {
        first
    }
}

/// `⌊(v + R/2) / R⌋` for `R = 2^k`: `v / R` rounded to the nearest
/// integer, halves rounded up.
pub open spec fn rounded_quotient(v: int, k: nat) -> int {
    (v + pow2(k) / 2) / (pow2(k) as int)
}

/// Entry `j` of the scale-down outputs and selection is right.
pub open spec fn scale_down_ok(x: Seq<Fe>, k: nat, y: Seq<Fe>, sel: Seq<(usize, usize)>, j: int) -> bool {
    let e = scale_down_entry(x[j]@, rounded_quotient(signed_value(x[j]@), k), k);
    &&& y[j]@ == e.0
    &&& sel[j].0 == j
    &&& sel[j].1 == e.1 as usize
}

/// `-a` divided by `r` rounds down to `-⌈a / r⌉`.
proof fn lemma_floor_div_neg(a: int, r: int)
    requires
        a > 0,
        r > 0,
    ensures
        (-a) / r == -((a + r - 1) / r),
{
    lemma_fundamental_div_mod(a + r - 1, r);
    lemma_mod_bound(a + r - 1, r);
    let c = (a + r - 1) / r;
    let m = (a + r - 1) % r;
    assert(-a == (-c) * r + (r - 1 - m)) by (nonlinear_arith)
        requires
            a + r - 1 == r * c + m,
    ;
    lemma_fundamental_div_mod_converse(-a, r, -c, r - 1 - m);
}

/// The rounded quotient of a signed residue value by `2^k`, which fits
/// an `i64` with room for one more.
fn rounded_quotient_of(v: i128, r: i128, Ghost(k): Ghost<nat>) -> (q: i64)
    requires
        k < 127,
        r == pow2(k),
        -(p() - 1) / 2 <= v <= (p() - 1) / 2,
    ensures
        q as int == rounded_quotient(v as int, k),
        i64::MIN < q < i64::MAX,
{
    proof {
        lemma_pow2_pos(k);
        vstd::arithmetic::power2::lemma2_to64();
        vstd::arithmetic::power2::lemma2_to64_rest();
        vstd::arithmetic::power2::lemma_pow2_adds(63, 63);
        if k < 126 {
            vstd::arithmetic::power2::lemma_pow2_strictly_increases(k, 126);
        }
        assert(r <= 0x4000_0000_0000_0000_0000_0000_0000_0000);
    }
    let h = r / 2;
    let w: i128 = v + h;
    let ghost q0 = (w as int) / (r as int);
    proof {
        lemma_fundamental_div_mod(w as int, r as int);
        lemma_mod_bound(w as int, r as int);
        let m = (w as int) % (r as int);
        assert(q0 <= v || q0 <= 0) by (nonlinear_arith)
            requires
                w == r * q0 + m,
                0 <= m < r,
                2 * h <= r,
                w == v + h,
                r >= 1,
        ;
        if q0 + 1 <= 0 {
            assert(r * (q0 + 1) <= q0 + 1) by (nonlinear_arith)
                requires
                    q0 + 1 <= 0,
                    r >= 1,
            ;
        }
        assert(q0 >= v || q0 >= 0) by (nonlinear_arith)
            requires
                w == r * q0 + m,
                0 <= m < r,
                h >= 0,
                w == v + h,
                q0 + 1 <= 0 ==> r * (q0 + 1) <= q0 + 1,
        ;
    }
    if w >= 0 {
        let q = ((w as u128) / (r as u128)) as i64;
        q
    } else {
        let a = (-w) as u128;
        let c = (a + (r as u128) - 1) / (r as u128);
        proof {
            lemma_floor_div_neg(a as int, r as int);
        }
        let q = -(c as i64);
        q
    }
}

/// `R·x - y` for `R = 2^k` (through a `u32`): the scale-up's table index
/// before the shift.
pub open spec fn scale_up_aux(x: int, y: int, k: nat) -> int {
    signed_value(fsub(fmul(x, (pow2(k) as u32) as int), y)) + pow2(k) / 2
}

/// The table index for one value: `to_int(x - y·R) + R/2`.
fn rescale_index(x: &Fe, y: &Fe, rf: &Fe, r: i128, Ghost(k): Ghost<nat>) -> (a: i128)
    requires
        k < 127,
        r == pow2(k),
        rf@ == (pow2(k) as u32) as int,
    ensures
        a == rescale_aux(x@, y@, k),
{
    let d = x.sub(&y.mul(rf));
    proof {
        lemma_fe_range(d);
        lemma_signed_value_bounds(d@);
        lemma_pow2_pos(k);
    }
    d.to_int() + r / 2
}

impl ScaleDown {
    /// The outputs and table selections: each value's quotient by `2^k`,
    /// rounded to the nearest integer with halves rounded up, and its
    /// remainder shifted by half the factor as the table index.  Where the
    /// index would leave the table (which only the `u32` encoding can
    /// cause), the quotient is rounded up once more.
    pub fn run(&self, x: &[Fe]) -> (r: (Vec<Fe>, Vec<(usize, usize)>))
        requires
            self.input_sf >= self.output_sf,
            self.input_sf - self.output_sf < 127,
        ensures
            r.0.len() == x.len(),
            r.1.len() == x.len(),
            forall|i: int|
                0 <= i < x.len() ==> #[trigger] scale_down_ok(
                    x@,
                    (self.input_sf - self.output_sf) as nat,
                    r.0@,
                    r.1@,
                    i,
                ),
    {
        let k = self.input_sf - self.output_sf;
        let rf_int = pow2_i128(k);
        let rf = Fe::from_u32(rf_int as u32);
        let mut y_data: Vec<Fe> = Vec::new();
        let mut selection: Vec<(usize, usize)> = Vec::new();
        let mut i: usize = 0;
        while i < x.len()
            invariant
                i <= x.len(),
                k == self.input_sf - self.output_sf,
                k < 127,
                rf_int == pow2(k as nat),
                rf@ == (pow2(k as nat) as u32) as int,
                y_data.len() == i,
                selection.len() == i,
                forall|j: int|
                    0 <= j < i ==> #[trigger] scale_down_ok(x@, k as nat, y_data@, selection@, j),
            decreases x.len() - i,
        {
            let xv = x[i].to_int();
            proof {
                lemma_fe_range(x@[i as int]);
                lemma_signed_value_bounds(x@[i as int]@);
            }
            let mut rnd = rounded_quotient_of(xv, rf_int, Ghost(k as nat));
            let ghost xi = x@[i as int]@;
            let ghost ri = rnd as int;
            let mut y = encode_signed(rnd as i128);
            let mut aux = rescale_index(&x[i], &y, &rf, rf_int, Ghost(k as nat));
            proof {
                assert(scale_down_step(xi, ri, k as nat) == (y@, aux as int));
            }
            if aux >= rf_int {
                rnd = rnd + 1;
                y = encode_signed(rnd as i128);
                aux = rescale_index(&x[i], &y, &rf, rf_int, Ghost(k as nat));
                proof {
                    assert(scale_down_step(xi, ri + 1, k as nat) == (y@, aux as int));
                }
            }
            proof {
                assert(scale_down_entry(xi, ri, k as nat) == (y@, aux as int));
            }
            let ghost y0 = y_data@;
            let ghost s0 = selection@;
            y_data.push(y);
            selection.push((i, aux as usize));
            proof {
                assert forall|j: int| 0 <= j < i + 1 implies #[trigger] scale_down_ok(
                    x@,
                    k as nat,
                    y_data@,
                    selection@,
                    j,
                ) by {
                    if j < i {
                        assert(scale_down_ok(x@, k as nat, y0, s0, j));
                        assert(y_data@[j] == y0[j]);
                        assert(selection@[j] == s0[j]);
                    }
                }
            }
            i = i + 1;
        }
        (y_data, selection)
    }
}

impl ScaleUp {
    /// The outputs `y = x·2^k` (computed on the signed integers) and the
    /// table selections of `x·R - y` shifted by `R/2`.
    pub fn run(&self, x: &[Fe]) -> (r: (Vec<Fe>, Vec<(usize, usize)>))
        requires
            self.input_sf <= self.output_sf,
            self.output_sf - self.input_sf < 127,
            forall|i: int|
                0 <= i < x.len() ==> -i128::MAX <= #[trigger] signed_value(x@[i]@) * pow2(
                    (self.output_sf - self.input_sf) as nat,
                ) <= i128::MAX,
        ensures
            r.0.len() == x.len(),
            r.1.len() == x.len(),
            forall|i: int|
                0 <= i < x.len() ==> {
                    let k = (self.output_sf - self.input_sf) as nat;
                    let y = encode_spec(signed_value(x@[i]@) * pow2(k));
                    &&& (#[trigger] r.0@[i])@ == y
                    &&& r.1@[i].0 == i
                    &&& r.1@[i].1 == scale_up_aux(x@[i]@, y, k) as usize
                },
    {
        let k = self.output_sf - self.input_sf;
        let rf_int = pow2_i128(k);
        let rf = Fe::from_u32(rf_int as u32);
        let mut y_data: Vec<Fe> = Vec::new();
        let mut selection: Vec<(usize, usize)> = Vec::new();
        let mut i: usize = 0;
        while i < x.len()
            invariant
                i <= x.len(),
                k == self.output_sf - self.input_sf,
                k < 127,
                rf_int == pow2(k as nat),
                rf@ == (pow2(k as nat) as u32) as int,
                forall|j: int|
                    0 <= j < x.len() ==> -i128::MAX <= #[trigger] signed_value(x@[j]@) * pow2(
                        k as nat,
                    ) <= i128::MAX,
                y_data.len() == i,
                selection.len() == i,
                forall|j: int|
                    0 <= j < i ==> {
                        let y = encode_spec(signed_value(x@[j]@) * pow2(k as nat));
                        &&& (#[trigger] y_data@[j])@ == y
                        &&& selection@[j].0 == j
                        &&& selection@[j].1 == scale_up_aux(x@[j]@, y, k as nat) as usize
                    },
            decreases x.len() - i,
        {
            let x_i = x[i].to_int();
            proof {
                assert(-i128::MAX <= signed_value(x@[i as int]@) * pow2(k as nat) <= i128::MAX);
            }
            let y_int = x_i * rf_int;
            let y = encode_signed(y_int);
            let d = x[i].mul(&rf).sub(&y);
            proof {
                lemma_fe_range(d);
                lemma_signed_value_bounds(d@);
                lemma_pow2_pos(k as nat);
            }
            let aux = d.to_int() + rf_int / 2;
            y_data.push(y);
            selection.push((i, aux as usize));
            i = i + 1;
        }
        (y_data, selection)
    }
}

/// The remainder index of one value, for a quotient that fits a `u32`:
/// `x - y·R + R/2` over the integers.
proof fn lemma_rescale_aux_small(x: int, y_int: int, k: nat)
    requires
        0 <= x < p(),
        k <= 31,
        -0x1_0000_0000 < y_int < 0x1_0000_0000,
        -0x2000_0000_0000_0000 <= signed_value(x) - y_int * pow2(k) <= 0x2000_0000_0000_0000,
    ensures
        rescale_aux(x, encode_spec(y_int), k) == signed_value(x) - y_int * pow2(k) + pow2(k) / 2,
{
    let r = pow2(k) as int;
    vstd::arithmetic::power2::lemma_pow2_strictly_increases(k, 32);
    vstd::arithmetic::power2::lemma2_to64();
    vstd::arithmetic::power2::lemma2_to64_rest();
    assert((r as u32) as int == r);
    crate::basicblock::lemma_encode_small(y_int);
    let y = encode_spec(y_int);
    let v = signed_value(x);
    // x ≡ v, y ≡ y_int
    assert(cong(x, v)) by {
        if x > (p() - 1) / 2 {
            vstd::arithmetic::div_mod::lemma_mod_sub_multiples_vanish(x, p());
        }
    }
    lemma_cong_mod(y_int);
    lemma_cong_mul(y, r, y_int, r);
    lemma_cong_mod(y * r);
    lemma_cong_sub(x, fmul(y, r), v, y_int * r);
    lemma_cong_mod(x - fmul(y, r));
    crate::basicblock::lemma_signed_of_small(v - y_int * r);
    lemma_residue(x - fmul(y, r));
    lemma_residue(v - y_int * r);
    lemma_cong_residues(fsub(x, fmul(y, r)), (v - y_int * r) % p());
    assert(y_int * r == y_int * pow2(k));
}

/// The scale-down of one value, where nothing wraps (`k <= 30`, an input
/// below `2^61` and a quotient below `2^31` in magnitude): the output is
/// the rounded quotient `q = ⌊(v + R/2) / R⌋` of the value `v` by
/// `R = 2^k`, and the table index is `v - q·R + R/2`, which lies in
/// `[0, R)`: the boundary fix never applies.
pub proof fn lemma_scale_down_exact(x: int, k: nat)
    requires
        0 <= x < p(),
        k <= 30,
        -0x2000_0000_0000_0000 <= signed_value(x) <= 0x2000_0000_0000_0000,
        -0x8000_0000 <= rounded_quotient(signed_value(x), k) <= 0x8000_0000,
    ensures
        ({
            let v = signed_value(x);
            let q = rounded_quotient(v, k);
            let e = scale_down_entry(x, q, k);
            &&& e.0 == encode_spec(q)
            &&& e.1 == v - q * pow2(k) + pow2(k) / 2
            &&& 0 <= e.1 < pow2(k)
        }),
{
    let r = pow2(k) as int;
    let v = signed_value(x);
    let q = rounded_quotient(v, k);
    vstd::arithmetic::power2::lemma_pow2_pos(k);
    vstd::arithmetic::power2::lemma_pow2_strictly_increases(k, 31);
    vstd::arithmetic::power2::lemma2_to64();
    assert(r <= 0x4000_0000);
    let h = r / 2;
    lemma_fundamental_div_mod(v + h, r);
    lemma_mod_bound(v + h, r);
    let m = (v + h) % r;
    assert(v - q * r == m - h) by (nonlinear_arith)
        requires
            v + h == r * q + m,
    ;
    lemma_rescale_aux_small(x, q, k);
    assert(q * r == q * pow2(k));
}

} // verus!
