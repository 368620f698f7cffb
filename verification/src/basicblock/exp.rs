//! The exponential, by range reduction: `x = k·(-ln 2·S) + r`, with `2^-k`
//! looked up in a table and `exp(r)` approximated by a Taylor series.
use crate::basicblock::{encode_signed, encode_spec};
use crate::util::field::{
    fadd, fmul, fsub, lemma_cong_add, lemma_cong_mod, lemma_cong_residues, lemma_residue, p, Fe,
};
use vstd::arithmetic::power2::{lemma_pow2_unfold, pow2};
use vstd::prelude::*;

verus! {

/// The largest `|k|` of the decomposition: inputs up to `K_MAX·ln 2`
/// (about 52) in magnitude are handled.
pub const K_MAX: usize = 75;

/// Bits of the table of shifted exponents `k + K_MAX ∈ [0, 2·K_MAX]`.
pub const K_BITS: usize = 8;

/// Decomposes each input as `x = k·(-ln 2·S) + r`; the output is `r`, and
/// the selection records `k + K_MAX` for the power-of-two lookup.
#[derive(Clone, Debug)]
pub struct ExpHelper;

/// Table lookup of `2^(K_MAX + 15 - t)` for shifted exponents `t`: the
/// value `2^-k` at scale factor 15.
#[derive(Clone, Debug)]
pub struct TwoPow;

impl ExpHelper {
    /// The remainders `r = x - k·(-ln2)` (in the field) and the selection of
    /// `k + K_MAX`, given `ln2 = round(ln 2·S)` and each value's `k`,
    /// `round(-x / ln2)` clamped to `[-K_MAX, K_MAX]` (both computed by the
    /// caller in floating point).
    pub fn run(&self, x: &[Fe], ln2: i128, k_orig: &[i32]) -> (r: (Vec<Fe>, Vec<(usize, usize)>))
        requires
            k_orig.len() == x.len(),
            forall|i: int| 0 <= i < x.len() ==> -(K_MAX as int) <= #[trigger] k_orig@[i] <= K_MAX,
        ensures
            r.0.len() == x.len(),
            r.1.len() == x.len(),
            forall|i: int|
                0 <= i < x.len() ==> {
                    &&& (#[trigger] r.0@[i])@ == fsub(
                        x@[i]@,
                        fmul(encode_spec(k_orig@[i] as int), fsub(0, (ln2 as u32) as int)),
                    )
                    &&& r.1@[i].0 == i
                    &&& r.1@[i].1 == k_orig@[i] + K_MAX
                },
    {
        let neg_ln2 = Fe::zero().sub(&Fe::from_u32(ln2 as u32));
        let mut r_data: Vec<Fe> = Vec::new();
        let mut selection: Vec<(usize, usize)> = Vec::new();
        let mut i: usize = 0;
        while i < x.len()
            invariant
                i <= x.len(),
                k_orig.len() == x.len(),
                neg_ln2@ == fsub(0, (ln2 as u32) as int),
                forall|j: int| 0 <= j < x.len() ==> -(K_MAX as int) <= #[trigger] k_orig@[j] <= K_MAX,
                r_data.len() == i,
                selection.len() == i,
                forall|j: int|
                    0 <= j < i ==> {
                        &&& (#[trigger] r_data@[j])@ == fsub(
                            x@[j]@,
                            fmul(encode_spec(k_orig@[j] as int), fsub(0, (ln2 as u32) as int)),
                        )
                        &&& selection@[j].0 == j
                        &&& selection@[j].1 == k_orig@[j] + K_MAX
                    },
            decreases x.len() - i,
        {
            let k = k_orig[i];
            proof {
                assert(-(K_MAX as int) <= k_orig@[i as int] <= K_MAX);
            }
            let k_shifted = (k + (K_MAX as i32)) as usize;
            let k_f = encode_signed(k as i128);
            r_data.push(x[i].sub(&k_f.mul(&neg_ln2)));
            selection.push((i, k_shifted));
            i = i + 1;
        }
        (r_data, selection)
    }
}

/// The table entry for input `i` after the first `k` selections: the last
/// selection of `i` with a shifted exponent `t <= K_MAX + 15` sets
/// `2^(K_MAX + 15 - t)`; where there is none, 0.
pub open spec fn two_pow_value(sel: Seq<(usize, usize)>, k: nat, i: int) -> int
    decreases k,
{
    if k == 0 {
        0
    } else {
        let e = sel[k - 1];
        if e.0 == i && e.1 <= K_MAX + 15 {
            pow2((K_MAX + 15 - e.1) as nat) as int % p()
        } else {
            two_pow_value(sel, (k - 1) as nat, i)
        }
    }
}

/// `2^e` in the field, by repeated doubling.
fn field_pow2(e: usize) -> (r: Fe)
    ensures
        r@ == pow2(e as nat) as int % p(),
{
    let mut val = Fe::one();
    let mut j: usize = 0;
    proof {
        vstd::arithmetic::power2::lemma2_to64();
        vstd::arithmetic::div_mod::lemma_small_mod(1, p() as nat);
    }
    while j < e
        invariant
            j <= e,
            val@ == pow2(j as nat) as int % p(),
        decreases e - j,
    {
        proof {
            let a = pow2(j as nat) as int;
            lemma_pow2_unfold((j + 1) as nat);
            lemma_cong_mod(a);
            lemma_cong_add(val@, val@, a, a);
            lemma_cong_mod(val@ + val@);
            lemma_residue(val@ + val@);
            lemma_residue(2 * a);
            lemma_cong_residues(fadd(val@, val@), (2 * a) % p());
        }
        val = val.add(&val);
        j = j + 1;
    }
    val
}

impl TwoPow {
    /// The table values `2^(K_MAX + 15 - t)` at the inputs selected with
    /// shifted exponent `t`, over `2^inp_num_vars` inputs; selections with an
    /// input out of range or `t > K_MAX + 15` write nothing (the value of a
    /// very negative exponent rounds to 0).
    pub fn run(&self, selection: &[(usize, usize)], inp_num_vars: usize) -> (y: Vec<Fe>)
        requires
            inp_num_vars < 64,
            pow2(inp_num_vars as nat) <= usize::MAX,
        ensures
            y.len() == pow2(inp_num_vars as nat),
            forall|i: int|
                0 <= i < y.len() ==> (#[trigger] y@[i])@ == two_pow_value(
                    selection@,
                    selection.len() as nat,
                    i,
                ),
    {
        let size = crate::util::poly::pow2_usize(inp_num_vars);
        let mut y_data: Vec<Fe> = Vec::new();
        let mut i: usize = 0;
        while i < size
            invariant
                i <= size,
                y_data.len() == i,
                forall|k: int| 0 <= k < i ==> (#[trigger] y_data@[k])@ == 0,
            decreases size - i,
        {
            y_data.push(Fe::zero());
            i = i + 1;
        }
        let max_k_shifted = 2 * K_MAX;
        let mut j: usize = 0;
        while j < selection.len()
            invariant
                j <= selection.len(),
                y_data.len() == size,
                max_k_shifted == 2 * K_MAX,
                forall|k: int|
                    0 <= k < size ==> (#[trigger] y_data@[k])@ == two_pow_value(
                        selection@,
                        j as nat,
                        k,
                    ),
            decreases selection.len() - j,
        {
            let (input_index, table_index) = selection[j];
            if input_index < size && table_index <= max_k_shifted {
                if table_index <= K_MAX + 15 {
                    let exponent = K_MAX + 15 - table_index;
                    let val = field_pow2(exponent);
                    y_data.set(input_index, val);
                }
            }
            j = j + 1;
        }
        y_data
    }
}

/// The decomposition holds in the field: `r + k·(-ln2) = x`.
pub proof fn lemma_exp_decomposition(x: int, k: int, ln2: int)
    requires
        0 <= x < p(),
    ensures
        fadd(
            fsub(x, fmul(encode_spec(k), fsub(0, (ln2 as u32) as int))),
            fmul(encode_spec(k), fsub(0, (ln2 as u32) as int)),
        ) == x,
{
    let m = fmul(encode_spec(k), fsub(0, (ln2 as u32) as int));
    lemma_cong_mod(x - m);
    lemma_cong_add(fsub(x, m), m, x - m, m);
    lemma_cong_mod(fsub(x, m) + m);
    lemma_residue(fsub(x, m) + m);
    vstd::arithmetic::div_mod::lemma_small_mod(x as nat, p() as nat);
    lemma_cong_residues(fadd(fsub(x, m), m), x);
}

} // verus!
