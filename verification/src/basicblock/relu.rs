//! The sign bit used by ReLU.
use crate::util::field::{signed_value, Fe};
use vstd::prelude::*;

verus! {

/// Advice block computing the sign bit `s = [x >= 0]` of each value: 1 for
/// a non-negative value, 0 for a negative one, unscaled.  Its soundness
/// comes from constraints elsewhere: `y = s·x`, `s·(1 - s) = 0`, and the
/// range checks `y >= 0` and `y - x >= 0`.
#[derive(Clone, Debug)]
pub struct SignBitHelper;

/// The sign bit of the signed integer a residue stands for.
pub open spec fn sign_bit(a: int) -> int {
    if signed_value(a) >= 0 {
        1
    } else {
        0
    }
}

impl SignBitHelper {
    pub fn run(&self, x: &[Fe]) -> (r: Vec<Fe>)
        ensures
            r.len() == x.len(),
            forall|i: int| 0 <= i < x.len() ==> (#[trigger] r@[i])@ == sign_bit(x@[i]@),
            forall|i: int|
                0 <= i < x.len() ==> (#[trigger] r@[i])@ == (if signed_value(x@[i]@) >= 0 {
                    1int
                } else {
                    0int
                }),
    {
        let mut sign_data: Vec<Fe> = Vec::new();
        let mut i: usize = 0;
        while i < x.len()
            invariant
                i <= x.len(),
                sign_data.len() == i,
                forall|k: int| 0 <= k < i ==> (#[trigger] sign_data@[k])@ == sign_bit(x@[k]@),
            decreases x.len() - i,
        {
            if x[i].to_int() >= 0 {
                sign_data.push(Fe::one());
            } else {
                sign_data.push(Fe::zero());
            }
            i = i + 1;
        }
        sign_data
    }
}

/// The sign bit satisfies the constraints that make it sound: it is a bit
/// (`s·(1 - s) = 0`), `y = s·x` is non-negative, and so is `y - x`.
pub proof fn lemma_sign_bit_constraints(a: int)
    ensures
        (sign_bit(a) == 1) == (signed_value(a) >= 0),
        sign_bit(a) == 0 || sign_bit(a) == 1,
        sign_bit(a) * (1 - sign_bit(a)) == 0,
        sign_bit(a) * signed_value(a) >= 0,
        sign_bit(a) * signed_value(a) - signed_value(a) >= 0,
{
    let s = sign_bit(a);
    let v = signed_value(a);
    if v >= 0 {
        assert(s == 1);
        assert(1 * v == v);
    } else {
        assert(s == 0);
        assert(0 * v == 0);
    }
    assert(s * (1 - s) == 0) by (nonlinear_arith)
        requires
            s == 0 || s == 1,
    ;
}

} // verus!
