//! Advice blocks of the LLaMA-style layers.  Their reciprocal square
//! roots, divisions and sigmoids are computed in floating point by the
//! caller; the softmax shift is computed here.
use crate::util::field::{fsub, lemma_fe_range, lemma_signed_value_bounds, signed_value, Fe};
use crate::basicblock::{lemma_group_index, lemma_index_bound};
use vstd::prelude::*;

verus! {

/// `1/RMS(x)` per group of the last dimension, for RMSNorm.
#[derive(Clone, Debug)]
pub struct RMSReciprocal;

/// Division by the constant `c`, rounded to the nearest integer.
#[derive(Clone, Debug)]
pub struct DivConst {
    pub c: usize,
}

/// The softmax shift: every entry of a group of the last dimension gets
/// minus the maximum over the group's first `dim` (real, not padding)
/// entries, for numerical stability of `exp`.
#[derive(Clone, Debug)]
pub struct SoftmaxConst {
    pub dim: usize,
}

/// The constant `c` with `exp((x + c)/S) = sigmoid(x/S)`.
#[derive(Clone, Debug)]
pub struct SigmoidConst;

/// The maximum of the signed values `x[g + d·stride]` for `d < m`
/// (`i128::MIN` when `m = 0`).
pub open spec fn group_max(x: Seq<Fe>, g: int, stride: int, m: nat) -> int
    decreases m,
{
    if m == 0 {
        i128::MIN as int
    } else {
        let prev = group_max(x, g, stride, (m - 1) as nat);
        let v = signed_value(x[g + (m - 1) * stride]@);
        if v > prev {
            v
        } else {
            prev
        }
    }
}

/// The field element for `-m`, through a `u32`.
pub open spec fn neg_encode(m: int) -> int {
    if m >= 0 {
        fsub(0, (m as u32) as int)
    } else {
        ((-m) as u32) as int
    }
}

impl SoftmaxConst {
    /// Over `num_groups · d_pad` entries laid out with the group index
    /// varying fastest (`x[g + d·num_groups]`), sets every entry of group `g`
    /// to minus the maximum of its first `dim` entries.
    pub fn run(&self, x: &[Fe], num_groups: usize, d_pad: usize) -> (y: Vec<Fe>)
        requires
            1 <= self.dim <= d_pad,
            x.len() == num_groups * d_pad,
        ensures
            y.len() == x.len(),
            forall|g: int, d: int|
                0 <= g < num_groups && 0 <= d < d_pad ==> (#[trigger] y@[g + d * num_groups])@
                    == neg_encode(group_max(x@, g, num_groups as int, self.dim as nat)),
    {
        let total = num_groups * d_pad;
        let mut y_data: Vec<Fe> = Vec::new();
        let mut i: usize = 0;
        while i < total
            invariant
                i <= total,
                y_data.len() == i,
            decreases total - i,
        {
            y_data.push(Fe::zero());
            i = i + 1;
        }
        let mut g: usize = 0;
        while g < num_groups
            invariant
                g <= num_groups,
                1 <= self.dim <= d_pad,
                x.len() == num_groups * d_pad,
                total == num_groups * d_pad,
                y_data.len() == total,
                forall|gg: int, d: int|
                    0 <= gg < g && 0 <= d < d_pad ==> (#[trigger] y_data@[gg + d * num_groups])@
                        == neg_encode(group_max(x@, gg, num_groups as int, self.dim as nat)),
            decreases num_groups - g,
        {
            let mut max_val: i128 = i128::MIN;
            let mut d: usize = 0;
            while d < self.dim
                invariant
                    g < num_groups,
                    d <= self.dim,
                    1 <= self.dim <= d_pad,
                    x.len() == num_groups * d_pad,
                    max_val == group_max(x@, g as int, num_groups as int, d as nat),
                    d > 0 ==> max_val >= -(crate::util::field::p() - 1) / 2,
                decreases self.dim - d,
            {
                proof {
                    lemma_index_bound(g as int, d as int, num_groups as int, d_pad as int);
                }
                let idx = g + d * num_groups;
                proof {
                    lemma_fe_range(x@[idx as int]);
                    lemma_signed_value_bounds(x@[idx as int]@);
                }
                let val = x[idx].to_int();
                if val > max_val {
                    max_val = val;
                }
                d = d + 1;
            }
            let neg_max = if max_val >= 0 {
                Fe::zero().sub(&Fe::from_u32(max_val as u32))
            } else {
                Fe::from_u32((-max_val) as u32)
            };
            let mut d: usize = 0;
            while d < d_pad
                invariant
                    g < num_groups,
                    d <= d_pad,
                    x.len() == num_groups * d_pad,
                    total == num_groups * d_pad,
                    y_data.len() == total,
                    neg_max@ == neg_encode(group_max(x@, g as int, num_groups as int, self.dim as nat)),
                    forall|gg: int, dd: int|
                        0 <= gg < g && 0 <= dd < d_pad ==> (#[trigger] y_data@[gg + dd * num_groups])@
                            == neg_encode(group_max(x@, gg, num_groups as int, self.dim as nat)),
                    forall|dd: int|
                        0 <= dd < d ==> (#[trigger] y_data@[g + dd * num_groups])@ == neg_encode(
                            group_max(x@, g as int, num_groups as int, self.dim as nat),
                        ),
                decreases d_pad - d,
            {
                proof {
                    lemma_index_bound(g as int, d as int, num_groups as int, d_pad as int);
                }
                let idx = g + d * num_groups;
                let ghost old_y = y_data@;
                y_data.set(idx, neg_max);
                proof {
                    assert forall|gg: int, dd: int|
                        0 <= gg < g && 0 <= dd < d_pad implies (#[trigger] y_data@[gg + dd
                            * num_groups])@ == neg_encode(
                            group_max(x@, gg, num_groups as int, self.dim as nat),
                        ) by {
                        lemma_group_index(gg, dd, num_groups as int);
                        lemma_group_index(g as int, d as int, num_groups as int);
                        lemma_index_bound(gg, dd, num_groups as int, d_pad as int);
                        assert(gg + dd * num_groups != idx);
                        assert(old_y[gg + dd * num_groups]@ == neg_encode(
                            group_max(x@, gg, num_groups as int, self.dim as nat),
                        ));
                    }
                    assert forall|dd: int| 0 <= dd < d + 1 implies (#[trigger] y_data@[g + dd
                        * num_groups])@ == neg_encode(
                        group_max(x@, g as int, num_groups as int, self.dim as nat),
                    ) by {
                        lemma_group_index(g as int, dd, num_groups as int);
                        lemma_group_index(g as int, d as int, num_groups as int);
                        lemma_index_bound(g as int, dd, num_groups as int, d_pad as int);
                        if dd < d {
                            assert(g + dd * num_groups != idx);
                            assert(old_y[g + dd * num_groups]@ == neg_encode(
                                group_max(x@, g as int, num_groups as int, self.dim as nat),
                            ));
                        }
                    }
                }
                d = d + 1;
            }
            g = g + 1;
        }
        y_data
    }
}

/// The group maximum is at least every real entry of the group and, for a
/// non-empty group, is one of them: shifting by its negation makes every
/// real entry non-positive and one of them zero.
pub proof fn lemma_group_max(x: Seq<Fe>, g: int, stride: int, m: nat)
    requires
        m >= 1,
        forall|d: int| 0 <= d < m ==> 0 <= #[trigger] (g + d * stride) < x.len(),
    ensures
        forall|d: int| 0 <= d < m ==> #[trigger] signed_value(x[g + d * stride]@) <= group_max(x, g, stride, m),
        exists|d: int| 0 <= d < m && #[trigger] signed_value(x[g + d * stride]@) == group_max(x, g, stride, m),
    decreases m,
{
    let v = signed_value(x[g + (m - 1) * stride]@);
    if m == 1 {
        lemma_fe_range(x[g + 0 * stride]);
        lemma_signed_value_bounds(x[g + 0 * stride]@);
        assert(g + 0 * stride == g + (m - 1) * stride);
        assert(signed_value(x[g + 0 * stride]@) == group_max(x, g, stride, m));
    } else {
        lemma_group_max(x, g, stride, (m - 1) as nat);
        let d0 = choose|d: int| 0 <= d < m - 1 && #[trigger] signed_value(x[g + d * stride]@) == group_max(x, g, stride, (m - 1) as nat);
        if v > group_max(x, g, stride, (m - 1) as nat) {
            assert(signed_value(x[g + (m - 1) * stride]@) == group_max(x, g, stride, m));
        } else {
            assert(signed_value(x[g + d0 * stride]@) == group_max(x, g, stride, m));
        }
    }
}

} // verus!
