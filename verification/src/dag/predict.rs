//! Reading a classification off a model's output row.
use crate::util::field::{lemma_fe_range, lemma_signed_value_bounds, signed_value, Fe};
use vstd::prelude::*;

verus! {

/// The class a model predicts from the first `num_classes` entries of its
/// output row: the first one whose signed value is largest (0 where there
/// are no classes).
pub fn predicted_class(out: &[Fe], num_classes: usize) -> (c: usize)
    requires
        num_classes <= out.len(),
    ensures
        num_classes == 0 ==> c == 0,
        num_classes > 0 ==> {
            &&& c < num_classes
            &&& forall|j: int| 0 <= j < num_classes ==> signed_value(#[trigger] out@[j]@) <= signed_value(out@[c as int]@)
            &&& forall|j: int| 0 <= j < c ==> signed_value(#[trigger] out@[j]@) < signed_value(out@[c as int]@)
        },
{
    let mut best_class: usize = 0;
    let mut best_val: i128 = i128::MIN;
    let mut i: usize = 0;
    while i < num_classes
        invariant
            i <= num_classes,
            num_classes <= out.len(),
            i == 0 ==> best_class == 0 && best_val == i128::MIN,
            i > 0 ==> {
                &&& best_class < i
                &&& best_val as int == signed_value(out@[best_class as int]@)
                &&& forall|j: int| 0 <= j < i ==> signed_value(#[trigger] out@[j]@) <= best_val
                &&& forall|j: int| 0 <= j < best_class ==> signed_value(#[trigger] out@[j]@) < best_val
            },
        decreases num_classes - i,
    {
        let v = out[i].to_int();
        proof {
            lemma_fe_range(out@[i as int]);
            lemma_signed_value_bounds(out@[i as int]@);
        }
        if v > best_val {
            best_val = v;
            best_class = i;
        }
        i = i + 1;
    }
    best_class
}

} // verus!
