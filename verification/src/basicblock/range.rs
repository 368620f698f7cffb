//! The non-negativity range check.
use crate::util::field::{signed_value, Fe};
use vstd::arithmetic::power2::pow2;
use vstd::prelude::*;

verus! {

/// Checks that values lie in `[0, 2^table_size_log)` by lookups into a
/// table of that size.
#[derive(Clone, Debug)]
pub struct NonNegative {
    pub table_size_log: usize,
}

impl NonNegative {
    pub fn new(table_size_log: usize) -> (r: Self)
        ensures
            r.table_size_log == table_size_log,
    {
        NonNegative { table_size_log }
    }

    /// The lookup selection: entry `i` selects table index `x[i]` (as a
    /// signed integer).  Every value must lie in the table.
    pub fn run(&self, x: &[Fe]) -> (r: Vec<(usize, usize)>)
        requires
            self.table_size_log < 128,
            forall|i: int|
                0 <= i < x.len() ==> 0 <= #[trigger] signed_value(x@[i]@) < pow2(
                    self.table_size_log as nat,
                ),
        ensures
            r.len() == x.len(),
            forall|i: int|
                0 <= i < x.len() ==> (#[trigger] r@[i]).0 == i && r@[i].1 == signed_value(x@[i]@)
                    as usize,
    {
        let mut selection: Vec<(usize, usize)> = Vec::new();
        let mut i: usize = 0;
        while i < x.len()
            invariant
                i <= x.len(),
                selection.len() == i,
                forall|k: int|
                    0 <= k < x.len() ==> 0 <= #[trigger] signed_value(x@[k]@) < pow2(
                        self.table_size_log as nat,
                    ),
                forall|k: int|
                    0 <= k < i ==> (#[trigger] selection@[k]).0 == k && selection@[k].1
                        == signed_value(x@[k]@) as usize,
            decreases x.len() - i,
        {
            let v = x[i].to_int();
            proof {
                assert(0 <= signed_value(x@[i as int]@) < pow2(self.table_size_log as nat));
                crate::util::field::lemma_fe_range(x@[i as int]);
                crate::util::field::lemma_signed_value_bounds(x@[i as int]@);
            }
            selection.push((i, v as usize));
            i = i + 1;
        }
        selection
    }
}

} // verus!
