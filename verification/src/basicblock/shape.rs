//! Reshaping.
use crate::crypto::sumcheck::zk_linear_prover::{ceil_log2, is_ceil_log2, lemma_ceil_log2_unique};
use vstd::prelude::*;

verus! {

/// Gives a tensor a new shape; the data is unchanged.
#[derive(Clone, Debug)]
pub struct ChangeShape {
    pub new_shape: Vec<usize>,
}

/// The exponent of the least power of two `>= x`.
pub open spec fn ceil_log2_spec(x: nat) -> nat {
    choose|k: nat| is_ceil_log2(x, k)
}

/// `Σ_{i<k} ceil_log2(shape[i])`: the number of variables of the first `k`
/// dimensions, each padded to a power of two.
pub open spec fn num_vars_of(shape: Seq<usize>, k: nat) -> int
    decreases k,
{
    if k == 0 {
        0
    } else {
        num_vars_of(shape, (k - 1) as nat) + ceil_log2_spec(shape[k - 1] as nat)
    }
}

/// `num_vars_of` grows with the number of dimensions counted.
pub proof fn lemma_num_vars_monotone(shape: Seq<usize>, i: nat, j: nat)
    requires
        i <= j,
    ensures
        num_vars_of(shape, i) <= num_vars_of(shape, j),
    decreases j - i,
{
    if i < j {
        lemma_num_vars_monotone(shape, i, (j - 1) as nat);
    }
}

/// Number of variables of a tensor of `shape` with each dimension padded
/// to a power of two.
pub fn get_n(shape: &[usize]) -> (n: usize)
    requires
        forall|i: int| 0 <= i < shape.len() ==> #[trigger] shape@[i] <= usize::MAX / 2,
        num_vars_of(shape@, shape.len() as nat) <= usize::MAX,
    ensures
        n == num_vars_of(shape@, shape.len() as nat),
{
    let mut n: usize = 0;
    let mut i: usize = 0;
    while i < shape.len()
        invariant
            i <= shape.len(),
            forall|k: int| 0 <= k < shape.len() ==> #[trigger] shape@[k] <= usize::MAX / 2,
            num_vars_of(shape@, shape.len() as nat) <= usize::MAX,
            n == num_vars_of(shape@, i as nat),
        decreases shape.len() - i,
    {
        let k = ceil_log2(shape[i]);
        proof {
            lemma_ceil_log2_unique(shape@[i as int] as nat, k as nat);
            assert(num_vars_of(shape@, (i + 1) as nat) == n + k);
            lemma_num_vars_monotone(shape@, (i + 1) as nat, shape.len() as nat);
        }
        n = n + k;
        i = i + 1;
    }
    n
}

impl ChangeShape {
    /// The new shape, and the number of variables of a sparse polynomial
    /// holding the data (when there is one), updated to the new shape.
    pub fn run(&self, sparse_num_vars: Option<usize>) -> (r: (Vec<usize>, Option<usize>))
        requires
            forall|i: int| 0 <= i < self.new_shape.len() ==> #[trigger] self.new_shape@[i] <= usize::MAX / 2,
            num_vars_of(self.new_shape@, self.new_shape.len() as nat) <= usize::MAX,
        ensures
            r.0@ == self.new_shape@,
            sparse_num_vars is None ==> r.1 is None,
            sparse_num_vars is Some ==> r.1 == Some(
                num_vars_of(self.new_shape@, self.new_shape.len() as nat) as usize,
            ),
    {
        let new_n = get_n(self.new_shape.as_slice());
        let mut shape: Vec<usize> = Vec::new();
        let mut i: usize = 0;
        while i < self.new_shape.len()
            invariant
                i <= self.new_shape.len(),
                shape@ == self.new_shape@.take(i as int),
            decreases self.new_shape.len() - i,
        {
            shape.push(self.new_shape[i]);
            i = i + 1;
            proof {
                assert(shape@ =~= self.new_shape@.take(i as int));
            }
        }
        proof {
            assert(self.new_shape@.take(self.new_shape.len() as int) =~= self.new_shape@);
        }
        let n = match sparse_num_vars {
            Some(_) => Some(new_n),
            None => None,
        };
        (shape, n)
    }
}

} // verus!
