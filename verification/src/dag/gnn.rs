//! Tensor index flattening for the graph neural network builders.
use crate::basicblock::shape::ceil_log2_spec;
use crate::crypto::sumcheck::zk_linear_prover::{ceil_log2, lemma_ceil_log2_unique};
use crate::util::poly::pow2_usize;
use vstd::arithmetic::power2::{lemma_pow2_pos, pow2};
use vstd::prelude::*;

verus! {

/// The least power of two at least `x` (1 for 0).
pub open spec fn next_pow2(x: nat) -> nat {
    pow2(ceil_log2_spec(x))
}

/// `Π_{j<k} next_pow2(shape[j])`: the stride of dimension `k` in a tensor
/// whose dimensions are padded to powers of two, the first varying
/// fastest.
pub open spec fn stride_of(shape: Seq<usize>, k: nat) -> int
    decreases k,
{
    if k == 0 {
        1
    } else {
        stride_of(shape, (k - 1) as nat) * next_pow2(shape[k - 1] as nat)
    }
}

/// `Σ_{i<k} indices[i] · stride_of(shape, i)`.
pub open spec fn flat_index_spec(indices: Seq<usize>, shape: Seq<usize>, k: nat) -> int
    decreases k,
{
    if k == 0 {
        0
    } else {
        flat_index_spec(indices, shape, (k - 1) as nat) + indices[k - 1] * stride_of(shape, (k - 1) as nat)
    }
}

proof fn lemma_stride_mono(shape: Seq<usize>, i: nat, k: nat)
    requires
        i <= k,
    ensures
        1 <= stride_of(shape, i) <= stride_of(shape, k),
    decreases k,
{
    if k > 0 {
        lemma_pow2_pos(ceil_log2_spec(shape[k - 1] as nat));
        if i < k {
            lemma_stride_mono(shape, i, (k - 1) as nat);
        } else {
            lemma_stride_mono(shape, (k - 1) as nat, (k - 1) as nat);
        }
        let s = stride_of(shape, (k - 1) as nat);
        let m = next_pow2(shape[k - 1] as nat) as int;
        assert(s <= s * m) by (nonlinear_arith)
            requires
                s >= 1,
                m >= 1,
        ;
    }
}

proof fn lemma_flat_mono(indices: Seq<usize>, shape: Seq<usize>, i: nat, k: nat)
    requires
        i <= k,
    ensures
        0 <= flat_index_spec(indices, shape, i) <= flat_index_spec(indices, shape, k),
    decreases k,
{
    if k > 0 {
        if i < k {
            lemma_flat_mono(indices, shape, i, (k - 1) as nat);
        } else {
            lemma_flat_mono(indices, shape, (k - 1) as nat, (k - 1) as nat);
        }
        lemma_stride_mono(shape, 0, (k - 1) as nat);
        let a = indices[k - 1] as int;
        let s = stride_of(shape, (k - 1) as nat);
        assert(0 <= a * s) by (nonlinear_arith)
            requires
                a >= 0,
                s >= 1,
        ;
    }
}

/// The position of the entry at `indices` in the flat data of a tensor of
/// `shape` with each dimension padded to a power of two, the first index
/// varying fastest.
pub fn flat_index(indices: &[usize], shape: &[usize]) -> (r: usize)
    requires
        shape.len() >= indices.len(),
        forall|i: int| 0 <= i < shape.len() ==> #[trigger] shape@[i] <= usize::MAX / 2,
        stride_of(shape@, indices.len() as nat) <= usize::MAX,
        flat_index_spec(indices@, shape@, indices.len() as nat) <= usize::MAX,
    ensures
        r == flat_index_spec(indices@, shape@, indices.len() as nat),
{
    let mut index: usize = 0;
    let mut stride: usize = 1;
    let mut i: usize = 0;
    while i < indices.len()
        invariant
            i <= indices.len(),
            shape.len() >= indices.len(),
            forall|k: int| 0 <= k < shape.len() ==> #[trigger] shape@[k] <= usize::MAX / 2,
            stride_of(shape@, indices.len() as nat) <= usize::MAX,
            flat_index_spec(indices@, shape@, indices.len() as nat) <= usize::MAX,
            index == flat_index_spec(indices@, shape@, i as nat),
            stride == stride_of(shape@, i as nat),
        decreases indices.len() - i,
    {
        proof {
            lemma_flat_mono(indices@, shape@, (i + 1) as nat, indices.len() as nat);
            lemma_stride_mono(shape@, (i + 1) as nat, indices.len() as nat);
        }
        index = index + indices[i] * stride;
        let k = ceil_log2(shape[i]);
        proof {
            lemma_ceil_log2_unique(shape@[i as int] as nat, k as nat);
        }
        let np = pow2_usize(k);
        stride = stride * np;
        i = i + 1;
    }
    index
}

} // verus!
