//! Shape helpers of the two-dimensional KZH commitment: padding an input
//! to the length a reference string supports, and splitting a number of
//! variables between the two dimensions.
use crate::util::field::Fe;
use vstd::prelude::*;

verus! {

/// `input` preceded by zeros up to length `len` (unchanged when it is
/// already at least that long).
pub fn pad_at_start(input: &[Fe], len: usize) -> (r: Vec<Fe>)
    ensures
        input.len() >= len ==> r@ == input@,
        input.len() < len ==> {
            &&& r.len() == len
            &&& forall|k: int| 0 <= k < len - input.len() ==> (#[trigger] r@[k])@ == 0
            &&& forall|k: int|
                len - input.len() <= k < len ==> #[trigger] r@[k] == input@[k - (len - input.len())]
        },
{
    let mut r: Vec<Fe> = Vec::new();
    let pad: usize = if input.len() >= len {
        0
    } else {
        len - input.len()
    };
    let mut k: usize = 0;
    while k < pad
        invariant
            k <= pad,
            r.len() == k,
            forall|i: int| 0 <= i < k ==> (#[trigger] r@[i])@ == 0,
        decreases pad - k,
    {
        r.push(Fe::zero());
        k = k + 1;
    }
    let mut i: usize = 0;
    while i < input.len()
        invariant
            i <= input.len(),
            r.len() == pad + i,
            forall|j: int| 0 <= j < pad ==> (#[trigger] r@[j])@ == 0,
            forall|j: int| pad <= j < pad + i ==> #[trigger] r@[j] == input@[j - pad],
        decreases input.len() - i,
    {
        r.push(input[i]);
        i = i + 1;
    }
    proof {
        if input.len() >= len {
            assert(r@ =~= input@);
        }
    }
    r
}

/// Splits `n` variables between the two dimensions: `(⌊n/2⌋, ⌈n/2⌉)`.
pub fn get_degree_from_maximum_supported_degree(n: usize) -> (r: (usize, usize))
    ensures
        r.0 == n / 2,
        r.1 == n - n / 2,
{
    if n % 2 == 0 {
        (n / 2, n / 2)
    } else {
        (n / 2, n / 2 + 1)
    }
}

} // verus!
