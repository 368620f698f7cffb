//! Constant matrices of the Llama builder.
use crate::util::field::Fe;
use vstd::prelude::*;

verus! {

/// Entry `(r, c)` of the pair-swap permutation: `1` where `c` is the
/// partner of `r` (`r + 1` for even `r`, `r - 1` for odd `r`), else `0`.
pub open spec fn pair_swap_entry(r: int, c: int) -> int {
    if (r % 2 == 0 && c == r + 1) || (r % 2 == 1 && c == r - 1) {
        1
    } else {
        0
    }
}

/// The `d × d` permutation matrix that swaps coordinates `2i` and `2i + 1`
/// (`y_{2i} = x_{2i+1}`, `y_{2i+1} = x_{2i}`), flattened column by column:
/// entry `(r, c)` is at index `c·d + r`. `d` must be even.
pub fn pair_swap_perm_matrix(d: usize) -> (m: Vec<Fe>)
    requires
        d % 2 == 0,
        d * d <= usize::MAX,
    ensures
        m.len() == d * d,
        forall|r: int, c: int|
            0 <= r < d && 0 <= c < d ==> (#[trigger] m@[c * d + r])@ == pair_swap_entry(r, c),
{
    let mut m: Vec<Fe> = Vec::new();
    let mut c: usize = 0;
    while c < d
        invariant
            c <= d,
            d % 2 == 0,
            d * d <= usize::MAX,
            m.len() == c * d,
            forall|r2: int, c2: int|
                0 <= r2 < d && 0 <= c2 < c ==> (#[trigger] m@[c2 * d + r2])@ == pair_swap_entry(
                    r2,
                    c2,
                ),
        decreases d - c,
    {
        let mut r: usize = 0;
        proof {
            assert(c * d + d <= d * d) by (nonlinear_arith)
                requires
                    c < d,
            ;
        }
        while r < d
            invariant
                r <= d,
                c < d,
                d % 2 == 0,
                c * d + d <= d * d,
                d * d <= usize::MAX,
                m.len() == c * d + r,
                forall|r2: int, c2: int|
                    0 <= r2 < d && 0 <= c2 < c ==> (#[trigger] m@[c2 * d + r2])@ == pair_swap_entry(
                        r2,
                        c2,
                    ),
                forall|r2: int| 0 <= r2 < r ==> (#[trigger] m@[c * d + r2])@ == pair_swap_entry(r2, c as int),
            decreases d - r,
        {
            let partner = if r % 2 == 0 {
                c == r + 1
            } else {
                c + 1 == r
            };
            let v = if partner {
                Fe::one()
            } else {
                Fe::zero()
            };
            let ghost before = m@;
            m.push(v);
            proof {
                assert forall|r2: int, c2: int|
                    0 <= r2 < d && 0 <= c2 < c implies (#[trigger] m@[c2 * d + r2])@
                    == pair_swap_entry(r2, c2) by {
                    assert(c2 * d + r2 < c * d) by (nonlinear_arith)
                        requires
                            c2 < c,
                            r2 < d,
                            0 <= r2,
                    ;
                    assert(m@[c2 * d + r2] == before[c2 * d + r2]);
                }
            }
            r = r + 1;
        }
        proof {
            assert((c + 1) * d == c * d + d) by (nonlinear_arith);
            assert forall|r2: int, c2: int|
                0 <= r2 < d && 0 <= c2 < c + 1 implies (#[trigger] m@[c2 * d + r2])@
                == pair_swap_entry(r2, c2) by {
                if c2 == c {
                    assert(m@[c * d + r2]@ == pair_swap_entry(r2, c as int));
                }
            }
        }
        c = c + 1;
    }
    m
}

} // verus!
