//! Zero-padding of integer tensors into field elements.
use crate::util::field::{p, Fe};
use vstd::prelude::*;

verus! {

/// Pads a vector of `original_size` integers to `padded_size` field
/// elements: entry `k` is `data[k]` in the field (negative values by their
/// negation), then zeros.
pub fn pad_1d_tensor(data: &[i64], original_size: usize, padded_size: usize) -> (r: Vec<Fe>)
    requires
        data.len() == original_size,
        padded_size >= original_size,
        forall|k: int| 0 <= k < data.len() ==> data[k] != i64::MIN,
    ensures
        r.len() == padded_size,
        forall|k: int| 0 <= k < original_size ==> (#[trigger] r@[k])@ == (data[k] as int) % p(),
        forall|k: int| original_size <= k < padded_size ==> (#[trigger] r@[k])@ == 0,
{
    let mut result: Vec<Fe> = Vec::new();
    let mut i: usize = 0;
    while i < original_size
        invariant
            i <= original_size,
            data.len() == original_size,
            result.len() == i,
            forall|k: int| 0 <= k < i ==> (#[trigger] result@[k])@ == (data[k] as int) % p(),
        decreases original_size - i,
    {
        result.push(Fe::from_i128(data[i] as i128));
        i = i + 1;
    }
    while i < padded_size
        invariant
            original_size <= i <= padded_size,
            data.len() == original_size,
            result.len() == i,
            forall|k: int| 0 <= k < original_size ==> (#[trigger] result@[k])@ == (data[k] as int) % p(),
            forall|k: int| original_size <= k < i ==> (#[trigger] result@[k])@ == 0,
        decreases padded_size - i,
    {
        result.push(Fe::zero());
        i = i + 1;
    }
    result
}

/// Pads a `rows × cols` matrix of integers, row after row, to
/// `padded_rows × padded_cols` field elements, row after row: entry
/// `(r, c)` is `data[r · cols + c]` in the field inside the matrix and zero
/// outside.
pub fn pad_2d_tensor(data: &[i64], rows: usize, cols: usize, padded_rows: usize, padded_cols: usize) -> (r: Vec<
    Fe,
>)
    requires
        data.len() == rows * cols,
        padded_rows >= rows,
        padded_cols >= cols,
        padded_rows * padded_cols <= usize::MAX,
        forall|k: int| 0 <= k < data.len() ==> data[k] != i64::MIN,
    ensures
        r.len() == padded_rows * padded_cols,
        forall|i: int, j: int|
            0 <= i < padded_rows && 0 <= j < padded_cols ==> (#[trigger] r@[i * padded_cols + j])@ == if i < rows
                && j < cols {
                (data[i * cols + j] as int) % p()
            } else {
                0
            },
{
    let mut result: Vec<Fe> = Vec::new();
    let mut r: usize = 0;
    while r < padded_rows
        invariant
            r <= padded_rows,
            data.len() == rows * cols,
            padded_rows >= rows,
            padded_cols >= cols,
            padded_rows * padded_cols <= usize::MAX,
            result.len() == r * padded_cols,
            forall|i: int, j: int|
                0 <= i < r && 0 <= j < padded_cols ==> (#[trigger] result@[i * padded_cols + j])@ == if i < rows
                    && j < cols {
                    (data[i * cols + j] as int) % p()
                } else {
                    0
                },
        decreases padded_rows - r,
    {
        let mut c: usize = 0;
        let ghost base = result@;
        while c < padded_cols
            invariant
                r < padded_rows,
                c <= padded_cols,
                data.len() == rows * cols,
                padded_rows >= rows,
                padded_cols >= cols,
                padded_rows * padded_cols <= usize::MAX,
                base.len() == r * padded_cols,
                result.len() == r * padded_cols + c,
                forall|k: int| 0 <= k < base.len() ==> #[trigger] result@[k] == base[k],
                forall|j: int|
                    0 <= j < c ==> (#[trigger] result@[r * padded_cols + j])@ == if r < rows && j < cols {
                        (data[r * cols + j] as int) % p()
                    } else {
                        0
                    },
            decreases padded_cols - c,
        {
            assert(r * padded_cols + c < padded_rows * padded_cols) by (nonlinear_arith)
                requires
                    r < padded_rows,
                    c < padded_cols,
            ;
            if r < rows && c < cols {
                assert(r * cols + c < rows * cols) by (nonlinear_arith)
                    requires
                        r < rows,
                        c < cols,
                ;
                result.push(Fe::from_i128(data[r * cols + c] as i128));
            } else {
                result.push(Fe::zero());
            }
            c = c + 1;
        }
        proof {
            assert forall|i: int, j: int|
                0 <= i < r + 1 && 0 <= j < padded_cols implies (#[trigger] result@[i * padded_cols + j])@ == if i
                < rows && j < cols {
                (data[i * cols + j] as int) % p()
            } else {
                0
            } by {
                if i < r {
                    assert(i * padded_cols + j < r * padded_cols) by (nonlinear_arith)
                        requires
                            i < r,
                            0 <= j < padded_cols,
                    ;
                    assert(0 <= i * padded_cols + j) by (nonlinear_arith)
                        requires
                            0 <= i,
                            0 <= j,
                            padded_cols >= 0,
                    ;
                    assert(result@[i * padded_cols + j] == base[i * padded_cols + j]);
                } else {
                    assert(i == r);
                }
            }
            assert((r + 1) * padded_cols == r * padded_cols + padded_cols) by (nonlinear_arith);
        }
        r = r + 1;
    }
    result
}

} // verus!
