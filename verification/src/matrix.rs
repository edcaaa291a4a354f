//! The shapes that the matrix product accepts, and the place of a cell in
//! a flat row-major buffer.

use vstd::prelude::*;
use crate::error::KernelError;

verus! {

/// The number of cells of the product of a matrix of `a_rows` by `a_cols`
/// cells in a buffer of `a_len` elements and one of `b_rows` by `b_cols`
/// cells in a buffer of `b_len` elements.
///
/// Fails with `IncompatibleMatrices` where the first has not as many
/// columns as the second has rows, with `ShapeMismatch` where a buffer has
/// not as many elements as its matrix has cells, and with `SizeOverflow`
/// where the cells of the product cannot be counted.
pub fn matrix_product_shape(
    a_len: usize,
    b_len: usize,
    a_rows: usize,
    a_cols: usize,
    b_rows: usize,
    b_cols: usize,
) -> (result: Result<usize, KernelError>)
    ensures
        match result {
            Ok(cells) => a_cols == b_rows && a_rows * a_cols == a_len && b_rows * b_cols == b_len
                && cells == a_rows * b_cols,
            Err(e) => if a_cols != b_rows {
                e == KernelError::IncompatibleMatrices
            } else if a_rows * a_cols != a_len || b_rows * b_cols != b_len {
                e == KernelError::ShapeMismatch
            } else {
                a_rows * b_cols > usize::MAX && e == KernelError::SizeOverflow
            },
        },
{
    if a_cols != b_rows {
        return Err(KernelError::IncompatibleMatrices);
    }
    match a_rows.checked_mul(a_cols) {
        Some(cells) => {
            if cells != a_len {
                return Err(KernelError::ShapeMismatch);
            }
        },
        None => {
            return Err(KernelError::ShapeMismatch);
        },
    }
    match b_rows.checked_mul(b_cols) {
        Some(cells) => {
            if cells != b_len {
                return Err(KernelError::ShapeMismatch);
            }
        },
        None => {
            return Err(KernelError::ShapeMismatch);
        },
    }
    match a_rows.checked_mul(b_cols) {
        Some(cells) => Ok(cells),
        None => Err(KernelError::SizeOverflow),
    }
}

/// The place of the cell in row `row` and column `col` of a matrix of
/// `rows` by `cols` cells in its row-major buffer.
pub fn cell_index(row: usize, col: usize, rows: usize, cols: usize) -> (index: usize)
    requires
        row < rows,
        col < cols,
        rows * cols <= usize::MAX,
    ensures
        index == row * cols + col,
        index < rows * cols,
{
    proof {
        assert(row * cols + col < rows * cols) by (nonlinear_arith)
            requires
                row < rows,
                col < cols,
        ;
    }
    row * cols + col
}

} // verus!
