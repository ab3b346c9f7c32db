//! Row-major grid arithmetic: a cell index `i` on a `rows x cols` board is
//! `row * cols + col`, with `row = i / cols` and `col = i % cols`.

use vstd::prelude::*;
use vstd::arithmetic::div_mod::{lemma_fundamental_div_mod, lemma_fundamental_div_mod_converse};

verus! {

/// Splitting an in-range index gives an in-range (row, col).
pub proof fn lemma_grid_split(i: int, rows: int, cols: int)
    requires
        0 <= i < rows * cols,
        cols > 0,
    ensures
        0 <= i / cols < rows,
        0 <= i % cols < cols,
        i == (i / cols) * cols + i % cols,
{
    lemma_fundamental_div_mod(i, cols);
    let q = i / cols;
    let r = i % cols;
    assert(q * cols == cols * q) by (nonlinear_arith);
    assert(0 <= q < rows) by (nonlinear_arith)
        requires
            i == q * cols + r,
            0 <= r < cols,
            0 <= i < rows * cols,
            cols > 0,
    ;
}

/// Packing an in-range (row, col) gives an in-range index that splits back
/// into the same (row, col).
pub proof fn lemma_grid_pack(r: int, c: int, rows: int, cols: int)
    requires
        0 <= r < rows,
        0 <= c < cols,
    ensures
        0 <= r * cols + c < rows * cols,
        (r * cols + c) / cols == r,
        (r * cols + c) % cols == c,
{
    assert(0 <= r * cols + c < rows * cols) by (nonlinear_arith)
        requires
            0 <= r < rows,
            0 <= c < cols,
    ;
    lemma_fundamental_div_mod_converse(r * cols + c, cols, r, c);
}

} // verus!
