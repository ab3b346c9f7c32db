//! Board symmetry groups: which rigid transformations of a board leave its
//! adjacency structure unchanged.
//!
//! `D4Symmetry<S>` (8 elements: identity, column flip, row flip,
//! main-diagonal transpose, and their compositions) applies to square
//! boards. `KleinFour<ROWS, COLS>` (identity, column flip, row flip, and
//! their composition) applies to any rectangular board. `ColMirror<COLS>`
//! (identity, column flip) is the subgroup for boards where a row flip is
//! not a symmetry, such as a gravity game. All three implement
//! [`SymmetryGroup`].
//!
//! Every element is modelled as a map on (row, col) coordinates
//! ([`d4_coord`], [`klein_coord`]); the index maps are proved to be
//! permutations of the board's cells and to be undone by their inverses.

use vstd::prelude::*;
use crate::bits::{bit, lemma_bit_ops, lemma_bit_set, lemma_bits_ext, lemma_single_bit, ones, ones_below};
use crate::bigbitboard::{seq_bit, words_get, words_set};
use crate::grid::{lemma_grid_pack, lemma_grid_split};

verus! {

// ── Specifications ───────────────────────────────────────────────────────

/// Reverse column order on a grid `cols` wide: col -> cols-1-col.
pub open spec fn flip_cols_spec(i: int, cols: int) -> int {
    (i / cols) * cols + (cols - 1 - i % cols)
}

/// Reverse row order on a `rows x cols` grid: row -> rows-1-row.
pub open spec fn flip_rows_spec(i: int, rows: int, cols: int) -> int {
    (rows - 1 - i / cols) * cols + i % cols
}

/// Transpose a square `s x s` grid: (row, col) -> (col, row).
pub open spec fn transpose_spec(i: int, s: int) -> int {
    (i % s) * s + i / s
}

/// Element `sym` of D4 applied to an index of an `s x s` board, in the
/// order identity, flip_cols, flip_rows, transpose, flip_rows∘flip_cols,
/// transpose∘flip_cols, transpose∘flip_rows, transpose∘flip_rows∘flip_cols.
pub open spec fn d4_image(i: int, s: int, sym: int) -> int {
    let fc = flip_cols_spec(i, s);
    let fr = flip_rows_spec(i, s, s);
    if sym == 0 {
        i
    } else if sym == 1 {
        fc
    } else if sym == 2 {
        fr
    } else if sym == 3 {
        transpose_spec(i, s)
    } else if sym == 4 {
        flip_rows_spec(fc, s, s)
    } else if sym == 5 {
        transpose_spec(fc, s)
    } else if sym == 6 {
        transpose_spec(fr, s)
    } else {
        transpose_spec(flip_rows_spec(fc, s, s), s)
    }
}

/// The same element as a map on (row, col) coordinates.
pub open spec fn d4_coord(r: int, c: int, s: int, sym: int) -> (int, int) {
    if sym == 0 {
        (r, c)
    } else if sym == 1 {
        (r, s - 1 - c)
    } else if sym == 2 {
        (s - 1 - r, c)
    } else if sym == 3 {
        (c, r)
    } else if sym == 4 {
        (s - 1 - r, s - 1 - c)
    } else if sym == 5 {
        (s - 1 - c, r)
    } else if sym == 6 {
        (c, s - 1 - r)
    } else {
        (s - 1 - c, s - 1 - r)
    }
}

/// The D4 element undoing `sym`: every element is an involution except the
/// two quarter turns (5 and 6), which undo each other.
pub open spec fn d4_inverse(sym: int) -> int {
    if sym == 5 {
        6
    } else if sym == 6 {
        5
    } else {
        sym
    }
}

/// Element `sym` of the Klein four-group on a `rows x cols` board, in the
/// order identity, flip_cols, flip_rows, flip_rows∘flip_cols.
pub open spec fn klein_image(i: int, rows: int, cols: int, sym: int) -> int {
    if sym == 0 {
        i
    } else if sym == 1 {
        flip_cols_spec(i, cols)
    } else if sym == 2 {
        flip_rows_spec(i, rows, cols)
    } else {
        flip_rows_spec(flip_cols_spec(i, cols), rows, cols)
    }
}

// ── Laws ────────────────────────────────────────────────────────────────

/// The column flip stays on the board, keeps the row, mirrors the column,
/// and undoes itself.
pub proof fn lemma_flip_cols(i: int, rows: int, cols: int)
    requires
        0 <= i < rows * cols,
        cols > 0,
    ensures
        0 <= flip_cols_spec(i, cols) < rows * cols,
        flip_cols_spec(i, cols) / cols == i / cols,
        flip_cols_spec(i, cols) % cols == cols - 1 - i % cols,
        flip_cols_spec(flip_cols_spec(i, cols), cols) == i,
{
    lemma_grid_split(i, rows, cols);
    lemma_grid_pack(i / cols, cols - 1 - i % cols, rows, cols);
}

/// The row flip stays on the board, mirrors the row, keeps the column, and
/// undoes itself.
pub proof fn lemma_flip_rows(i: int, rows: int, cols: int)
    requires
        0 <= i < rows * cols,
        cols > 0,
    ensures
        0 <= flip_rows_spec(i, rows, cols) < rows * cols,
        flip_rows_spec(i, rows, cols) / cols == rows - 1 - i / cols,
        flip_rows_spec(i, rows, cols) % cols == i % cols,
        flip_rows_spec(flip_rows_spec(i, rows, cols), rows, cols) == i,
{
    lemma_grid_split(i, rows, cols);
    lemma_grid_pack(rows - 1 - i / cols, i % cols, rows, cols);
}

/// The transpose stays on the board, swaps row and column, and undoes
/// itself.
pub proof fn lemma_transpose(i: int, s: int)
    requires
        0 <= i < s * s,
        s > 0,
    ensures
        0 <= transpose_spec(i, s) < s * s,
        transpose_spec(i, s) / s == i % s,
        transpose_spec(i, s) % s == i / s,
        transpose_spec(transpose_spec(i, s), s) == i,
{
    lemma_grid_split(i, s, s);
    lemma_grid_pack(i % s, i / s, s, s);
}

/// On an in-range index, each D4 element is the coordinate map `d4_coord`.
pub proof fn lemma_d4_coord(i: int, s: int, sym: int)
    requires
        0 <= i < s * s,
        s > 0,
        0 <= sym < 8,
    ensures
        0 <= d4_image(i, s, sym) < s * s,
        d4_image(i, s, sym) / s == d4_coord(i / s, i % s, s, sym).0,
        d4_image(i, s, sym) % s == d4_coord(i / s, i % s, s, sym).1,
{
    lemma_grid_split(i, s, s);
    lemma_flip_cols(i, s, s);
    lemma_flip_rows(i, s, s);
    lemma_transpose(i, s);
    let fc = flip_cols_spec(i, s);
    let fr = flip_rows_spec(i, s, s);
    lemma_flip_rows(fc, s, s);
    lemma_transpose(fc, s);
    lemma_transpose(fr, s);
    lemma_transpose(flip_rows_spec(fc, s, s), s);
}

/// Each D4 element maps the cells of an `s x s` board into themselves, and
/// applying `d4_inverse(sym)` after `sym` gives back the original cell.
pub proof fn lemma_d4_round_trip(i: int, s: int, sym: int)
    requires
        0 <= i < s * s,
        s > 0,
        0 <= sym < 8,
    ensures
        0 <= d4_image(i, s, sym) < s * s,
        d4_image(d4_image(i, s, sym), s, d4_inverse(sym)) == i,
{
    let j = d4_image(i, s, sym);
    lemma_d4_coord(i, s, sym);
    lemma_d4_coord(j, s, d4_inverse(sym));
    let k = d4_image(j, s, d4_inverse(sym));
    lemma_grid_split(i, s, s);
    lemma_grid_split(k, s, s);
    assert(k / s == i / s && k % s == i % s);
}

/// `d4_inverse` is an involution on the 8 elements, so round trips also
/// hold the other way around.
pub proof fn lemma_d4_inverse_involution(sym: int)
    requires
        0 <= sym < 8,
    ensures
        0 <= d4_inverse(sym) < 8,
        d4_inverse(d4_inverse(sym)) == sym,
{
}

/// Each D4 element is a permutation of the `s * s` cells: injective on the
/// board, and every cell is the image of its image under the inverse element.
pub proof fn lemma_d4_is_permutation(s: int, sym: int)
    requires
        s > 0,
        0 <= sym < 8,
    ensures
        forall|i: int| 0 <= i < s * s ==> 0 <= #[trigger] d4_image(i, s, sym) < s * s,
        forall|i: int, j: int|
            0 <= i < s * s && 0 <= j < s * s && #[trigger] d4_image(i, s, sym) == #[trigger] d4_image(
                j,
                s,
                sym,
            ) ==> i == j,
        forall|j: int|
            0 <= j < s * s ==> 0 <= #[trigger] d4_image(j, s, d4_inverse(sym)) < s * s
                && d4_image(d4_image(j, s, d4_inverse(sym)), s, sym) == j,
{
    assert forall|i: int| 0 <= i < s * s implies 0 <= #[trigger] d4_image(i, s, sym) < s * s by {
        lemma_d4_round_trip(i, s, sym);
    }
    assert forall|i: int, j: int|
        0 <= i < s * s && 0 <= j < s * s && #[trigger] d4_image(i, s, sym) == #[trigger] d4_image(
            j,
            s,
            sym,
        ) implies i == j by {
        lemma_d4_round_trip(i, s, sym);
        lemma_d4_round_trip(j, s, sym);
    }
    assert forall|j: int| 0 <= j < s * s implies 0 <= #[trigger] d4_image(j, s, d4_inverse(sym))
        < s * s && d4_image(d4_image(j, s, d4_inverse(sym)), s, sym) == j by {
        lemma_d4_inverse_involution(sym);
        lemma_d4_round_trip(j, s, d4_inverse(sym));
    }
}

/// On an in-range index, each Klein four element stays on the board and is
/// its own inverse.
pub proof fn lemma_klein_round_trip(i: int, rows: int, cols: int, sym: int)
    requires
        0 <= i < rows * cols,
        cols > 0,
        0 <= sym < 4,
    ensures
        0 <= klein_image(i, rows, cols, sym) < rows * cols,
        klein_image(klein_image(i, rows, cols, sym), rows, cols, sym) == i,
{
    lemma_flip_cols(i, rows, cols);
    lemma_flip_rows(i, rows, cols);
    let fc = flip_cols_spec(i, cols);
    let fr = flip_rows_spec(i, rows, cols);
    lemma_flip_rows(fc, rows, cols);
    lemma_flip_cols(fr, rows, cols);
    if sym == 3 {
        let j = flip_rows_spec(fc, rows, cols);
        lemma_flip_cols(j, rows, cols);
        let k = flip_cols_spec(j, cols);
        lemma_flip_rows(k, rows, cols);
        lemma_grid_split(i, rows, cols);
        lemma_grid_split(flip_rows_spec(k, rows, cols), rows, cols);
    }
}

/// Each Klein four element is a permutation of the `rows * cols` cells: it
/// stays on the board, is injective there, and every cell is the image of
/// its own image.
pub proof fn lemma_klein_is_permutation(rows: int, cols: int, sym: int)
    requires
        cols > 0,
        0 <= sym < 4,
    ensures
        forall|i: int| 0 <= i < rows * cols ==> 0 <= #[trigger] klein_image(i, rows, cols, sym) < rows
            * cols,
        forall|i: int, j: int|
            0 <= i < rows * cols && 0 <= j < rows * cols && #[trigger] klein_image(i, rows, cols, sym)
                == #[trigger] klein_image(j, rows, cols, sym) ==> i == j,
        forall|j: int|
            0 <= j < rows * cols ==> klein_image(#[trigger] klein_image(j, rows, cols, sym), rows, cols, sym) == j,
{
    assert forall|i: int| 0 <= i < rows * cols implies 0 <= #[trigger] klein_image(
        i,
        rows,
        cols,
        sym,
    ) < rows * cols by {
        lemma_klein_round_trip(i, rows, cols, sym);
    }
    assert forall|i: int, j: int|
        0 <= i < rows * cols && 0 <= j < rows * cols && #[trigger] klein_image(i, rows, cols, sym)
            == #[trigger] klein_image(j, rows, cols, sym) implies i == j by {
        lemma_klein_round_trip(i, rows, cols, sym);
        lemma_klein_round_trip(j, rows, cols, sym);
    }
    assert forall|j: int| 0 <= j < rows * cols implies klein_image(
        #[trigger] klein_image(j, rows, cols, sym),
        rows,
        cols,
        sym,
    ) == j by {
        lemma_klein_round_trip(j, rows, cols, sym);
    }
}

/// On a square board the Klein four-group is the subgroup of D4 made of its
/// elements 0, 1, 2 and 4.
pub proof fn lemma_klein_is_d4_subgroup(i: int, s: int)
    ensures
        klein_image(i, s, s, 0) == d4_image(i, s, 0),
        klein_image(i, s, s, 1) == d4_image(i, s, 1),
        klein_image(i, s, s, 2) == d4_image(i, s, 2),
        klein_image(i, s, s, 3) == d4_image(i, s, 4),
{
}

} // verus!

verus! {

// ── Index maps ──────────────────────────────────────────────────────────

/// Reverse column order on a grid `cols` wide -- col -> cols-1-col, row
/// unchanged.
fn flip_cols_index(i: usize, cols: usize) -> (r: usize)
    requires
        cols > 0,
        (i / cols) * cols + (cols - 1) <= usize::MAX,
    ensures
        r == flip_cols_spec(i as int, cols as int),
{
    let row = i / cols;
    let col = i % cols;
    proof {
        vstd::arithmetic::div_mod::lemma_fundamental_div_mod(i as int, cols as int);
        assert(row * cols == cols * row) by (nonlinear_arith);
    }
    row * cols + (cols - 1 - col)
}

/// Reverse row order on a `rows x cols` grid -- row -> rows-1-row, col
/// unchanged.
fn flip_rows_index(i: usize, rows: usize, cols: usize) -> (r: usize)
    requires
        cols > 0,
        i < rows * cols,
        rows * cols <= usize::MAX,
    ensures
        r == flip_rows_spec(i as int, rows as int, cols as int),
{
    let row = i / cols;
    let col = i % cols;
    proof {
        lemma_grid_split(i as int, rows as int, cols as int);
        lemma_grid_pack(rows - 1 - row, col as int, rows as int, cols as int);
    }
    (rows - 1 - row) * cols + col
}

/// A finite group of permutations of a board's cell indices -- the
/// transformations that leave the board's adjacency structure unchanged.
/// Element 0 is always the identity.
pub trait SymmetryGroup {
    /// Number of elements in the group, including the identity at index 0.
    const ORDER: usize;

    /// Whether `i` is a cell index the group acts on.
    spec fn acts_on(i: int) -> bool;

    /// Element `sym` applied to cell `i`.
    spec fn image(i: int, sym: int) -> int;

    /// The element undoing `sym`.
    spec fn inverse(sym: int) -> int;

    /// Map a cell index through group element `sym`.
    fn apply_index(i: usize, sym: usize) -> (r: usize)
        requires
            Self::acts_on(i as int),
            sym < Self::ORDER,
        ensures
            r == Self::image(i as int, sym as int),
            Self::acts_on(r as int),
    ;

    /// Index of the group element that inverts `sym`.
    fn invert(sym: usize) -> (r: usize)
        requires
            sym < Self::ORDER,
        ensures
            r == Self::inverse(sym as int),
            r < Self::ORDER,
    ;

    /// Map an index back through the inverse of `sym` in one step.
    fn invert_index(i: usize, sym: usize) -> (r: usize)
        requires
            Self::acts_on(i as int),
            sym < Self::ORDER,
        ensures
            r == Self::image(i as int, Self::inverse(sym as int)),
            Self::acts_on(r as int),
    {
        let inv = Self::invert(sym);
        Self::apply_index(i, inv)
    }

    /// Applying `sym` and then its inverse is the identity on every cell the
    /// group acts on.
    proof fn lemma_round_trip(i: int, sym: int)
        requires
            Self::acts_on(i),
            0 <= sym < Self::ORDER,
        ensures
            Self::image(Self::image(i, sym), Self::inverse(sym)) == i,
    ;
}

} // verus!

verus! {

/// Two in-range cells with the same row and column are the same cell.
proof fn lemma_same_cell(a: int, b: int, rows: int, cols: int)
    requires
        0 <= a < rows * cols,
        0 <= b < rows * cols,
        cols > 0,
        a / cols == b / cols,
        a % cols == b % cols,
    ensures
        a == b,
{
    lemma_grid_split(a, rows, cols);
    lemma_grid_split(b, rows, cols);
}

/// Board-side-length parameterised D4 symmetry group.
pub struct D4Symmetry<const S: usize>;

impl<const S: usize> D4Symmetry<S> {
    /// A non-empty square board whose cell count fits `usize`.
    pub open spec fn board_ok() -> bool {
        S > 0 && S * S <= usize::MAX
    }

    /// Reverse column order -- col -> S-1-col.
    pub fn flip_cols(i: usize) -> (r: usize)
        requires
            Self::board_ok(),
            i < S * S,
        ensures
            r == flip_cols_spec(i as int, S as int),
            r < S * S,
    {
        proof {
            lemma_grid_split(i as int, S as int, S as int);
            lemma_grid_pack((i / S) as int, S - 1, S as int, S as int);
            lemma_flip_cols(i as int, S as int, S as int);
        }
        flip_cols_index(i, S)
    }

    /// Reverse row order -- row -> S-1-row.
    pub fn flip_rows(i: usize) -> (r: usize)
        requires
            Self::board_ok(),
            i < S * S,
        ensures
            r == flip_rows_spec(i as int, S as int, S as int),
            r < S * S,
    {
        proof {
            lemma_flip_rows(i as int, S as int, S as int);
        }
        flip_rows_index(i, S, S)
    }

    /// Transpose across the main diagonal -- (row, col) -> (col, row).
    pub fn transpose(i: usize) -> (r: usize)
        requires
            Self::board_ok(),
            i < S * S,
        ensures
            r == transpose_spec(i as int, S as int),
            r < S * S,
    {
        proof {
            lemma_grid_split(i as int, S as int, S as int);
            lemma_grid_pack((i % S) as int, (i / S) as int, S as int, S as int);
        }
        let row = i / S;
        let col = i % S;
        col * S + row
    }

    /// All 8 symmetric images of a cell index, in the order identity,
    /// flip_cols, flip_rows, transpose, flip_rows∘flip_cols,
    /// transpose∘flip_cols, transpose∘flip_rows,
    /// transpose∘flip_rows∘flip_cols.
    pub fn index_symmetries(i: usize) -> (r: [usize; 8])
        requires
            Self::board_ok(),
            i < S * S,
        ensures
            forall|k: int| 0 <= k < 8 ==> #[trigger] r@[k] == d4_image(i as int, S as int, k),
            forall|k: int| 0 <= k < 8 ==> #[trigger] r@[k] < S * S,
    {
        let fc = Self::flip_cols(i);
        let fr = Self::flip_rows(i);
        let t = Self::transpose(i);
        let frc = Self::flip_rows(fc);
        let r = [i, fc, fr, t, frc, Self::transpose(fc), Self::transpose(fr), Self::transpose(frc)];
        assert forall|k: int| 0 <= k < 8 implies #[trigger] r@[k] == d4_image(
            i as int,
            S as int,
            k,
        ) by {}
        r
    }

    /// Map an index back through the inverse of a symmetry.
    pub fn invert_symmetry(i: usize, sym_idx: usize) -> (r: usize)
        requires
            Self::board_ok(),
            i < S * S,
            sym_idx < 8,
        ensures
            r == d4_image(i as int, S as int, d4_inverse(sym_idx as int)),
            r < S * S,
    {
        let ghost s = S as int;
        proof {
            lemma_d4_coord(i as int, s, d4_inverse(sym_idx as int));
            lemma_grid_split(i as int, s, s);
        }
        if sym_idx == 0 {
            i
        } else if sym_idx == 1 {
            Self::flip_cols(i)
        } else if sym_idx == 2 {
            Self::flip_rows(i)
        } else if sym_idx == 3 {
            Self::transpose(i)
        } else if sym_idx == 4 {
            let a = Self::flip_rows(i);
            let r = Self::flip_cols(a);
            proof {
                lemma_flip_rows(i as int, s, s);
                lemma_flip_cols(a as int, s, s);
                lemma_same_cell(r as int, d4_image(i as int, s, 4), s, s);
            }
            r
        } else if sym_idx == 5 {
            let a = Self::transpose(i);
            let r = Self::flip_cols(a);
            proof {
                lemma_transpose(i as int, s);
                lemma_flip_cols(a as int, s, s);
                lemma_same_cell(r as int, d4_image(i as int, s, 6), s, s);
            }
            r
        } else if sym_idx == 6 {
            let a = Self::transpose(i);
            let r = Self::flip_rows(a);
            proof {
                lemma_transpose(i as int, s);
                lemma_flip_rows(a as int, s, s);
                lemma_same_cell(r as int, d4_image(i as int, s, 5), s, s);
            }
            r
        } else {
            let a = Self::transpose(i);
            let b = Self::flip_rows(a);
            let r = Self::flip_cols(b);
            proof {
                lemma_transpose(i as int, s);
                lemma_flip_rows(a as int, s, s);
                lemma_flip_cols(b as int, s, s);
                lemma_same_cell(r as int, d4_image(i as int, s, 7), s, s);
            }
            r
        }
    }
}

/// A cell is the `sym`-image of `k` exactly when `k` is its image under the
/// inverse element.
pub proof fn lemma_d4_preimage(j: int, k: int, s: int, sym: int)
    requires
        0 <= j < s * s,
        0 <= k < s * s,
        s > 0,
        0 <= sym < 8,
    ensures
        (d4_image(k, s, sym) == j) == (d4_image(j, s, d4_inverse(sym)) == k),
        0 <= d4_image(j, s, d4_inverse(sym)) < s * s,
{
    lemma_d4_round_trip(k, s, sym);
    lemma_d4_inverse_involution(sym);
    lemma_d4_round_trip(j, s, d4_inverse(sym));
}

/// The 2-bit field of cell `j` in a packed `u32` board.
pub open spec fn field2(w: u32, j: u32) -> u32 {
    (w >> (2u32 * j)) & 3u32
}

proof fn lemma_field2_or(w: u32, p: u32, d: u32, j: u32)
    by (bit_vector)
    requires
        p <= 3,
        d < 16,
        j < 16,
    ensures
        j != d ==> field2(w | (p << (2u32 * d)), j) == field2(w, j),
        j == d && field2(w, j) == 0 ==> field2(w | (p << (2u32 * d)), j) == p,
        field2(0u32, j) == 0,
        field2(w, j) <= 3,
{
}

/// Two packed boards with the same 16 fields are equal.
pub proof fn lemma_field2_ext(a: u32, b: u32)
    requires
        forall|j: u32| j < 16 ==> #[trigger] field2(a, j) == field2(b, j),
    ensures
        a == b,
{
    assert(field2(a, 0) == field2(b, 0));
    assert(field2(a, 1) == field2(b, 1));
    assert(field2(a, 2) == field2(b, 2));
    assert(field2(a, 3) == field2(b, 3));
    assert(field2(a, 4) == field2(b, 4));
    assert(field2(a, 5) == field2(b, 5));
    assert(field2(a, 6) == field2(b, 6));
    assert(field2(a, 7) == field2(b, 7));
    assert(field2(a, 8) == field2(b, 8));
    assert(field2(a, 9) == field2(b, 9));
    assert(field2(a, 10) == field2(b, 10));
    assert(field2(a, 11) == field2(b, 11));
    assert(field2(a, 12) == field2(b, 12));
    assert(field2(a, 13) == field2(b, 13));
    assert(field2(a, 14) == field2(b, 14));
    assert(field2(a, 15) == field2(b, 15));
    assert(a == b) by (bit_vector)
        requires
            field2(a, 0) == field2(b, 0),
            field2(a, 1) == field2(b, 1),
            field2(a, 2) == field2(b, 2),
            field2(a, 3) == field2(b, 3),
            field2(a, 4) == field2(b, 4),
            field2(a, 5) == field2(b, 5),
            field2(a, 6) == field2(b, 6),
            field2(a, 7) == field2(b, 7),
            field2(a, 8) == field2(b, 8),
            field2(a, 9) == field2(b, 9),
            field2(a, 10) == field2(b, 10),
            field2(a, 11) == field2(b, 11),
            field2(a, 12) == field2(b, 12),
            field2(a, 13) == field2(b, 13),
            field2(a, 14) == field2(b, 14),
            field2(a, 15) == field2(b, 15),
    ;
}

/// `syms` holds the 8 D4 images of the packed `s x s` board `board`: the
/// field of cell `j` in image `k` is the field of the cell that element `k`
/// moves onto `j`; fields past the board are empty.
pub open spec fn packed_images(board: u32, s: int, syms: Seq<u32>) -> bool {
    &&& syms.len() == 8
    &&& forall|k: int, j: u32|
        0 <= k < 8 && j < 16 ==> #[trigger] field2(syms[k], j) == if j < s * s {
            field2(board, d4_image(j as int, s, d4_inverse(k)) as u32)
        } else {
            0
        }
}

/// The packed images of a board are unique.
pub proof fn lemma_packed_images_unique(board: u32, s: int, a: Seq<u32>, b: Seq<u32>)
    requires
        packed_images(board, s, a),
        packed_images(board, s, b),
    ensures
        a == b,
{
    assert forall|k: int| 0 <= k < 8 implies a[k] == b[k] by {
        assert forall|j: u32| j < 16 implies #[trigger] field2(a[k], j) == field2(b[k], j) by {}
        lemma_field2_ext(a[k], b[k]);
    }
    assert(a =~= b);
}

/// `r` is the image of the `s x s` bitboard `board` under element `sym`:
/// cell `j` of `r` holds what the cell that `sym` moves onto `j` holds, and
/// no bit past the board is set.
pub open spec fn bits_image(r: u64, board: u64, s: int, sym: int) -> bool {
    forall|j: u64|
        j < 64 ==> #[trigger] bit(r, j) == (j < s * s && bit(board, d4_image(j as int, s, d4_inverse(sym)) as u64))
}

/// The set bits of `w` below `n`, as a set of indices.
pub open spec fn bit_set(w: u64, n: int) -> Set<int>
    decreases n,
{
    if n <= 0 {
        Set::empty()
    } else if bit(w, (n - 1) as u64) {
        bit_set(w, n - 1).insert(n - 1)
    } else {
        bit_set(w, n - 1)
    }
}

/// The set bits below `n` form a finite set of `ones_below(w, n)` indices.
proof fn lemma_bit_set_of(w: u64, n: int)
    requires
        0 <= n <= 64,
    ensures
        bit_set(w, n).finite(),
        bit_set(w, n).len() == ones_below(w, n),
        forall|j: int| #[trigger] bit_set(w, n).contains(j) <==> (0 <= j < n && bit(w, j as u64)),
    decreases n,
{
    if n > 0 {
        lemma_bit_set_of(w, n - 1);
    }
}

/// A symmetry moves a board's set bits onto its image's set bits, so the
/// image has as many set bits as the board.
proof fn lemma_bits_image_ones(r: u64, board: u64, s: int, sym: int)
    requires
        s > 0,
        s * s <= 64,
        0 <= sym < 8,
        forall|j: u64| s * s <= j < 64 ==> !#[trigger] bit(board, j),
        bits_image(r, board, s, sym),
    ensures
        ones(r) == ones(board),
{
    lemma_bit_set_of(r, 64);
    lemma_bit_set_of(board, 64);
    lemma_d4_is_permutation(s, sym);
    let f = |i: int| d4_image(i, s, sym);
    let x = bit_set(board, 64);
    let y = bit_set(r, 64);
    assert forall|a: int, b: int| x.contains(a) && x.contains(b) && #[trigger] f(a) == #[trigger] f(b) implies a == b by {
        if a >= s * s {
            assert(!bit(board, a as u64));
        }
        if b >= s * s {
            assert(!bit(board, b as u64));
        }
    }
    assert(vstd::relations::injective_on(f, x));
    assert forall|j: int| #[trigger] x.map(f).contains(j) <==> y.contains(j) by {
        if y.contains(j) {
            let i = d4_image(j, s, d4_inverse(sym));
            assert(bit(r, j as u64));
            assert(x.contains(i));
            assert(f(i) == j);
        }
        if x.map(f).contains(j) {
            let i = choose|i: int| x.contains(i) && f(i) == j;
            if i >= s * s {
                assert(!bit(board, i as u64));
            }
            lemma_d4_round_trip(i, s, sym);
            assert(bit(r, j as u64));
        }
    }
    assert(x.map(f) =~= y);
    vstd::set_lib::lemma_map_size(x, y, f);
}

/// Applying a symmetry's inverse to its image of a board gives the board
/// back, for a board with no bit past its `s * s` cells.
pub proof fn lemma_bits_image_round_trip(board: u64, image: u64, back: u64, s: int, sym: int)
    requires
        s > 0,
        s * s <= 64,
        0 <= sym < 8,
        forall|j: u64| s * s <= j < 64 ==> !#[trigger] bit(board, j),
        bits_image(image, board, s, sym),
        bits_image(back, image, s, d4_inverse(sym)),
    ensures
        back == board,
{
    lemma_d4_inverse_involution(sym);
    assert forall|j: u64| j < 64 implies #[trigger] bit(back, j) == bit(board, j) by {
        if j < s * s {
            let i = d4_image(j as int, s, sym);
            lemma_d4_round_trip(j as int, s, sym);
            assert(bit(image, i as u64) == bit(board, d4_image(i, s, d4_inverse(sym)) as u64));
        }
    }
    lemma_bits_ext(back, board);
}

/// In each packed image the cell a symmetry moves cell `i` onto holds
/// cell `i`'s field, and the identity image of a board with no field past
/// its cells is the board itself.
pub proof fn lemma_packed_images_facts(board: u32, s: int, syms: Seq<u32>)
    requires
        s > 0,
        s * s <= 16,
        packed_images(board, s, syms),
    ensures
        forall|k: int, i: int|
            0 <= k < 8 && 0 <= i < s * s ==> #[trigger] field2(syms[k], d4_image(i, s, k) as u32) == field2(
                board,
                i as u32,
            ),
        (forall|j: u32| s * s <= j < 16 ==> #[trigger] field2(board, j) == 0) ==> syms[0] == board,
{
    assert forall|k: int, i: int| 0 <= k < 8 && 0 <= i < s * s implies #[trigger] field2(
        syms[k],
        d4_image(i, s, k) as u32,
    ) == field2(board, i as u32) by {
        lemma_d4_round_trip(i, s, k);
        let j = d4_image(i, s, k);
        assert(field2(syms[k], j as u32) == field2(board, d4_image(j, s, d4_inverse(k)) as u32));
    }
    if forall|j: u32| s * s <= j < 16 ==> #[trigger] field2(board, j) == 0 {
        assert forall|j: u32| j < 16 implies #[trigger] field2(syms[0], j) == field2(board, j) by {}
        lemma_field2_ext(syms[0], board);
    }
}

impl<const S: usize> D4Symmetry<S> {
    /// Apply a symmetry to a raw `u64` bitboard of an `S x S` board (at most
    /// 64 cells): every set cell moves to its image.
    pub fn apply_to_bits(board: u64, sym_idx: usize) -> (r: u64)
        requires
            S > 0,
            S * S <= 64,
            sym_idx < 8,
            forall|j: u64| S * S <= j < 64 ==> !#[trigger] bit(board, j),
        ensures
            forall|j: u64|
                j < 64 ==> #[trigger] bit(r, j) == (j < S * S && bit(
                    board,
                    d4_image(j as int, S as int, d4_inverse(sym_idx as int)) as u64,
                )),
            bits_image(r, board, S as int, sym_idx as int),
            forall|i: int| 0 <= i < S * S ==> #[trigger] bit(r, d4_image(i, S as int, sym_idx as int) as u64) == bit(board, i as u64),
            ones(r) == ones(board),
    {
        let n = S * S;
        let ghost s = S as int;
        let ghost inv = d4_inverse(sym_idx as int);
        let mut result: u64 = 0;
        let mut k: usize = 0;
        proof {
            assert forall|j: u64| j < 64 implies !#[trigger] bit(result, j) by {
                lemma_bit_ops(0, 0, j);
            }
        }
        while k < n
            invariant
                n == S * S,
                S > 0,
                n <= 64,
                k <= n,
                sym_idx < 8,
                s == S,
                inv == d4_inverse(sym_idx as int),
                forall|j: u64|
                    j < 64 ==> #[trigger] bit(result, j) == (j < n && 0 <= d4_image(j as int, s, inv) < k
                        && bit(board, d4_image(j as int, s, inv) as u64)),
            decreases n - k,
        {
            if (board >> (k as u64)) & 1 == 1 {
                let dst = Self::index_symmetries(k)[sym_idx];
                let ghost old_result = result;
                result = result | (1u64 << (dst as u64));
                proof {
                    assert forall|j: u64| j < 64 implies #[trigger] bit(result, j) == (j < n
                        && 0 <= d4_image(j as int, s, inv) < k + 1 && bit(
                        board,
                        d4_image(j as int, s, inv) as u64,
                    )) by {
                        lemma_bit_set(old_result, dst as u64, j);
                        if j < n {
                            lemma_d4_preimage(j as int, k as int, s, sym_idx as int);
                        }
                    }
                }
            } else {
                proof {
                    assert forall|j: u64| j < 64 implies #[trigger] bit(result, j) == (j < n
                        && 0 <= d4_image(j as int, s, inv) < k + 1 && bit(
                        board,
                        d4_image(j as int, s, inv) as u64,
                    )) by {}
                }
            }
            k += 1;
        }
        proof {
            assert forall|j: u64| j < 64 implies #[trigger] bit(result, j) == (j < S * S && bit(
                board,
                d4_image(j as int, S as int, d4_inverse(sym_idx as int)) as u64,
            )) by {
                if j < n {
                    lemma_d4_preimage(j as int, 0, s, sym_idx as int);
                }
            }
            assert forall|i: int| 0 <= i < S * S implies #[trigger] bit(result, d4_image(i, s, sym_idx as int) as u64) == bit(board, i as u64) by {
                lemma_d4_round_trip(i, s, sym_idx as int);
                let j = d4_image(i, s, sym_idx as int);
                assert(bit(result, j as u64) == (j < S * S && bit(board, d4_image(j, s, inv) as u64)));
            }
            lemma_bits_image_ones(result, board, s, sym_idx as int);
        }
        result
    }

    /// All 8 symmetric images of a packed `u32` board (2 bits per cell,
    /// cell `i` at bits `2i..2i+2`), written into the zeroed `symmetries`.
    pub fn packed_board_symmetries(board: u32, symmetries: &mut [u32; 8])
        requires
            S > 0,
            S * S <= 16,
            forall|k: int| 0 <= k < 8 ==> old(symmetries)@[k] == 0,
        ensures
            packed_images(board, S as int, final(symmetries)@),
            forall|k: int, i: int|
                0 <= k < 8 && 0 <= i < S * S ==> #[trigger] field2(
                    final(symmetries)@[k],
                    d4_image(i, S as int, k) as u32,
                ) == field2(board, i as u32),
            (forall|j: u32| S * S <= j < 16 ==> #[trigger] field2(board, j) == 0) ==> final(symmetries)@[0] == board,
    {
        let n = S * S;
        let ghost s = S as int;
        let mut i: usize = 0;
        proof {
            assert forall|k: int, j: u32| 0 <= k < 8 && j < 16 implies #[trigger] field2(
                symmetries@[k],
                j,
            ) == 0 by {
                lemma_field2_or(0, 0, 0, j);
            }
        }
        while i < n
            invariant
                n == S * S,
                S > 0,
                n <= 16,
                i <= n,
                s == S,
                forall|k: int, j: u32|
                    0 <= k < 8 && j < 16 ==> #[trigger] field2(symmetries@[k], j) == if j < n
                        && 0 <= d4_image(j as int, s, d4_inverse(k)) < i {
                        field2(board, d4_image(j as int, s, d4_inverse(k)) as u32)
                    } else {
                        0
                    },
            decreases n - i,
        {
            proof {
                assert((i as u32) << 1u32 < 32u32) by (bit_vector)
                    requires
                        i < 16,
                ;
            }
            let p = (board >> ((i as u32) << 1u32)) & 3u32;
            proof {
                assert(p == field2(board, i as u32)) by (bit_vector)
                    requires
                        p == (board >> ((i as u32) << 1u32)) & 3u32,
                        i < 16,
                ;
                lemma_field2_or(board, 0, 0, i as u32);
            }
            let images = Self::index_symmetries(i);
            let mut t: usize = 0;
            while t < 8
                invariant
                    n == S * S,
                    S > 0,
                    n <= 16,
                    i < n,
                    t <= 8,
                    s == S,
                    p == field2(board, i as u32),
                    p <= 3,
                    forall|k: int| 0 <= k < 8 ==> #[trigger] images@[k] == d4_image(i as int, s, k),
                    forall|k: int| 0 <= k < 8 ==> #[trigger] images@[k] < S * S,
                    forall|k: int, j: u32|
                        0 <= k < 8 && j < 16 ==> #[trigger] field2(symmetries@[k], j) == if j < n
                            && (0 <= d4_image(j as int, s, d4_inverse(k)) < i || (k < t && d4_image(
                            j as int,
                            s,
                            d4_inverse(k),
                        ) == i)) {
                            field2(board, d4_image(j as int, s, d4_inverse(k)) as u32)
                        } else {
                            0
                        },
                decreases 8 - t,
            {
                let dst = images[t];
                let ghost before = symmetries@;
                proof {
                    assert((dst as u32) << 1u32 == 2u32 * (dst as u32) && (dst as u32) << 1u32
                        < 32u32) by (bit_vector)
                        requires
                            dst < 16,
                    ;
                }
                let v = symmetries[t] | (p << ((dst as u32) << 1u32));
                symmetries[t] = v;
                proof {
                    assert forall|k: int, j: u32| 0 <= k < 8 && j < 16 implies #[trigger] field2(
                        symmetries@[k],
                        j,
                    ) == if j < n && (0 <= d4_image(j as int, s, d4_inverse(k)) < i || (k < t + 1
                        && d4_image(j as int, s, d4_inverse(k)) == i)) {
                        field2(board, d4_image(j as int, s, d4_inverse(k)) as u32)
                    } else {
                        0
                    } by {
                        if k == t {
                            lemma_field2_or(before[k], p, dst as u32, j);
                            if j < n {
                                lemma_d4_preimage(j as int, i as int, s, k);
                            }
                        }
                    }
                }
                t += 1;
            }
            i += 1;
        }
        proof {
            assert forall|k: int, j: u32| 0 <= k < 8 && j < 16 implies #[trigger] field2(
                symmetries@[k],
                j,
            ) == if j < s * s {
                field2(board, d4_image(j as int, s, d4_inverse(k)) as u32)
            } else {
                0
            } by {
                if j < n {
                    lemma_d4_preimage(j as int, 0, s, k);
                }
            }
            lemma_packed_images_facts(board, s, symmetries@);
        }
    }

    /// Index of the symmetry whose image of a packed board is minimal (the
    /// first such index on ties): the board's canonical symmetry.
    pub fn packed_canonical_symmetry(board: u32) -> (r: usize)
        requires
            S > 0,
            S * S <= 16,
        ensures
            r < 8,
            exists|syms: Seq<u32>|
                {
                    &&& #[trigger] packed_images(board, S as int, syms)
                    &&& forall|k: int| 0 <= k < 8 ==> syms[r as int] <= #[trigger] syms[k]
                    &&& forall|k: int| 0 <= k < r ==> #[trigger] syms[k] > syms[r as int]
                },
            forall|syms: Seq<u32>|
                #[trigger] packed_images(board, S as int, syms) ==> (forall|k: int| 0 <= k < 8 ==> syms[r as int]
                    <= #[trigger] syms[k]) && (forall|k: int| 0 <= k < r ==> #[trigger] syms[k] > syms[r as int]),
    {
        let mut sym = [0u32; 8];
        Self::packed_board_symmetries(board, &mut sym);
        let mut best: usize = 0;
        let mut k: usize = 1;
        while k < 8
            invariant
                1 <= k <= 8,
                best < k,
                forall|m: int| 0 <= m < k ==> sym@[best as int] <= #[trigger] sym@[m],
                forall|m: int| 0 <= m < best ==> #[trigger] sym@[m] > sym@[best as int],
            decreases 8 - k,
        {
            if sym[k] < sym[best] {
                best = k;
            }
            k += 1;
        }
        assert(packed_images(board, S as int, sym@));
        proof {
            assert forall|syms: Seq<u32>| #[trigger] packed_images(board, S as int, syms) implies (forall|k: int|
                0 <= k < 8 ==> syms[best as int] <= #[trigger] syms[k]) && (forall|k: int|
                0 <= k < best ==> #[trigger] syms[k] > syms[best as int]) by {
                lemma_packed_images_unique(board, S as int, sym@, syms);
            }
        }
        best
    }
}

impl<const S: usize> SymmetryGroup for D4Symmetry<S> {
    const ORDER: usize = 8;

    open spec fn acts_on(i: int) -> bool {
        Self::board_ok() && 0 <= i < S * S
    }

    open spec fn image(i: int, sym: int) -> int {
        d4_image(i, S as int, sym)
    }

    open spec fn inverse(sym: int) -> int {
        d4_inverse(sym)
    }

    fn apply_index(i: usize, sym: usize) -> (r: usize) {
        let images = Self::index_symmetries(i);
        images[sym]
    }

    fn invert(sym: usize) -> (r: usize) {
        let inv: [usize; 8] = [0, 1, 2, 3, 4, 6, 5, 7];
        inv[sym]
    }

    proof fn lemma_round_trip(i: int, sym: int) {
        lemma_d4_round_trip(i, S as int, sym);
    }
}

} // verus!

verus! {

/// Runtime-sized D4 symmetry group for a square board whose side length is
/// only known at run time -- the same 8 elements and index arithmetic as
/// [`D4Symmetry`], parameterised by a `size` field.
#[derive(Clone, Copy, Debug)]
pub struct D4Dyn {
    size: usize,
}

impl D4Dyn {
    /// The board's side length.
    pub closed spec fn side(&self) -> int {
        self.size as int
    }

    /// A non-empty square board whose cell count fits `usize`.
    pub open spec fn board_ok(&self) -> bool {
        self.side() > 0 && self.side() * self.side() <= usize::MAX
    }

    pub fn new(size: usize) -> (r: Self)
        ensures
            r.side() == size,
    {
        Self { size }
    }

    fn flip_cols(&self, i: usize) -> (r: usize)
        requires
            self.board_ok(),
            i < self.side() * self.side(),
        ensures
            r == flip_cols_spec(i as int, self.side()),
            r < self.side() * self.side(),
    {
        let s = self.size;
        proof {
            lemma_grid_split(i as int, s as int, s as int);
            lemma_grid_pack((i / s) as int, s - 1, s as int, s as int);
            lemma_flip_cols(i as int, s as int, s as int);
        }
        flip_cols_index(i, s)
    }

    fn flip_rows(&self, i: usize) -> (r: usize)
        requires
            self.board_ok(),
            i < self.side() * self.side(),
        ensures
            r == flip_rows_spec(i as int, self.side(), self.side()),
            r < self.side() * self.side(),
    {
        proof {
            lemma_flip_rows(i as int, self.side(), self.side());
        }
        flip_rows_index(i, self.size, self.size)
    }

    fn transpose(&self, i: usize) -> (r: usize)
        requires
            self.board_ok(),
            i < self.side() * self.side(),
        ensures
            r == transpose_spec(i as int, self.side()),
            r < self.side() * self.side(),
    {
        let s = self.size;
        proof {
            lemma_grid_split(i as int, s as int, s as int);
            lemma_grid_pack((i % s) as int, (i / s) as int, s as int, s as int);
        }
        let row = i / s;
        let col = i % s;
        col * s + row
    }

    /// All 8 symmetric images of a cell index, in `D4Symmetry`'s order.
    pub fn index_symmetries(&self, i: usize) -> (r: [usize; 8])
        requires
            self.board_ok(),
            i < self.side() * self.side(),
        ensures
            forall|k: int| 0 <= k < 8 ==> #[trigger] r@[k] == d4_image(i as int, self.side(), k),
            forall|k: int| 0 <= k < 8 ==> #[trigger] r@[k] < self.side() * self.side(),
    {
        let fc = self.flip_cols(i);
        let fr = self.flip_rows(i);
        let t = self.transpose(i);
        let frc = self.flip_rows(fc);
        let r = [i, fc, fr, t, frc, self.transpose(fc), self.transpose(fr), self.transpose(frc)];
        assert forall|k: int| 0 <= k < 8 implies #[trigger] r@[k] == d4_image(
            i as int,
            self.side(),
            k,
        ) by {}
        r
    }

    /// Map an index back through the inverse of a symmetry.
    pub fn invert_symmetry(&self, i: usize, sym_idx: usize) -> (r: usize)
        requires
            self.board_ok(),
            i < self.side() * self.side(),
            sym_idx < 8,
        ensures
            r == d4_image(i as int, self.side(), d4_inverse(sym_idx as int)),
            r < self.side() * self.side(),
    {
        let ghost s = self.side();
        proof {
            lemma_d4_coord(i as int, s, d4_inverse(sym_idx as int));
            lemma_grid_split(i as int, s, s);
        }
        if sym_idx == 0 {
            i
        } else if sym_idx == 1 {
            self.flip_cols(i)
        } else if sym_idx == 2 {
            self.flip_rows(i)
        } else if sym_idx == 3 {
            self.transpose(i)
        } else if sym_idx == 4 {
            let a = self.flip_rows(i);
            let r = self.flip_cols(a);
            proof {
                lemma_flip_rows(i as int, s, s);
                lemma_flip_cols(a as int, s, s);
                lemma_same_cell(r as int, d4_image(i as int, s, 4), s, s);
            }
            r
        } else if sym_idx == 5 {
            let a = self.transpose(i);
            let r = self.flip_cols(a);
            proof {
                lemma_transpose(i as int, s);
                lemma_flip_cols(a as int, s, s);
                lemma_same_cell(r as int, d4_image(i as int, s, 6), s, s);
            }
            r
        } else if sym_idx == 6 {
            let a = self.transpose(i);
            let r = self.flip_rows(a);
            proof {
                lemma_transpose(i as int, s);
                lemma_flip_rows(a as int, s, s);
                lemma_same_cell(r as int, d4_image(i as int, s, 5), s, s);
            }
            r
        } else {
            let a = self.transpose(i);
            let b = self.flip_rows(a);
            let r = self.flip_cols(b);
            proof {
                lemma_transpose(i as int, s);
                lemma_flip_rows(a as int, s, s);
                lemma_flip_cols(b as int, s, s);
                lemma_same_cell(r as int, d4_image(i as int, s, 7), s, s);
            }
            r
        }
    }
}

/// Applies symmetry element `sym_idx` of `d4`'s group to a raw `WORDS`-word
/// bitmask (such as a move's capture mask): every set cell moves to its
/// image.
pub fn transform_words<const WORDS: usize>(words: [u64; WORDS], d4: &D4Dyn, sym_idx: usize) -> (r: [u64; WORDS])
    requires
        d4.board_ok(),
        d4.side() * d4.side() <= 64 * WORDS,
        sym_idx < 8,
        forall|j: int| d4.side() * d4.side() <= j < 64 * WORDS ==> !#[trigger] seq_bit(words@, j),
    ensures
        forall|j: int|
            0 <= j < 64 * WORDS ==> #[trigger] seq_bit(r@, j) == (j < d4.side() * d4.side() && seq_bit(
                words@,
                d4_image(j, d4.side(), d4_inverse(sym_idx as int)),
            )),
{
    let ghost s = d4.side();
    let ghost inv = d4_inverse(sym_idx as int);
    let n = d4.size * d4.size;
    let mut out = [0u64; WORDS];
    proof {
        assert forall|j: int| 0 <= j < 64 * WORDS implies !#[trigger] seq_bit(out@, j) by {
            lemma_bit_ops(0, 0, (j % 64) as u64);
        }
    }
    let mut k: usize = 0;
    while k < n
        invariant
            n == s * s,
            s == d4.side(),
            d4.board_ok(),
            n <= 64 * WORDS,
            k <= n,
            sym_idx < 8,
            inv == d4_inverse(sym_idx as int),
            forall|j: int|
                0 <= j < 64 * WORDS ==> #[trigger] seq_bit(out@, j) == (j < n && 0 <= d4_image(
                    j,
                    s,
                    inv,
                ) < k && seq_bit(words@, d4_image(j, s, inv))),
        decreases n - k,
    {
        if words_get(&words, k) {
            let dst = d4.index_symmetries(k)[sym_idx];
            let ghost before = out@;
            words_set(&mut out, dst);
            proof {
                assert forall|j: int| 0 <= j < 64 * WORDS implies #[trigger] seq_bit(out@, j) == (j
                    < n && 0 <= d4_image(j, s, inv) < k + 1 && seq_bit(words@, d4_image(j, s, inv))) by {
                    if j < n {
                        lemma_d4_preimage(j, k as int, s, sym_idx as int);
                    }
                }
            }
        } else {
            proof {
                assert forall|j: int| 0 <= j < 64 * WORDS implies #[trigger] seq_bit(out@, j) == (j
                    < n && 0 <= d4_image(j, s, inv) < k + 1 && seq_bit(words@, d4_image(j, s, inv))) by {
                }
            }
        }
        k += 1;
    }
    proof {
        assert forall|j: int| 0 <= j < 64 * WORDS implies #[trigger] seq_bit(out@, j) == (j < s * s
            && seq_bit(words@, d4_image(j, s, inv))) by {
            if j < n {
                lemma_d4_preimage(j, 0, s, sym_idx as int);
            }
        }
    }
    out
}

/// The inverse of [`transform_words`]: applies the inverse of element
/// `sym_idx` to a raw `WORDS`-word bitmask.
pub fn invert_words<const WORDS: usize>(words: [u64; WORDS], d4: &D4Dyn, sym_idx: usize) -> (r: [u64; WORDS])
    requires
        d4.board_ok(),
        d4.side() * d4.side() <= 64 * WORDS,
        sym_idx < 8,
        forall|j: int| d4.side() * d4.side() <= j < 64 * WORDS ==> !#[trigger] seq_bit(words@, j),
    ensures
        forall|j: int|
            0 <= j < 64 * WORDS ==> #[trigger] seq_bit(r@, j) == (j < d4.side() * d4.side() && seq_bit(
                words@,
                d4_image(j, d4.side(), sym_idx as int),
            )),
{
    let ghost s = d4.side();
    let ghost sym = sym_idx as int;
    let n = d4.size * d4.size;
    let mut out = [0u64; WORDS];
    proof {
        lemma_d4_inverse_involution(sym);
        assert forall|j: int| 0 <= j < 64 * WORDS implies !#[trigger] seq_bit(out@, j) by {
            lemma_bit_ops(0, 0, (j % 64) as u64);
        }
    }
    let mut k: usize = 0;
    while k < n
        invariant
            n == s * s,
            s == d4.side(),
            d4.board_ok(),
            n <= 64 * WORDS,
            k <= n,
            sym_idx < 8,
            sym == sym_idx,
            d4_inverse(d4_inverse(sym)) == sym,
            0 <= d4_inverse(sym) < 8,
            forall|j: int|
                0 <= j < 64 * WORDS ==> #[trigger] seq_bit(out@, j) == (j < n && 0 <= d4_image(
                    j,
                    s,
                    sym,
                ) < k && seq_bit(words@, d4_image(j, s, sym))),
        decreases n - k,
    {
        if words_get(&words, k) {
            let dst = d4.invert_symmetry(k, sym_idx);
            words_set(&mut out, dst);
            proof {
                assert forall|j: int| 0 <= j < 64 * WORDS implies #[trigger] seq_bit(out@, j) == (j
                    < n && 0 <= d4_image(j, s, sym) < k + 1 && seq_bit(words@, d4_image(j, s, sym))) by {
                    if j < n {
                        lemma_d4_preimage(j, k as int, s, d4_inverse(sym));
                    }
                }
            }
        } else {
            proof {
                assert forall|j: int| 0 <= j < 64 * WORDS implies #[trigger] seq_bit(out@, j) == (j
                    < n && 0 <= d4_image(j, s, sym) < k + 1 && seq_bit(words@, d4_image(j, s, sym))) by {
                }
            }
        }
        k += 1;
    }
    proof {
        assert forall|j: int| 0 <= j < 64 * WORDS implies #[trigger] seq_bit(out@, j) == (j < s * s
            && seq_bit(words@, d4_image(j, s, sym))) by {
            if j < n {
                lemma_d4_preimage(j, 0, s, d4_inverse(sym));
            }
        }
    }
    out
}

} // verus!

verus! {

/// Klein four-group symmetries (identity, column flip, row flip, and their
/// composition) for a `ROWS x COLS` board of any aspect ratio.
pub struct KleinFour<const ROWS: usize, const COLS: usize>;

impl<const ROWS: usize, const COLS: usize> KleinFour<ROWS, COLS> {
    /// A board with at least one column whose cell count fits `usize`.
    pub open spec fn board_ok() -> bool {
        COLS > 0 && ROWS * COLS <= usize::MAX
    }

    /// Reverse column order -- col -> COLS-1-col.
    pub fn flip_cols(i: usize) -> (r: usize)
        requires
            Self::board_ok(),
            i < ROWS * COLS,
        ensures
            r == flip_cols_spec(i as int, COLS as int),
            r < ROWS * COLS,
    {
        proof {
            lemma_grid_split(i as int, ROWS as int, COLS as int);
            lemma_grid_pack((i / COLS) as int, COLS - 1, ROWS as int, COLS as int);
            lemma_flip_cols(i as int, ROWS as int, COLS as int);
        }
        flip_cols_index(i, COLS)
    }

    /// Reverse row order -- row -> ROWS-1-row.
    pub fn flip_rows(i: usize) -> (r: usize)
        requires
            Self::board_ok(),
            i < ROWS * COLS,
        ensures
            r == flip_rows_spec(i as int, ROWS as int, COLS as int),
            r < ROWS * COLS,
    {
        proof {
            lemma_flip_rows(i as int, ROWS as int, COLS as int);
        }
        flip_rows_index(i, ROWS, COLS)
    }

    /// All 4 symmetric images of a cell index, in the order identity,
    /// flip_cols, flip_rows, flip_rows∘flip_cols.
    pub fn index_symmetries(i: usize) -> (r: [usize; 4])
        requires
            Self::board_ok(),
            i < ROWS * COLS,
        ensures
            forall|k: int| 0 <= k < 4 ==> #[trigger] r@[k] == klein_image(i as int, ROWS as int, COLS as int, k),
            forall|k: int| 0 <= k < 4 ==> #[trigger] r@[k] < ROWS * COLS,
    {
        let fc = Self::flip_cols(i);
        let fr = Self::flip_rows(i);
        let r = [i, fc, fr, Self::flip_rows(fc)];
        assert forall|k: int| 0 <= k < 4 implies #[trigger] r@[k] == klein_image(
            i as int,
            ROWS as int,
            COLS as int,
            k,
        ) by {}
        r
    }

    /// Map an index back through the inverse of a symmetry; every element
    /// is its own inverse.
    pub fn invert_symmetry(i: usize, sym_idx: usize) -> (r: usize)
        requires
            Self::board_ok(),
            i < ROWS * COLS,
            sym_idx < 4,
        ensures
            r == klein_image(i as int, ROWS as int, COLS as int, sym_idx as int),
            r < ROWS * COLS,
    {
        if sym_idx == 0 {
            i
        } else if sym_idx == 1 {
            Self::flip_cols(i)
        } else if sym_idx == 2 {
            Self::flip_rows(i)
        } else {
            let fc = Self::flip_cols(i);
            Self::flip_rows(fc)
        }
    }
}

impl<const ROWS: usize, const COLS: usize> SymmetryGroup for KleinFour<ROWS, COLS> {
    const ORDER: usize = 4;

    open spec fn acts_on(i: int) -> bool {
        Self::board_ok() && 0 <= i < ROWS * COLS
    }

    open spec fn image(i: int, sym: int) -> int {
        klein_image(i, ROWS as int, COLS as int, sym)
    }

    open spec fn inverse(sym: int) -> int {
        sym
    }

    fn apply_index(i: usize, sym: usize) -> (r: usize) {
        let images = Self::index_symmetries(i);
        images[sym]
    }

    fn invert(sym: usize) -> (r: usize) {
        sym
    }

    proof fn lemma_round_trip(i: int, sym: int) {
        lemma_klein_round_trip(i, ROWS as int, COLS as int, sym);
    }
}

/// Column-mirror symmetry group (identity, column flip) for boards where a
/// row flip is not a symmetry, such as a gravity game whose row 0 is the
/// floor. It acts on any number of rows.
pub struct ColMirror<const COLS: usize>;

/// Element `sym` of the column-mirror group applied to cell `i`.
pub open spec fn col_mirror_image(i: int, cols: int, sym: int) -> int {
    if sym == 0 {
        i
    } else {
        flip_cols_spec(i, cols)
    }
}

/// The column mirror is the subgroup of the Klein four-group made of its
/// elements 0 and 1, on a board of any height.
pub proof fn lemma_col_mirror_is_klein_subgroup(i: int, rows: int, cols: int)
    ensures
        col_mirror_image(i, cols, 0) == klein_image(i, rows, cols, 0),
        col_mirror_image(i, cols, 1) == klein_image(i, rows, cols, 1),
{
}

/// The column flip is a permutation of the cells of a `rows x cols` board.
pub proof fn lemma_col_mirror_is_permutation(rows: int, cols: int)
    requires
        cols > 0,
    ensures
        forall|i: int| 0 <= i < rows * cols ==> 0 <= #[trigger] col_mirror_image(i, cols, 1) < rows * cols,
        forall|i: int, j: int|
            0 <= i < rows * cols && 0 <= j < rows * cols && #[trigger] col_mirror_image(i, cols, 1)
                == #[trigger] col_mirror_image(j, cols, 1) ==> i == j,
        forall|j: int|
            0 <= j < rows * cols ==> col_mirror_image(#[trigger] col_mirror_image(j, cols, 1), cols, 1) == j,
{
    assert forall|i: int| 0 <= i < rows * cols implies 0 <= #[trigger] col_mirror_image(i, cols, 1)
        < rows * cols by {
        lemma_klein_round_trip(i, rows, cols, 1);
    }
    assert forall|i: int, j: int|
        0 <= i < rows * cols && 0 <= j < rows * cols && #[trigger] col_mirror_image(i, cols, 1)
            == #[trigger] col_mirror_image(j, cols, 1) implies i == j by {
        lemma_klein_round_trip(i, rows, cols, 1);
        lemma_klein_round_trip(j, rows, cols, 1);
    }
    assert forall|j: int| 0 <= j < rows * cols implies col_mirror_image(
        #[trigger] col_mirror_image(j, cols, 1),
        cols,
        1,
    ) == j by {
        lemma_klein_round_trip(j, rows, cols, 1);
    }
}

impl<const COLS: usize> ColMirror<COLS> {
    /// Cells whose mirror image fits `usize`, on a board at least one column
    /// wide.
    pub open spec fn index_ok(i: int) -> bool {
        COLS > 0 && 0 <= i && (i / COLS as int) * COLS + (COLS - 1) <= usize::MAX
    }

    /// Reverse column order -- col -> COLS-1-col.
    pub fn flip_cols(i: usize) -> (r: usize)
        requires
            Self::index_ok(i as int),
        ensures
            r == flip_cols_spec(i as int, COLS as int),
            Self::index_ok(r as int),
    {
        proof {
            let rows = i / COLS + 1;
            assert(i == (i / COLS) * COLS + i % COLS && i % COLS < COLS) by (nonlinear_arith)
                requires
                    COLS > 0,
            ;
            assert(i < rows * COLS) by (nonlinear_arith)
                requires
                    rows == i / COLS + 1,
                    COLS > 0,
                    i == (i / COLS) * COLS + i % COLS,
                    i % COLS < COLS,
            {
            }
            lemma_grid_split(i as int, (i / COLS + 1) as int, COLS as int);
            lemma_flip_cols(i as int, (i / COLS + 1) as int, COLS as int);
        }
        flip_cols_index(i, COLS)
    }

    /// Both symmetric images of a cell index: `[identity, mirror]`.
    pub fn index_symmetries(i: usize) -> (r: [usize; 2])
        requires
            Self::index_ok(i as int),
        ensures
            r@[0] == i,
            r@[1] == flip_cols_spec(i as int, COLS as int),
            Self::index_ok(r@[1] as int),
    {
        [i, Self::flip_cols(i)]
    }

    /// Map an index back through the inverse of a symmetry; the column flip
    /// is its own inverse.
    pub fn invert_symmetry(i: usize, sym_idx: usize) -> (r: usize)
        requires
            Self::index_ok(i as int),
            sym_idx < 2,
        ensures
            r == col_mirror_image(i as int, COLS as int, sym_idx as int),
    {
        if sym_idx == 0 {
            i
        } else {
            Self::flip_cols(i)
        }
    }
}

impl<const COLS: usize> SymmetryGroup for ColMirror<COLS> {
    const ORDER: usize = 2;

    open spec fn acts_on(i: int) -> bool {
        Self::index_ok(i)
    }

    open spec fn image(i: int, sym: int) -> int {
        col_mirror_image(i, COLS as int, sym)
    }

    open spec fn inverse(sym: int) -> int {
        sym
    }

    fn apply_index(i: usize, sym: usize) -> (r: usize) {
        let images = Self::index_symmetries(i);
        images[sym]
    }

    fn invert(sym: usize) -> (r: usize) {
        sym
    }

    proof fn lemma_round_trip(i: int, sym: int) {
        if sym == 1 {
            vstd::arithmetic::div_mod::lemma_fundamental_div_mod(i, COLS as int);
            let rows = i / (COLS as int) + 1;
            assert(i < rows * COLS) by (nonlinear_arith)
                requires
                    rows == i / (COLS as int) + 1,
                    COLS > 0,
                    i == COLS * (i / (COLS as int)) + i % (COLS as int),
                    i % (COLS as int) < COLS,
            {
            }
            lemma_flip_cols(i, rows, COLS as int);
        }
    }
}

} // verus!
