//! The four-in-a-row lines of the 6x7 board, and the fixed enumeration of
//! them (the "windows") that an n-tuple value head keys its tables by.
//!
//! A line starts at `(row, col)` and runs in one of four directions:
//! `0` up a column, `1` along a row, `2` up and to the right, `3` up and
//! to the left.

use vstd::prelude::*;
use crate::grid::lemma_grid_pack;

verus! {

/// Number of four-in-a-row windows on the standard board.
pub const N_WINDOWS: usize = 69;

/// One bias weight plus a `3^4`-entry table per window.
pub const NT_WEIGHTS: usize = 5590;

/// Cell `k` (`0..4`) of the line starting at `(row, col)` in direction `d`.
pub open spec fn line_cell(row: int, col: int, d: int, k: int) -> int {
    if d == 0 {
        (row + k) * 7 + col
    } else if d == 1 {
        row * 7 + col + k
    } else if d == 2 {
        (row + k) * 7 + col + k
    } else {
        (row + k) * 7 + col - k
    }
}

/// Whether the line starting at an on-board `(row, col)` in direction `d`
/// stays on the board.
pub open spec fn line_fits(row: int, col: int, d: int) -> bool {
    &&& 0 <= row < 6
    &&& 0 <= col < 7
    &&& 0 <= d < 4
    &&& if d == 0 {
        row + 3 < 6
    } else if d == 1 {
        col + 3 < 7
    } else if d == 2 {
        row + 3 < 6 && col + 3 < 7
    } else {
        row + 3 < 6 && col >= 3
    }
}

/// The `(row, col, direction)` of window `n`: first the 24 horizontal
/// lines row by row, then the 21 vertical ones column by column, then the
/// 12 up-right and the 12 up-left diagonals row by row.
pub open spec fn window_line(n: int) -> (int, int, int) {
    if n < 24 {
        (n / 4, n % 4, 1)
    } else if n < 45 {
        ((n - 24) % 3, (n - 24) / 3, 0)
    } else if n < 57 {
        ((n - 45) / 4, (n - 45) % 4, 2)
    } else {
        ((n - 57) / 4, 3 + (n - 57) % 4, 3)
    }
}

/// Cell `k` of window `n`.
pub open spec fn window_cell(n: int, k: int) -> int {
    let (row, col, d) = window_line(n);
    line_cell(row, col, d, k)
}

/// Every window is a line that fits the board.
pub proof fn lemma_window_fits(n: int)
    requires
        0 <= n < 69,
    ensures
        ({
            let (row, col, d) = window_line(n);
            line_fits(row, col, d)
        }),
{
}

/// The cells of a fitting line are on the board and strictly increasing.
pub proof fn lemma_line_cells(row: int, col: int, d: int)
    requires
        line_fits(row, col, d),
    ensures
        forall|k: int| 0 <= k < 4 ==> 0 <= #[trigger] line_cell(row, col, d, k) < 42,
        forall|k: int| 0 <= k < 3 ==> #[trigger] line_cell(row, col, d, k) < line_cell(row, col, d, k + 1),
{
}

/// Each window is on the board with its cells in strictly increasing
/// order.
pub proof fn lemma_windows_well_formed(n: int)
    requires
        0 <= n < 69,
    ensures
        forall|k: int| 0 <= k < 4 ==> 0 <= #[trigger] window_cell(n, k) < 42,
        forall|k: int| 0 <= k < 3 ==> #[trigger] window_cell(n, k) < window_cell(n, k + 1),
{
    lemma_window_fits(n);
    let (row, col, d) = window_line(n);
    lemma_line_cells(row, col, d);
    assert forall|k: int| 0 <= k < 4 implies 0 <= #[trigger] window_cell(n, k) < 42 by {
        assert(window_cell(n, k) == line_cell(row, col, d, k));
    }
    assert forall|k: int| 0 <= k < 3 implies #[trigger] window_cell(n, k) < window_cell(n, k + 1) by {
        assert(window_cell(n, k) == line_cell(row, col, d, k));
        assert(window_cell(n, k + 1) == line_cell(row, col, d, k + 1));
    }
}

/// The window number of a line that fits the board.
pub open spec fn window_of(row: int, col: int, d: int) -> int {
    if d == 1 {
        row * 4 + col
    } else if d == 0 {
        24 + col * 3 + row
    } else if d == 2 {
        45 + row * 4 + col
    } else {
        57 + row * 4 + (col - 3)
    }
}

/// Every line of four that fits the board is a window: the window set is
/// complete.
pub proof fn lemma_windows_complete(row: int, col: int, d: int)
    requires
        line_fits(row, col, d),
    ensures
        0 <= window_of(row, col, d) < 69,
        window_line(window_of(row, col, d)) == (row, col, d),
{
    if d == 1 {
        lemma_grid_pack(row, col, 6, 4);
    } else if d == 0 {
        lemma_grid_pack(col, row, 7, 3);
    } else if d == 2 {
        lemma_grid_pack(row, col, 3, 4);
    } else {
        lemma_grid_pack(row, col - 3, 3, 4);
    }
}

/// Distinct windows differ in some cell: the window set has no duplicate.
pub proof fn lemma_windows_distinct(a: int, b: int)
    requires
        0 <= a < 69,
        0 <= b < 69,
        a != b,
    ensures
        exists|k: int| 0 <= k < 4 && #[trigger] window_cell(a, k) != window_cell(b, k),
{
    let (ra, ca, da) = window_line(a);
    let (rb, cb, db) = window_line(b);
    lemma_window_fits(a);
    lemma_window_fits(b);
    if window_cell(a, 0) == window_cell(b, 0) && window_cell(a, 1) == window_cell(b, 1) {
        // The step from cell 0 to cell 1 (1, 7, 8 or 6) gives the direction,
        // and cell 0 gives the start.
        assert(da == db);
        lemma_grid_pack(ra, ca, 6, 7);
        lemma_grid_pack(rb, cb, 6, 7);
        assert(ra == rb && ca == cb);
        lemma_windows_complete(ra, ca, da);
        lemma_windows_complete(rb, cb, db);
        assert(a == window_of(ra, ca, da)) by {
            lemma_window_round_trip(a);
        }
        assert(b == window_of(rb, cb, db)) by {
            lemma_window_round_trip(b);
        }
        assert(false);
    }
    if window_cell(a, 0) != window_cell(b, 0) {
        assert(window_cell(a, 0) != window_cell(b, 0));
    } else {
        assert(window_cell(a, 1) != window_cell(b, 1));
    }
}

/// A window's number is recovered from its line.
pub proof fn lemma_window_round_trip(n: int)
    requires
        0 <= n < 69,
    ensures
        ({
            let (row, col, d) = window_line(n);
            window_of(row, col, d) == n
        }),
{
}

/// The windows of the board, in the order [`window_line`] gives.
pub fn build_windows() -> (w: [[usize; 4]; 69])
    ensures
        forall|n: int, k: int| 0 <= n < 69 && 0 <= k < 4 ==> #[trigger] w[n][k] == window_cell(n, k),
{
    let mut w = [[0usize; 4]; 69];
    let mut n: usize = 0;

    // Horizontal: four consecutive columns on a row.
    let mut row: usize = 0;
    while row < 6
        invariant
            row <= 6,
            n == row * 4,
            forall|m: int, k: int| 0 <= m < n && 0 <= k < 4 ==> #[trigger] w[m][k] == window_cell(m, k),
        decreases 6 - row,
    {
        let mut c0: usize = 0;
        while c0 + 3 < 7
            invariant
                row < 6,
                c0 <= 4,
                n == row * 4 + c0,
                forall|m: int, k: int| 0 <= m < n && 0 <= k < 4 ==> #[trigger] w[m][k] == window_cell(m, k),
            decreases 7 - c0,
        {
            let win = [row * 7 + c0, row * 7 + c0 + 1, row * 7 + c0 + 2, row * 7 + c0 + 3];
            proof {
                lemma_grid_pack(row as int, c0 as int, 6, 4);
            }
            w[n] = win;
            n += 1;
            c0 += 1;
        }
        row += 1;
    }

    // Vertical: four consecutive rows in a column.
    let mut col: usize = 0;
    while col < 7
        invariant
            col <= 7,
            n == 24 + col * 3,
            forall|m: int, k: int| 0 <= m < n && 0 <= k < 4 ==> #[trigger] w[m][k] == window_cell(m, k),
        decreases 7 - col,
    {
        let mut r0: usize = 0;
        while r0 + 3 < 6
            invariant
                col < 7,
                r0 <= 3,
                n == 24 + col * 3 + r0,
                forall|m: int, k: int| 0 <= m < n && 0 <= k < 4 ==> #[trigger] w[m][k] == window_cell(m, k),
            decreases 6 - r0,
        {
            let win = [r0 * 7 + col, (r0 + 1) * 7 + col, (r0 + 2) * 7 + col, (r0 + 3) * 7 + col];
            proof {
                lemma_grid_pack(col as int, r0 as int, 7, 3);
            }
            w[n] = win;
            n += 1;
            r0 += 1;
        }
        col += 1;
    }

    // Up-right diagonal.
    let mut r0: usize = 0;
    while r0 + 3 < 6
        invariant
            r0 <= 3,
            n == 45 + r0 * 4,
            forall|m: int, k: int| 0 <= m < n && 0 <= k < 4 ==> #[trigger] w[m][k] == window_cell(m, k),
        decreases 6 - r0,
    {
        let mut c0: usize = 0;
        while c0 + 3 < 7
            invariant
                r0 < 3,
                c0 <= 4,
                n == 45 + r0 * 4 + c0,
                forall|m: int, k: int| 0 <= m < n && 0 <= k < 4 ==> #[trigger] w[m][k] == window_cell(m, k),
            decreases 7 - c0,
        {
            let win = [r0 * 7 + c0, (r0 + 1) * 7 + c0 + 1, (r0 + 2) * 7 + c0 + 2, (r0 + 3) * 7 + c0 + 3];
            proof {
                lemma_grid_pack(r0 as int, c0 as int, 3, 4);
            }
            w[n] = win;
            n += 1;
            c0 += 1;
        }
        r0 += 1;
    }

    // Up-left diagonal.
    let mut r0: usize = 0;
    while r0 + 3 < 6
        invariant
            r0 <= 3,
            n == 57 + r0 * 4,
            forall|m: int, k: int| 0 <= m < n && 0 <= k < 4 ==> #[trigger] w[m][k] == window_cell(m, k),
        decreases 6 - r0,
    {
        let mut c0: usize = 3;
        while c0 < 7
            invariant
                r0 < 3,
                3 <= c0 <= 7,
                n == 57 + r0 * 4 + (c0 - 3),
                forall|m: int, k: int| 0 <= m < n && 0 <= k < 4 ==> #[trigger] w[m][k] == window_cell(m, k),
            decreases 7 - c0,
        {
            let win = [r0 * 7 + c0, (r0 + 1) * 7 + c0 - 1, (r0 + 2) * 7 + c0 - 2, (r0 + 3) * 7 + c0 - 3];
            proof {
                lemma_grid_pack(r0 as int, (c0 - 3) as int, 3, 4);
            }
            w[n] = win;
            n += 1;
            c0 += 1;
        }
        r0 += 1;
    }
    w
}

} // verus!
