//! The static evaluation of a Connect Four position, consulted at a
//! search's depth cutoff: every four-in-a-row window held by one color
//! alone scores by how many of that color it already holds, and each disc
//! in the center column is worth a little more.
//!
//! Boards are `R x C` with cell `(row, col)` in bit `row * C + col` of a
//! `u64` word.

use vstd::prelude::*;
use crate::bits::bit;
use crate::connect4::game::{dims, State};
use crate::connect4::Player;

verus! {

/// Bonus per own disc in the center column (less the opponent's).
pub const CENTER_WEIGHT: i32 = 1;

/// Score of a window holding `n` discs of one color and none of the other.
pub open spec fn window_weight(n: int) -> int {
    if n == 1 {
        1
    } else if n == 2 {
        10
    } else if n == 3 {
        50
    } else if n == 4 {
        100_000
    } else {
        0
    }
}

/// A window's weight grows with the discs it holds: one disc is worth 1,
/// two 10, three 50, and a full window 100 000, so an open three always
/// outweighs an open two.
pub proof fn lemma_window_weight_grows()
    ensures
        window_weight(0) == 0,
        window_weight(1) == 1,
        window_weight(2) == 10,
        window_weight(3) == 50,
        window_weight(4) == 100_000,
        forall|a: int, b: int| 1 <= a < b <= 4 ==> #[trigger] window_weight(a) < #[trigger] window_weight(b),
{
}

/// Whether board `b` holds cell `c`.
pub open spec fn holds(b: u64, c: int) -> bool {
    bit(b, c as u64)
}

/// Cell `k` of the window starting at `(row, col)` of a `cols`-column
/// board in direction `d`: up a column (0), along a row (1), up and to the
/// right (2), up and to the left (3).
pub open spec fn window_cell_at(cols: int, row: int, col: int, d: int, k: int) -> int {
    let rr = row + if d == 1 {
        0
    } else {
        k
    };
    let cc = col + if d == 0 {
        0
    } else if d == 3 {
        -k
    } else {
        k
    };
    rr * cols + cc
}

/// The window starting at `(row, col)` in direction `d` lies on an
/// `rows x cols` board.
pub open spec fn window_fits(rows: int, cols: int, row: int, col: int, d: int) -> bool {
    &&& 0 <= d < 4
    &&& 0 <= row
    &&& (if d == 1 {
        row < rows
    } else {
        row + 3 < rows
    })
    &&& (if d == 0 {
        0 <= col < cols
    } else if d == 3 {
        3 <= col < cols
    } else {
        0 <= col && col + 3 < cols
    })
}

/// Discs of `mine` among the first `k` cells of a window.
pub open spec fn mine_in(mine: u64, cols: int, row: int, col: int, d: int, k: int) -> int
    decreases k,
{
    if k <= 0 {
        0
    } else {
        mine_in(mine, cols, row, col, d, k - 1) + if holds(mine, window_cell_at(cols, row, col, d, k - 1)) {
            1int
        } else {
            0
        }
    }
}

/// Discs of `theirs`, on cells `mine` does not hold, among the first `k`
/// cells of a window.
pub open spec fn theirs_in(mine: u64, theirs: u64, cols: int, row: int, col: int, d: int, k: int) -> int
    decreases k,
{
    if k <= 0 {
        0
    } else {
        theirs_in(mine, theirs, cols, row, col, d, k - 1) + if !holds(mine, window_cell_at(cols, row, col, d, k - 1))
            && holds(theirs, window_cell_at(cols, row, col, d, k - 1)) {
            1int
        } else {
            0
        }
    }
}

/// Value of a window for `mine`: the weight of its discs when only one
/// color is in it, positive for `mine` and negative for `theirs`; zero
/// when it is empty or contested.
pub open spec fn window_value(mine: u64, theirs: u64, cols: int, row: int, col: int, d: int) -> int {
    let m = mine_in(mine, cols, row, col, d, 4);
    let t = theirs_in(mine, theirs, cols, row, col, d, 4);
    if m > 0 && t == 0 {
        window_weight(m)
    } else if m == 0 && t > 0 {
        -window_weight(t)
    } else {
        0
    }
}

/// `f(a, 0) + ... + f(a, n - 1)`.
pub open spec fn line_sum(f: spec_fn(int, int) -> int, a: int, n: int) -> int
    decreases n,
{
    if n <= 0 {
        0
    } else {
        line_sum(f, a, n - 1) + f(a, n - 1)
    }
}

/// `line_sum(f, 0, n) + ... + line_sum(f, m - 1, n)`.
pub open spec fn grid_sum(f: spec_fn(int, int) -> int, m: int, n: int) -> int
    decreases m,
{
    if m <= 0 {
        0
    } else {
        grid_sum(f, m - 1, n) + line_sum(f, m - 1, n)
    }
}

/// The window along row `row` from column `col`.
pub open spec fn horizontal(mine: u64, theirs: u64, cols: int) -> spec_fn(int, int) -> int {
    |row: int, col: int| window_value(mine, theirs, cols, row, col, 1)
}

/// The window up column `col` from row `row`.
pub open spec fn vertical(mine: u64, theirs: u64, cols: int) -> spec_fn(int, int) -> int {
    |col: int, row: int| window_value(mine, theirs, cols, row, col, 0)
}

/// The two diagonal windows in the four-by-four square at `(row, col)`.
pub open spec fn diagonal(mine: u64, theirs: u64, cols: int) -> spec_fn(int, int) -> int {
    |row: int, col: int| window_value(mine, theirs, cols, row, col, 2) + window_value(mine, theirs, cols, row, col + 3, 3)
}

/// Sum of the values of every window of an `rows x cols` board: by rows,
/// then by columns, then the diagonals square by square.
pub open spec fn windows_total(mine: u64, theirs: u64, rows: int, cols: int) -> int {
    grid_sum(horizontal(mine, theirs, cols), rows, cols - 3) + grid_sum(vertical(mine, theirs, cols), cols, rows - 3)
        + grid_sum(diagonal(mine, theirs, cols), rows - 3, cols - 3)
}

/// Discs of `b` in the center column (`cols / 2`) among the first `rows`
/// rows.
pub open spec fn center_count(b: u64, cols: int, rows: int) -> int
    decreases rows,
{
    if rows <= 0 {
        0
    } else {
        center_count(b, cols, rows - 1) + if holds(b, (rows - 1) * cols + cols / 2) {
            1int
        } else {
            0
        }
    }
}

/// The position's value for Black: all windows plus the center bonus.
pub open spec fn black_value(black: u64, white: u64, rows: int, cols: int) -> int {
    windows_total(black, white, rows, cols) + CENTER_WEIGHT * (center_count(black, cols, rows) - center_count(
        white,
        cols,
        rows,
    ))
}

proof fn lemma_counts_bounded(mine: u64, theirs: u64, cols: int, row: int, col: int, d: int, k: int)
    requires
        0 <= k,
    ensures
        0 <= mine_in(mine, cols, row, col, d, k) <= k,
        0 <= theirs_in(mine, theirs, cols, row, col, d, k) <= k,
        mine_in(mine, cols, row, col, d, k) + theirs_in(mine, theirs, cols, row, col, d, k) <= k,
    decreases k,
{
    if k > 0 {
        lemma_counts_bounded(mine, theirs, cols, row, col, d, k - 1);
    }
}

proof fn lemma_value_bounded(mine: u64, theirs: u64, cols: int)
    ensures
        forall|row: int, col: int, d: int|
            -100_000 <= #[trigger] window_value(mine, theirs, cols, row, col, d) <= 100_000,
{
    assert forall|row: int, col: int, d: int|
        -100_000 <= #[trigger] window_value(mine, theirs, cols, row, col, d) <= 100_000 by {
        lemma_counts_bounded(mine, theirs, cols, row, col, d, 4);
    }
}

proof fn lemma_line_bounded(f: spec_fn(int, int) -> int, a: int, n: int, b: int)
    requires
        0 <= n,
        0 <= b,
        forall|x: int, y: int| -b <= #[trigger] f(x, y) <= b,
    ensures
        -(b * n) <= line_sum(f, a, n) <= b * n,
    decreases n,
{
    if n > 0 {
        lemma_line_bounded(f, a, n - 1, b);
        assert(b * n == b * (n - 1) + b) by (nonlinear_arith);
        assert(-b <= f(a, n - 1) <= b);
    }
}

proof fn lemma_grid_bounded(f: spec_fn(int, int) -> int, m: int, n: int, b: int)
    requires
        0 <= m,
        0 <= n,
        0 <= b,
        forall|x: int, y: int| -b <= #[trigger] f(x, y) <= b,
    ensures
        -(b * n * m) <= grid_sum(f, m, n) <= b * n * m,
    decreases m,
{
    if m > 0 {
        lemma_grid_bounded(f, m - 1, n, b);
        lemma_line_bounded(f, m - 1, n, b);
        assert(b * n * m == b * n * (m - 1) + b * n) by (nonlinear_arith);
    }
}

/// A partial sum of a grid whose entries lie within `b`, taken through
/// row `i` and `j` entries of row `i`, stays within `64 * b` on a board
/// that has at most 64 grid entries.
proof fn lemma_partial_bounded(f: spec_fn(int, int) -> int, m: int, n: int, b: int, i: int, j: int)
    requires
        0 <= b,
        0 <= i < m,
        0 <= j <= n,
        m * n <= 64,
        forall|x: int, y: int| -b <= #[trigger] f(x, y) <= b,
    ensures
        -64 * b <= grid_sum(f, i, n) + line_sum(f, i, j) <= 64 * b,
{
    lemma_grid_bounded(f, i, n, b);
    lemma_line_bounded(f, i, j, b);
    assert(b * n * i + b * j <= 64 * b) by (nonlinear_arith)
        requires
            0 <= b,
            0 <= i < m,
            0 <= j <= n,
            m * n <= 64,
    ;
}

/// Every sum of window values on a supported board stays well inside `i32`.
proof fn lemma_total_bounded(mine: u64, theirs: u64, rows: int, cols: int)
    requires
        dims(rows, cols),
    ensures
        -6_400_000 <= grid_sum(horizontal(mine, theirs, cols), rows, cols - 3) <= 6_400_000,
        -6_400_000 <= grid_sum(vertical(mine, theirs, cols), cols, rows - 3) <= 6_400_000,
        -12_800_000 <= grid_sum(diagonal(mine, theirs, cols), rows - 3, cols - 3) <= 12_800_000,
{
    lemma_value_bounded(mine, theirs, cols);
    let h = horizontal(mine, theirs, cols);
    let v = vertical(mine, theirs, cols);
    let g = diagonal(mine, theirs, cols);
    assert forall|x: int, y: int| -100_000 <= #[trigger] h(x, y) <= 100_000 by {
        assert(h(x, y) == window_value(mine, theirs, cols, x, y, 1));
    }
    assert forall|x: int, y: int| -100_000 <= #[trigger] v(x, y) <= 100_000 by {
        assert(v(x, y) == window_value(mine, theirs, cols, y, x, 0));
    }
    assert forall|x: int, y: int| -200_000 <= #[trigger] g(x, y) <= 200_000 by {
        assert(g(x, y) == window_value(mine, theirs, cols, x, y, 2) + window_value(mine, theirs, cols, x, y + 3, 3));
    }
    lemma_grid_bounded(h, rows, cols - 3, 100_000);
    lemma_grid_bounded(v, cols, rows - 3, 100_000);
    lemma_grid_bounded(g, rows - 3, cols - 3, 200_000);
    lemma_board_small(rows, cols);
    assert(100_000 * (cols - 3) * rows <= 6_400_000) by (nonlinear_arith)
        requires
            (cols - 3) * rows <= 64,
    ;
    assert(100_000 * (rows - 3) * cols <= 6_400_000) by (nonlinear_arith)
        requires
            (rows - 3) * cols <= 64,
    ;
    assert(200_000 * (cols - 3) * (rows - 3) <= 12_800_000) by (nonlinear_arith)
        requires
            (cols - 3) * (rows - 3) <= 64,
    ;
}

proof fn lemma_center_bounded(b: u64, cols: int, rows: int)
    requires
        0 <= rows,
    ensures
        0 <= center_count(b, cols, rows) <= rows,
    decreases rows,
{
    if rows > 0 {
        lemma_center_bounded(b, cols, rows - 1);
    }
}

/// A supported board has at most 16 rows and 16 columns, and each family
/// of windows fits in at most 64 starting points.
proof fn lemma_board_small(rows: int, cols: int)
    requires
        dims(rows, cols),
    ensures
        rows <= 16,
        cols <= 16,
        (cols - 3) * rows <= 64,
        rows * (cols - 3) <= 64,
        (rows - 3) * cols <= 64,
        cols * (rows - 3) <= 64,
        (cols - 3) * (rows - 3) <= 64,
        (rows - 3) * (cols - 3) <= 64,
{
    assert(rows <= 16 && cols <= 16) by (nonlinear_arith)
        requires
            4 <= rows,
            4 <= cols,
            rows * cols <= 64,
    ;
    assert((cols - 3) * rows <= 64 && rows * (cols - 3) <= 64 && (rows - 3) * cols <= 64 && cols * (rows - 3) <= 64
        && (cols - 3) * (rows - 3) <= 64 && (rows - 3) * (cols - 3) <= 64) by (nonlinear_arith)
        requires
            4 <= rows,
            4 <= cols,
            rows * cols <= 64,
    ;
}

/// A cell on an `rows x cols` board of at most 64 cells has an index below 64.
proof fn lemma_cell_small(rows: int, cols: int, row: int, col: int)
    requires
        0 <= row < rows,
        0 <= col < cols,
        rows * cols <= 64,
    ensures
        0 <= row * cols <= row * cols + col < 64,
{
    assert(0 <= row * cols <= row * cols + col < rows * cols) by (nonlinear_arith)
        requires
            0 <= row < rows,
            0 <= col < cols,
    ;
}

fn cell_held(b: u64, c: usize) -> (r: bool)
    requires
        c < 64,
    ensures
        r == holds(b, c as int),
{
    (b >> (c as u64)) & 1 == 1
}

fn weight_of(n: u32) -> (r: i32)
    requires
        n <= 4,
    ensures
        r == window_weight(n as int),
{
    if n == 1 {
        1
    } else if n == 2 {
        10
    } else if n == 3 {
        50
    } else if n == 4 {
        100_000
    } else {
        0
    }
}

/// Value of the window starting at `(row, col)` in direction `d`.
fn score_window<const R: usize, const C: usize>(mine: u64, theirs: u64, row: usize, col: usize, d: usize) -> (r: i32)
    requires
        dims(R as int, C as int),
        window_fits(R as int, C as int, row as int, col as int, d as int),
    ensures
        r == window_value(mine, theirs, C as int, row as int, col as int, d as int),
{
    let mut my_count: u32 = 0;
    let mut their_count: u32 = 0;
    let mut k: usize = 0;
    while k < 4
        invariant
            dims(R as int, C as int),
            window_fits(R as int, C as int, row as int, col as int, d as int),
            k <= 4,
            my_count == mine_in(mine, C as int, row as int, col as int, d as int, k as int),
            their_count == theirs_in(mine, theirs, C as int, row as int, col as int, d as int, k as int),
        decreases 4 - k,
    {
        proof {
            lemma_counts_bounded(mine, theirs, C as int, row as int, col as int, d as int, k as int);
        }
        let rr = if d == 1 {
            row
        } else {
            row + k
        };
        let cc = if d == 0 {
            col
        } else if d == 3 {
            col - k
        } else {
            col + k
        };
        proof {
            lemma_cell_small(R as int, C as int, rr as int, cc as int);
        }
        let c = rr * C + cc;
        assert(c as int == window_cell_at(C as int, row as int, col as int, d as int, k as int));
        if cell_held(mine, c) {
            my_count += 1;
        } else if cell_held(theirs, c) {
            their_count += 1;
        }
        k += 1;
    }
    proof {
        lemma_counts_bounded(mine, theirs, C as int, row as int, col as int, d as int, 4);
    }
    if my_count > 0 && their_count == 0 {
        weight_of(my_count)
    } else if my_count == 0 && their_count > 0 {
        -weight_of(their_count)
    } else {
        0
    }
}

/// Sum over every four-in-a-row window of an `R x C` board of its value
/// for `mine`.
pub fn window_score<const R: usize, const C: usize>(mine: u64, theirs: u64) -> (r: i32)
    requires
        dims(R as int, C as int),
    ensures
        r == windows_total(mine, theirs, R as int, C as int),
{
    let ghost h = horizontal(mine, theirs, C as int);
    let ghost v = vertical(mine, theirs, C as int);
    let ghost g = diagonal(mine, theirs, C as int);
    proof {
        lemma_total_bounded(mine, theirs, R as int, C as int);
        lemma_value_bounded(mine, theirs, C as int);
        assert forall|x: int, y: int| -100_000 <= #[trigger] h(x, y) <= 100_000 by {
            assert(h(x, y) == window_value(mine, theirs, C as int, x, y, 1));
        }
        assert forall|x: int, y: int| -100_000 <= #[trigger] v(x, y) <= 100_000 by {
            assert(v(x, y) == window_value(mine, theirs, C as int, y, x, 0));
        }
        assert forall|x: int, y: int| -200_000 <= #[trigger] g(x, y) <= 200_000 by {
            assert(g(x, y) == window_value(mine, theirs, C as int, x, y, 2) + window_value(mine, theirs, C as int, x, y + 3, 3));
        }
        lemma_board_small(R as int, C as int);
    }
    let mut score: i32 = 0;
    let mut row: usize = 0;
    while row < R
        invariant
            dims(R as int, C as int),
            h == horizontal(mine, theirs, C as int),
            forall|x: int, y: int| -100_000 <= #[trigger] h(x, y) <= 100_000,
            R * (C - 3) <= 64,
            row <= R,
            score == grid_sum(h, row as int, C - 3),
        decreases R - row,
    {
        let mut col: usize = 0;
        while col <= C - 4
            invariant
                dims(R as int, C as int),
                h == horizontal(mine, theirs, C as int),
                forall|x: int, y: int| -100_000 <= #[trigger] h(x, y) <= 100_000,
                R * (C - 3) <= 64,
                row < R,
                col <= C - 3,
                score == grid_sum(h, row as int, C - 3) + line_sum(h, row as int, col as int),
            decreases C - 3 - col,
        {
            proof {
                lemma_partial_bounded(h, R as int, C - 3, 100_000, row as int, col as int + 1);
            }
            let w = score_window::<R, C>(mine, theirs, row, col, 1);
            score = score + w;
            col += 1;
        }
        row += 1;
    }
    let ghost across = score;
    let mut col: usize = 0;
    while col < C
        invariant
            dims(R as int, C as int),
            v == vertical(mine, theirs, C as int),
            forall|x: int, y: int| -100_000 <= #[trigger] v(x, y) <= 100_000,
            C * (R - 3) <= 64,
            -6_400_000 <= across <= 6_400_000,
            col <= C,
            score == across + grid_sum(v, col as int, R - 3),
        decreases C - col,
    {
        let mut row: usize = 0;
        while row <= R - 4
            invariant
                dims(R as int, C as int),
                v == vertical(mine, theirs, C as int),
                forall|x: int, y: int| -100_000 <= #[trigger] v(x, y) <= 100_000,
                C * (R - 3) <= 64,
                -6_400_000 <= across <= 6_400_000,
                col < C,
                row <= R - 3,
                score == across + grid_sum(v, col as int, R - 3) + line_sum(v, col as int, row as int),
            decreases R - 3 - row,
        {
            proof {
                lemma_partial_bounded(v, C as int, R - 3, 100_000, col as int, row as int + 1);
            }
            let w = score_window::<R, C>(mine, theirs, row, col, 0);
            score = score + w;
            row += 1;
        }
        col += 1;
    }
    let ghost upward = score;
    let mut row: usize = 0;
    while row <= R - 4
        invariant
            dims(R as int, C as int),
            g == diagonal(mine, theirs, C as int),
            forall|x: int, y: int| -200_000 <= #[trigger] g(x, y) <= 200_000,
            (R - 3) * (C - 3) <= 64,
            -12_800_000 <= upward <= 12_800_000,
            row <= R - 3,
            score == upward + grid_sum(g, row as int, C - 3),
        decreases R - 3 - row,
    {
        let mut col: usize = 0;
        while col <= C - 4
            invariant
                dims(R as int, C as int),
                g == diagonal(mine, theirs, C as int),
                forall|x: int, y: int| -200_000 <= #[trigger] g(x, y) <= 200_000,
                (R - 3) * (C - 3) <= 64,
                -12_800_000 <= upward <= 12_800_000,
                row < R - 3,
                col <= C - 3,
                score == upward + grid_sum(g, row as int, C - 3) + line_sum(g, row as int, col as int),
            decreases C - 3 - col,
        {
            proof {
                lemma_partial_bounded(g, R - 3, C - 3, 200_000, row as int, col as int + 1);
            }
            let rising = score_window::<R, C>(mine, theirs, row, col, 2);
            let falling = score_window::<R, C>(mine, theirs, row, col + 3, 3);
            score = score + rising + falling;
            col += 1;
        }
        row += 1;
    }
    score
}

/// Center-column discs of `mine` less those of `theirs`, times the center
/// weight.
pub fn center_score<const R: usize, const C: usize>(mine: u64, theirs: u64) -> (r: i32)
    requires
        dims(R as int, C as int),
    ensures
        r == CENTER_WEIGHT * (center_count(mine, C as int, R as int) - center_count(theirs, C as int, R as int)),
{
    proof {
        lemma_board_small(R as int, C as int);
    }
    let center = C / 2;
    let mut mine_n: i32 = 0;
    let mut theirs_n: i32 = 0;
    let mut row: usize = 0;
    while row < R
        invariant
            dims(R as int, C as int),
            center == C / 2,
            R <= 16,
            row <= R,
            mine_n == center_count(mine, C as int, row as int),
            theirs_n == center_count(theirs, C as int, row as int),
        decreases R - row,
    {
        proof {
            lemma_center_bounded(mine, C as int, row as int);
            lemma_center_bounded(theirs, C as int, row as int);
            lemma_cell_small(R as int, C as int, row as int, center as int);
        }
        if cell_held(mine, row * C + center) {
            mine_n += 1;
        }
        if cell_held(theirs, row * C + center) {
            theirs_n += 1;
        }
        row += 1;
    }
    proof {
        lemma_center_bounded(mine, C as int, R as int);
        lemma_center_bounded(theirs, C as int, R as int);
    }
    CENTER_WEIGHT * (mine_n - theirs_n)
}

/// The position's value for Black (see [`black_value`]).
pub fn black_relative_value<const R: usize, const C: usize>(state: &State<R, C>) -> (r: i32)
    requires
        dims(R as int, C as int),
    ensures
        r == black_value(state.black_bits(), state.white_bits(), R as int, C as int),
{
    let black = state.black();
    let white = state.white();
    proof {
        lemma_board_small(R as int, C as int);
        lemma_total_bounded(black, white, R as int, C as int);
        lemma_center_bounded(black, C as int, R as int);
        lemma_center_bounded(white, C as int, R as int);
    }
    window_score::<R, C>(black, white) + center_score::<R, C>(black, white)
}

/// The value of `state` for its side to move, clamped to `[-limit, limit]`.
pub open spec fn evaluation<const R: usize, const C: usize>(state: State<R, C>, limit: int) -> int {
    let b = black_value(state.black_bits(), state.white_bits(), R as int, C as int);
    let v = if state.mover() == Player::Black {
        b
    } else {
        -b
    };
    if v < -limit {
        -limit
    } else if v > limit {
        limit
    } else {
        v
    }
}

/// Window scoring plus the center bonus, from the side to move's view.
#[derive(Clone, Copy, Default)]
pub struct Heuristic;

impl Heuristic {
    /// The value of `state` for its side to move, clamped to the search's
    /// evaluation range `[-limit, limit]` so it is never mistaken for a
    /// proven result.
    pub fn evaluate<const R: usize, const C: usize>(&self, state: &State<R, C>, limit: i32) -> (r: i32)
        requires
            dims(R as int, C as int),
            limit >= 0,
        ensures
            r == evaluation(*state, limit as int),
    {
        proof {
            lemma_board_small(R as int, C as int);
            lemma_total_bounded(state.black_bits(), state.white_bits(), R as int, C as int);
            lemma_center_bounded(state.black_bits(), C as int, R as int);
            lemma_center_bounded(state.white_bits(), C as int, R as int);
        }
        let black_relative = black_relative_value(state);
        let mover_relative = match state.turn() {
            Player::Black => black_relative,
            Player::White => -black_relative,
        };
        if mover_relative < -limit {
            -limit
        } else if mover_relative > limit {
            limit
        } else {
            mover_relative
        }
    }
}

} // verus!
