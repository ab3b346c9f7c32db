//! A static evaluation of a Breakthrough position, consulted at a search's
//! depth cutoff: material (piece count difference) plus advancement, each
//! piece counting the square of the rows it has travelled toward its goal.
//!
//! A position is given by two `u64` bitboards of an `N x M` board, cell
//! `row * M + col` in bit `row * M + col`; Black starts near row 0 and
//! advances toward row `N - 1`, White the other way.

use vstd::prelude::*;
use crate::bits::{bit, count_ones, lemma_bit_ops, lemma_single_bit, ones};

verus! {

/// Value of one piece, in the units of the advancement term.
pub const MATERIAL_WEIGHT: i32 = 100;

/// The two sides.
#[derive(Copy, Clone, Debug, PartialEq, Eq, Structural, Hash)]
pub enum Player {
    Black,
    White,
}

/// A piece's advancement value: the square of the rows it has travelled.
pub open spec fn advancement(progress: int) -> int {
    progress * progress
}

/// How far a piece on `row` has travelled: from row 0 for Black, from row
/// `n - 1` for White.
pub open spec fn progress(black: bool, n: int, row: int) -> int {
    if black {
        row
    } else {
        n - 1 - row
    }
}

/// Sum of the advancement values of the pieces among the first `k` cells
/// of an `n x m` board.
pub open spec fn advancement_total(pieces: u64, black: bool, n: int, m: int, k: int) -> int
    decreases k,
{
    if k <= 0 {
        0
    } else {
        advancement_total(pieces, black, n, m, k - 1) + if bit(pieces, (k - 1) as u64) {
            advancement(progress(black, n, (k - 1) / m))
        } else {
            0
        }
    }
}

/// The position's value from Black's side: material plus advancement.
pub open spec fn black_relative(black: u64, white: u64, n: int, m: int) -> int {
    MATERIAL_WEIGHT * (ones(black) - ones(white)) + advancement_total(black, true, n, m, n * m) - advancement_total(
        white,
        false,
        n,
        m,
        n * m,
    )
}

/// The value for the side to move, clamped to `[-limit, limit]`.
pub open spec fn evaluation(black: u64, white: u64, turn: Player, n: int, m: int, limit: int) -> int {
    let v = match turn {
        Player::Black => black_relative(black, white, n, m),
        Player::White => -black_relative(black, white, n, m),
    };
    if v < -limit {
        -limit
    } else if v > limit {
        limit
    } else {
        v
    }
}

proof fn lemma_total_bounded(pieces: u64, black: bool, n: int, m: int, k: int)
    requires
        1 <= m,
        1 <= n,
        n * m <= 64,
        0 <= k <= n * m,
    ensures
        0 <= advancement_total(pieces, black, n, m, k) <= 4096 * k,
    decreases k,
{
    if k > 0 {
        lemma_total_bounded(pieces, black, n, m, k - 1);
        let row = (k - 1) / m;
        assert(0 <= row < n) by (nonlinear_arith)
            requires
                0 <= k - 1 < n * m,
                m >= 1,
                row == (k - 1) / m,
        ;
        assert(n <= n * m) by (nonlinear_arith)
            requires
                m >= 1,
                n >= 1,
        ;
        let p = progress(black, n, row);
        assert(0 <= p < 64);
        assert(p * p <= 4096) by (nonlinear_arith)
            requires
                0 <= p < 64,
        ;
        assert(p * p >= 0) by (nonlinear_arith);
    }
}

/// The advancement term adds up over pieces: for two boards with no
/// piece in common, the advancement of their union is the sum of their
/// advancements, cell range by cell range.
pub proof fn lemma_advancement_additive(a: u64, b: u64, black: bool, n: int, m: int, k: int)
    requires
        a & b == 0u64,
        0 <= k <= 64,
    ensures
        advancement_total(a | b, black, n, m, k) == advancement_total(a, black, n, m, k) + advancement_total(
            b,
            black,
            n,
            m,
            k,
        ),
    decreases k,
{
    if k > 0 {
        lemma_advancement_additive(a, b, black, n, m, k - 1);
        lemma_bit_ops(a, b, (k - 1) as u64);
        lemma_bit_ops(a & b, a & b, (k - 1) as u64);
    }
}

/// A lone piece on cell `c` counts the square of the rows it has
/// travelled: `row` for Black, `n - 1 - row` for White, `row` being `c / m`.
pub proof fn lemma_advancement_single(c: u64, black: bool, n: int, m: int, k: int)
    requires
        c < 64,
        0 <= k <= 64,
    ensures
        advancement_total(1u64 << c, black, n, m, k) == if (c as int) < k {
            let row = c as int / m;
            let p = if black {
                row
            } else {
                n - 1 - row
            };
            p * p
        } else {
            0
        },
    decreases k,
{
    if k > 0 {
        lemma_advancement_single(c, black, n, m, k - 1);
        lemma_single_bit(c, (k - 1) as u64);
    }
}

/// Sum of the advancement values of `pieces`.
fn advancement_sum(pieces: u64, black: bool, n: usize, m: usize) -> (r: i32)
    requires
        1 <= m,
        1 <= n,
        n * m <= 64,
    ensures
        r == advancement_total(pieces, black, n as int, m as int, n * m),
{
    let cells = n * m;
    let mut total: i32 = 0;
    let mut k: usize = 0;
    while k < cells
        invariant
            1 <= m,
            1 <= n,
            cells == n * m,
            cells <= 64,
            k <= cells,
            total == advancement_total(pieces, black, n as int, m as int, k as int),
        decreases cells - k,
    {
        proof {
            lemma_total_bounded(pieces, black, n as int, m as int, k as int);
            lemma_total_bounded(pieces, black, n as int, m as int, k + 1);
        }
        if (pieces >> (k as u64)) & 1 == 1 {
            proof {
                assert(bit(pieces, k as u64)) by {
                    crate::bits::lemma_bit_ops(pieces, 0, k as u64);
                }
            }
            let row = k / m;
            assert(row < n) by (nonlinear_arith)
                requires
                    k < n * m,
                    m >= 1,
                    row == k / m,
            ;
            assert(n <= n * m) by (nonlinear_arith)
                requires
                    m >= 1,
                    n >= 1,
            ;
            let p = if black {
                row
            } else {
                n - 1 - row
            };
            assert(p * p <= 4096) by (nonlinear_arith)
                requires
                    p < 64,
            ;
            total = total + (p * p) as i32;
        } else {
            proof {
                assert(!bit(pieces, k as u64)) by {
                    crate::bits::lemma_bit_ops(pieces, 0, k as u64);
                }
            }
        }
        k += 1;
    }
    total
}

/// The static evaluation: material plus weighted advancement.
#[derive(Clone, Copy, Default, Debug)]
pub struct Heuristic;

impl Heuristic {
    /// The value of the position (`black`, `white`, `turn`) on an `N x M`
    /// board for the side to move, clamped to `[-limit, limit]` so it is
    /// never mistaken for a proven result.
    pub fn evaluate<const N: usize, const M: usize>(&self, black: u64, white: u64, turn: Player, limit: i32) -> (r: i32)
        requires
            1 <= N,
            1 <= M,
            N * M <= 64,
            limit >= 0,
        ensures
            r == evaluation(black, white, turn, N as int, M as int, limit as int),
    {
        proof {
            lemma_total_bounded(black, true, N as int, M as int, N * M);
            lemma_total_bounded(white, false, N as int, M as int, N * M);
            crate::bits::lemma_ones_below_bound(black, 64);
            crate::bits::lemma_ones_below_bound(white, 64);
        }
        let b = count_ones(black) as i32;
        let w = count_ones(white) as i32;
        let material = MATERIAL_WEIGHT * (b - w);
        let advancement = advancement_sum(black, true, N, M) - advancement_sum(white, false, N, M);
        let black_value = material + advancement;
        let mover_value = match turn {
            Player::Black => black_value,
            Player::White => -black_value,
        };
        if mover_value < -limit {
            -limit
        } else if mover_value > limit {
            limit
        } else {
            mover_value
        }
    }
}

} // verus!
