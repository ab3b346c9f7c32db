//! Connect Four on an `R x C` board held in two `u64` bitboards (cell
//! `row * C + col`, row 0 at the bottom): gravity, four-in-a-row, and the
//! board's one symmetry, the left-right mirror.

use vstd::prelude::*;
use crate::bits::{bit, lemma_bit_ops, lemma_bit_set, ones};
use crate::connect4::{Move, Player};

verus! {

/// The other side.
pub open spec fn opponent(p: Player) -> Player {
    match p {
        Player::Black => Player::White,
        Player::White => Player::Black,
    }
}

/// Boards the game supports: at least four rows and columns, at most 64
/// cells.
pub open spec fn dims(r: int, c: int) -> bool {
    4 <= r && 4 <= c && r * c <= 64
}

/// Cell `(row, col)` of a `C`-column board is set in `b`.
pub open spec fn at(b: u64, c: int, row: int, col: int) -> bool {
    bit(b, (row * c + col) as u64)
}

/// Row step of line direction `d`: up, right, up-right, up-left.
pub open spec fn line_dr(d: int) -> int {
    if d == 1 {
        0
    } else {
        1
    }
}

/// Column step of line direction `d`.
pub open spec fn line_dc(d: int) -> int {
    if d == 0 {
        0
    } else if d == 3 {
        -1
    } else {
        1
    }
}

/// `(row, col)` is on an `r x c` board.
pub open spec fn inside(r: int, c: int, row: int, col: int) -> bool {
    0 <= row < r && 0 <= col < c
}

/// The `k`-th cell of the line from `(row, col)` in direction `d` is on
/// the board and set in `b`.
pub open spec fn line_ok(b: u64, r: int, c: int, row: int, col: int, d: int, k: int) -> bool {
    let rr = row + if line_dr(d) == 1 {
        k
    } else {
        0
    };
    let cc = col + if line_dc(d) == 1 {
        k
    } else if line_dc(d) == -1 {
        -k
    } else {
        0
    };
    inside(r, c, rr, cc) && at(b, c, rr, cc)
}

/// Four cells of `b` in a line from `(row, col)` in direction `d`.
pub open spec fn four_from(b: u64, r: int, c: int, row: int, col: int, d: int) -> bool {
    &&& 0 <= d < 4
    &&& line_ok(b, r, c, row, col, d, 0)
    &&& line_ok(b, r, c, row, col, d, 1)
    &&& line_ok(b, r, c, row, col, d, 2)
    &&& line_ok(b, r, c, row, col, d, 3)
}

/// `b` holds four in a row somewhere.
pub open spec fn four_in_a_row(b: u64, r: int, c: int) -> bool {
    exists|row: int, col: int, d: int| #[trigger] four_from(b, r, c, row, col, d)
}

/// Number of discs stacked contiguously in column `col` from row `row` up.
pub open spec fn run_from(occ: u64, r: int, c: int, col: int, row: int) -> int
    decreases r - row,
{
    if row < 0 || row >= r || !at(occ, c, row, col) {
        0
    } else {
        1 + run_from(occ, r, c, col, row + 1)
    }
}

/// Number of discs stacked in column `col`: how far up it is occupied.
pub open spec fn height(occ: u64, r: int, c: int, col: int) -> int {
    run_from(occ, r, c, col, 0)
}

/// No bit at or past cell `r * c` is set.
pub open spec fn on_board(b: u64, r: int, c: int) -> bool {
    forall|i: int| r * c <= i < 64 ==> !#[trigger] bit(b, i as u64)
}

/// The open columns below `n`, in order, as moves.
pub open spec fn open_columns(occ: u64, r: int, c: int, n: int) -> Seq<Move>
    decreases n,
{
    if n <= 0 {
        Seq::empty()
    } else {
        open_columns(occ, r, c, n - 1) + if height(occ, r, c, n - 1) < r {
            seq![Move((n - 1) as u8)]
        } else {
            Seq::empty()
        }
    }
}

proof fn lemma_dims_small(r: int, c: int)
    requires
        dims(r, c),
    ensures
        r <= 16,
        c <= 16,
{
    assert(r <= 16 && c <= 16) by (nonlinear_arith)
        requires
            4 <= r,
            4 <= c,
            r * c <= 64,
    ;
}

proof fn lemma_cell_index(r: int, c: int, row: int, col: int)
    requires
        dims(r, c),
        inside(r, c, row, col),
    ensures
        0 <= row * c + col < r * c,
        r * c <= 64,
{
    assert(row * c + col < r * c) by (nonlinear_arith)
        requires
            0 <= row < r,
            0 <= col < c,
    ;
    assert(row * c >= 0) by (nonlinear_arith)
        requires
            row >= 0,
            c >= 0,
    ;
}

/// Whether cell `(row, col)` is set.
fn at_exec(b: u64, r: usize, c: usize, row: usize, col: usize) -> (x: bool)
    requires
        dims(r as int, c as int),
        inside(r as int, c as int, row as int, col as int),
    ensures
        x == at(b, c as int, row as int, col as int),
{
    proof {
        lemma_cell_index(r as int, c as int, row as int, col as int);
    }
    let i = row * c + col;
    proof {
        lemma_bit_ops(b, 0, i as u64);
    }
    (b >> (i as u64)) & 1 == 1
}

/// Whether the `k`-th cell of the line from `(row, col)` in direction `d`
/// is on the board and set.
fn line_ok_exec(b: u64, r: usize, c: usize, row: usize, col: usize, d: usize, k: usize) -> (x: bool)
    requires
        dims(r as int, c as int),
        inside(r as int, c as int, row as int, col as int),
        d < 4,
        k < 4,
    ensures
        x == line_ok(b, r as int, c as int, row as int, col as int, d as int, k as int),
{
    proof {
        lemma_dims_small(r as int, c as int);
    }
    let rr = if d == 1 {
        row
    } else {
        row + k
    };
    if rr >= r {
        return false;
    }
    let cc = if d == 0 {
        col
    } else if d == 3 {
        if col < k {
            return false;
        }
        col - k
    } else {
        if col + k >= c {
            return false;
        }
        col + k
    };
    at_exec(b, r, c, rr, cc)
}

/// Whether four cells in a line start at `(row, col)` in direction `d`.
fn four_from_exec(b: u64, r: usize, c: usize, row: usize, col: usize, d: usize) -> (x: bool)
    requires
        dims(r as int, c as int),
        inside(r as int, c as int, row as int, col as int),
        d < 4,
    ensures
        x == four_from(b, r as int, c as int, row as int, col as int, d as int),
{
    line_ok_exec(b, r, c, row, col, d, 0) && line_ok_exec(b, r, c, row, col, d, 1) && line_ok_exec(b, r, c, row, col, d, 2)
        && line_ok_exec(b, r, c, row, col, d, 3)
}

/// Whether `b` holds four in a row.
pub fn has_four_in_a_row(b: u64, r: usize, c: usize) -> (x: bool)
    requires
        dims(r as int, c as int),
    ensures
        x == four_in_a_row(b, r as int, c as int),
{
    let mut row: usize = 0;
    while row < r
        invariant
            dims(r as int, c as int),
            row <= r,
            forall|rr: int, cc: int, d: int| rr < row ==> !#[trigger] four_from(b, r as int, c as int, rr, cc, d),
        decreases r - row,
    {
        let mut col: usize = 0;
        while col < c
            invariant
                dims(r as int, c as int),
                row < r,
                col <= c,
                forall|rr: int, cc: int, d: int| rr < row ==> !#[trigger] four_from(b, r as int, c as int, rr, cc, d),
                forall|cc: int, d: int| cc < col ==> !#[trigger] four_from(b, r as int, c as int, row as int, cc, d),
            decreases c - col,
        {
            let mut d: usize = 0;
            while d < 4
                invariant
                    dims(r as int, c as int),
                    row < r,
                    col < c,
                    d <= 4,
                    forall|rr: int, cc: int, e: int| rr < row ==> !#[trigger] four_from(b, r as int, c as int, rr, cc, e),
                    forall|cc: int, e: int| cc < col ==> !#[trigger] four_from(b, r as int, c as int, row as int, cc, e),
                    forall|e: int| e < d ==> !#[trigger] four_from(b, r as int, c as int, row as int, col as int, e),
                decreases 4 - d,
            {
                if four_from_exec(b, r, c, row, col, d) {
                    return true;
                }
                d += 1;
            }
            col += 1;
        }
        row += 1;
    }
    proof {
        assert forall|rr: int, cc: int, d: int| !#[trigger] four_from(b, r as int, c as int, rr, cc, d) by {
            if rr >= row && four_from(b, r as int, c as int, rr, cc, d) {
                assert(!inside(r as int, c as int, rr, cc));
            }
        }
    }
    false
}

/// The first empty cell of a column lies at its height.
proof fn lemma_run_stops(occ: u64, r: int, c: int, col: int, row: int)
    requires
        0 <= row <= r,
        row + run_from(occ, r, c, col, row) < r,
    ensures
        !at(occ, c, row + run_from(occ, r, c, col, row), col),
        forall|k: int| row <= k < row + run_from(occ, r, c, col, row) ==> #[trigger] at(occ, c, k, col),
    decreases r - row,
{
    if row < r && at(occ, c, row, col) {
        lemma_run_stops(occ, r, c, col, row + 1);
    }
}

/// A Connect Four position: Black's and White's discs, the side to move
/// (the winner once the game is won) and whether it has been won.
#[derive(Clone, Copy, Debug, PartialEq, Eq, Hash)]
pub struct State<const R: usize, const C: usize> {
    black: u64,
    white: u64,
    turn: Player,
    winner: bool,
}

impl<const R: usize, const C: usize> State<R, C> {
    /// Black's discs.
    pub closed spec fn black_bits(&self) -> u64 {
        self.black
    }

    /// White's discs.
    pub closed spec fn white_bits(&self) -> u64 {
        self.white
    }

    /// The side to move, or the winner once the game is won.
    pub closed spec fn mover(&self) -> Player {
        self.turn
    }

    /// Whether the game has been won.
    pub closed spec fn won(&self) -> bool {
        self.winner
    }

    /// All discs.
    pub open spec fn occupied(&self) -> u64 {
        self.black_bits() | self.white_bits()
    }

    /// The discs of `p`.
    pub open spec fn discs(&self, p: Player) -> u64 {
        match p {
            Player::Black => self.black_bits(),
            Player::White => self.white_bits(),
        }
    }

    /// A supported board whose discs lie on it and never share a cell.
    pub open spec fn wf(&self) -> bool {
        &&& dims(R as int, C as int)
        &&& on_board(self.black_bits(), R as int, C as int)
        &&& on_board(self.white_bits(), R as int, C as int)
        &&& forall|i: u64| i < 64 ==> !(#[trigger] bit(self.black_bits(), i) && bit(self.white_bits(), i))
    }

    /// Black's discs.
    pub fn black(&self) -> (b: u64)
        ensures
            b == self.black_bits(),
    {
        self.black
    }

    /// White's discs.
    pub fn white(&self) -> (b: u64)
        ensures
            b == self.white_bits(),
    {
        self.white
    }

    /// The side to move, or the winner once the game is won.
    pub fn turn(&self) -> (p: Player)
        ensures
            p == self.mover(),
    {
        self.turn
    }

    /// Whether the game has been won.
    pub fn has_winner(&self) -> (b: bool)
        ensures
            b == self.won(),
    {
        self.winner
    }

    /// A position from its discs, side to move and result flag.
    pub fn from_parts(black: u64, white: u64, turn: Player, winner: bool) -> (s: Self)
        ensures
            s.black_bits() == black,
            s.white_bits() == white,
            s.mover() == turn,
            s.won() == winner,
    {
        State { black, white, turn, winner }
    }

    /// Number of discs in column `col`.
    pub fn height(&self, col: usize) -> (h: usize)
        requires
            dims(R as int, C as int),
            col < C,
        ensures
            h == height(self.occupied(), R as int, C as int, col as int),
            h <= R,
    {
        let occ = self.black | self.white;
        let mut row: usize = 0;
        while row < R && at_exec(occ, R, C, row, col)
            invariant
                dims(R as int, C as int),
                col < C,
                occ == self.occupied(),
                row <= R,
                height(occ, R as int, C as int, col as int) == row + run_from(occ, R as int, C as int, col as int, row as int),
            decreases R - row,
        {
            row += 1;
        }
        row
    }

    /// Every cell is occupied.
    fn is_full(&self) -> (b: bool)
        requires
            dims(R as int, C as int),
        ensures
            b == (ones(self.occupied()) == R * C),
    {
        crate::bits::count_ones(self.black | self.white) as usize == R * C
    }

    /// Appends a drop into every column with room, unless the game is won.
    fn moves(&self, actions: &mut Vec<Move>)
        requires
            dims(R as int, C as int),
        ensures
            final(actions)@ == if self.won() {
                old(actions)@
            } else {
                old(actions)@ + open_columns(self.occupied(), R as int, C as int, C as int)
            },
    {
        if self.winner {
            return;
        }
        let ghost base = actions@;
        let mut col: usize = 0;
        while col < C
            invariant
                dims(R as int, C as int),
                col <= C,
                actions@ == base + open_columns(self.occupied(), R as int, C as int, col as int),
            decreases C - col,
        {
            if self.height(col) < R {
                actions.push(Move(col as u8));
            }
            proof {
                assert(open_columns(self.occupied(), R as int, C as int, col + 1) == open_columns(
                    self.occupied(),
                    R as int,
                    C as int,
                    col as int,
                ) + if height(self.occupied(), R as int, C as int, col as int) < R {
                    seq![Move(col as u8)]
                } else {
                    Seq::empty()
                });
            }
            col += 1;
        }
    }

    /// Drops a disc of the side to move into `action`'s column; four in a
    /// row wins and keeps the turn, anything else passes it.
    fn apply(&mut self, action: &Move)
        requires
            old(self).wf(),
            action.0 < C,
            height(old(self).occupied(), R as int, C as int, action.0 as int) < R,
        ensures
            final(self).wf(),
            ({
                let col = action.0 as int;
                let idx = height(old(self).occupied(), R as int, C as int, col) * C + col;
                let mover = old(self).mover();
                let placed = old(self).discs(mover) | (1u64 << (idx as u64));
                &&& 0 <= idx < R * C
                &&& final(self).discs(mover) == placed
                &&& final(self).discs(opponent(mover)) == old(self).discs(opponent(mover))
                &&& final(self).won() == (old(self).won() || four_in_a_row(placed, R as int, C as int))
                &&& final(self).mover() == if four_in_a_row(placed, R as int, C as int) {
                    mover
                } else {
                    opponent(mover)
                }
            }),
    {
        let col = action.0 as usize;
        let row = self.height(col);
        proof {
            lemma_run_stops(self.occupied(), R as int, C as int, col as int, 0);
            lemma_cell_index(R as int, C as int, row as int, col as int);
        }
        let index = row * C + col;
        let ghost before = *self;
        let player = match self.turn {
            Player::Black => self.black,
            Player::White => self.white,
        } | (1u64 << (index as u64));
        match self.turn {
            Player::Black => self.black = player,
            Player::White => self.white = player,
        }
        proof {
            assert(!bit(before.occupied(), index as u64));
            assert forall|i: u64| i < 64 implies #[trigger] bit(player, i) == (i == index || bit(before.discs(before.mover()), i)) by {
                lemma_bit_set(before.discs(before.mover()), index as u64, i);
            }
            assert forall|i: u64| i < 64 implies !(#[trigger] bit(before.occupied(), i)) == (!bit(before.black_bits(), i) && !bit(
                before.white_bits(),
                i,
            )) by {
                lemma_bit_ops(before.black_bits(), before.white_bits(), i);
            }
        }
        if has_four_in_a_row(player, R, C) {
            self.winner = true;
        } else {
            self.turn = self.turn.next();
            proof {
                assert(self.turn == opponent(before.mover()));
            }
        }
    }
}

impl<const R: usize, const C: usize> Default for State<R, C> {
    /// The empty board, Black to move.
    fn default() -> (s: Self)
        ensures
            s.black_bits() == 0,
            s.white_bits() == 0,
            s.mover() == Player::Black,
            !s.won(),
    {
        State { black: 0, white: 0, turn: Player::Black, winner: false }
    }
}

/// The game of Connect Four on an `R x C` board.
pub struct Connect4<const R: usize, const C: usize>;

impl<const R: usize, const C: usize> Connect4<R, C> {
    /// The position after dropping a disc into `action`'s column.
    pub fn apply(state: State<R, C>, action: &Move) -> (r: State<R, C>)
        requires
            state.wf(),
            action.0 < C,
            height(state.occupied(), R as int, C as int, action.0 as int) < R,
        ensures
            r.wf(),
            ({
                let col = action.0 as int;
                let idx = height(state.occupied(), R as int, C as int, col) * C + col;
                let mover = state.mover();
                let placed = state.discs(mover) | (1u64 << (idx as u64));
                &&& 0 <= idx < R * C
                &&& r.discs(mover) == placed
                &&& r.discs(opponent(mover)) == state.discs(opponent(mover))
                &&& r.won() == (state.won() || four_in_a_row(placed, R as int, C as int))
                &&& r.mover() == if four_in_a_row(placed, R as int, C as int) {
                    mover
                } else {
                    opponent(mover)
                }
            }),
    {
        let mut state = state;
        state.apply(action);
        state
    }

    /// Appends a drop into every column with room, unless the game is won.
    pub fn generate_actions(state: &State<R, C>, actions: &mut Vec<Move>)
        requires
            dims(R as int, C as int),
        ensures
            final(actions)@ == if state.won() {
                old(actions)@
            } else {
                old(actions)@ + open_columns(state.occupied(), R as int, C as int, C as int)
            },
    {
        state.moves(actions)
    }

    /// The game is over once won or once the board is full.
    pub fn is_terminal(state: &State<R, C>) -> (b: bool)
        requires
            dims(R as int, C as int),
        ensures
            b == (state.won() || ones(state.occupied()) == R * C),
    {
        state.has_winner() || state.is_full()
    }

    /// The side to move.
    pub fn player_to_move(state: &State<R, C>) -> (p: Player)
        ensures
            p == state.mover(),
    {
        state.turn()
    }

    /// The winner, once the game is won.
    pub fn winner(state: &State<R, C>) -> (w: Option<Player>)
        ensures
            w == if state.won() {
                Some(state.mover())
            } else {
                None
            },
    {
        if state.has_winner() {
            Some(state.turn())
        } else {
            None
        }
    }

    /// Two players.
    pub fn num_players() -> (n: usize)
        ensures
            n == 2,
    {
        2
    }
}

/// The cell a mirrored board's cell `k` takes its disc from: same row,
/// column `c - 1 - col`.
pub open spec fn mirror_source(c: int, k: int) -> int {
    (k / c) * c + (c - 1 - k % c)
}

/// The first `n` cells of the mirror image of `b`.
pub open spec fn mirror_upto(b: u64, c: int, n: int) -> u64
    decreases n,
{
    if n <= 0 {
        0
    } else if bit(b, mirror_source(c, n - 1) as u64) {
        mirror_upto(b, c, n - 1) | (1u64 << ((n - 1) as u64))
    } else {
        mirror_upto(b, c, n - 1)
    }
}

/// The mirror image of `b` on an `r x c` board: column `col` goes to
/// column `c - 1 - col`.
pub open spec fn mirror_of(b: u64, r: int, c: int) -> u64 {
    mirror_upto(b, c, r * c)
}

proof fn lemma_mirror_upto_bits(b: u64, r: int, c: int, n: int)
    requires
        dims(r, c),
        0 <= n <= r * c,
    ensures
        forall|i: u64| i < 64 ==> #[trigger] bit(mirror_upto(b, c, n), i) == ((i as int) < n && bit(b, mirror_source(c, i as int) as u64)),
    decreases n,
{
    if n > 0 {
        lemma_mirror_upto_bits(b, r, c, n - 1);
        assert forall|i: u64| i < 64 implies #[trigger] bit(mirror_upto(b, c, n), i) == ((i as int) < n && bit(
            b,
            mirror_source(c, i as int) as u64,
        )) by {
            let prev = mirror_upto(b, c, n - 1);
            if bit(b, mirror_source(c, n - 1) as u64) {
                lemma_bit_set(prev, (n - 1) as u64, i);
            }
        }
    } else {
        assert forall|i: u64| i < 64 implies !#[trigger] bit(0u64, i) by {
            lemma_bit_ops(0u64, 0u64, i);
        }
    }
}

/// Splitting a cell index into its row and column.
proof fn lemma_row_col(c: int, row: int, col: int)
    requires
        c > 0,
        0 <= col < c,
    ensures
        (row * c + col) / c == row,
        (row * c + col) % c == col,
{
    vstd::arithmetic::div_mod::lemma_fundamental_div_mod_converse_div(row * c + col, c, row, col);
    vstd::arithmetic::div_mod::lemma_fundamental_div_mod_converse_mod(row * c + col, c, row, col);
}

/// The mirror image lies on the board and holds, in each cell, the disc of
/// the cell reflected across the middle column.
pub proof fn lemma_mirror_cells(b: u64, r: int, c: int)
    requires
        dims(r, c),
    ensures
        on_board(mirror_of(b, r, c), r, c),
        forall|row: int, col: int|
            inside(r, c, row, col) ==> #[trigger] at(mirror_of(b, r, c), c, row, col) == at(b, c, row, c - 1 - col),
{
    lemma_mirror_upto_bits(b, r, c, r * c);
    assert forall|i: int| r * c <= i < 64 implies !#[trigger] bit(mirror_of(b, r, c), i as u64) by {}
    assert forall|row: int, col: int| inside(r, c, row, col) implies #[trigger] at(mirror_of(b, r, c), c, row, col) == at(
        b,
        c,
        row,
        c - 1 - col,
    ) by {
        lemma_cell_index(r, c, row, col);
        lemma_row_col(c, row, col);
        assert(mirror_source(c, row * c + col) == row * c + (c - 1 - col));
    }
}

/// Mirroring twice gives back every board that lies on the board.
pub proof fn lemma_mirror_twice(b: u64, r: int, c: int)
    requires
        dims(r, c),
        on_board(b, r, c),
    ensures
        mirror_of(mirror_of(b, r, c), r, c) == b,
{
    let m = mirror_of(b, r, c);
    let mm = mirror_of(m, r, c);
    lemma_mirror_cells(b, r, c);
    lemma_mirror_cells(m, r, c);
    assert forall|i: u64| i < 64 implies #[trigger] bit(mm, i) == bit(b, i) by {
        if (i as int) < r * c {
            let row = (i as int) / c;
            let col = (i as int) % c;
            vstd::arithmetic::div_mod::lemma_fundamental_div_mod(i as int, c);
            assert(i as int == row * c + col) by (nonlinear_arith)
                requires
                    i as int == c * row + col,
            ;
            assert(0 <= row < r) by (nonlinear_arith)
                requires
                    0 <= i < r * c,
                    c > 0,
                    row == (i as int) / c,
            ;
            assert(inside(r, c, row, col));
            assert(inside(r, c, row, c - 1 - col));
            assert(at(mm, c, row, col) == at(m, c, row, c - 1 - col));
            assert(at(m, c, row, c - 1 - col) == at(b, c, row, c - 1 - (c - 1 - col)));
        } else {
            let j = i as int;
            assert(r * c <= j < 64);
            assert(!bit(mm, j as u64));
            assert(!bit(b, j as u64));
        }
    }
    crate::bits::lemma_bits_ext(mm, b);
}

/// The mirror image of `b`.
pub fn mirror_board<const R: usize, const C: usize>(b: u64) -> (m: u64)
    requires
        dims(R as int, C as int),
    ensures
        m == mirror_of(b, R as int, C as int),
{
    proof {
        lemma_dims_small(R as int, C as int);
    }
    let cells = R * C;
    let mut m: u64 = 0;
    let mut k: usize = 0;
    while k < cells
        invariant
            dims(R as int, C as int),
            cells == R * C,
            cells <= 64,
            k <= cells,
            m == mirror_upto(b, C as int, k as int),
        decreases cells - k,
    {
        let row = k / C;
        let col = k % C;
        proof {
            vstd::arithmetic::div_mod::lemma_fundamental_div_mod(k as int, C as int);
            assert(row < R) by (nonlinear_arith)
                requires
                    k as int == C * row + col,
                    0 <= col,
                    k < cells,
                    cells == R * C,
                    C > 0,
            ;
            assert(row * C + (C - 1 - col) < 64) by (nonlinear_arith)
                requires
                    row < R,
                    0 <= col < C,
                    R * C <= 64,
            ;
        }
        let src = row * C + (C - 1 - col);
        proof {
            lemma_bit_ops(b, 0, src as u64);
        }
        if (b >> (src as u64)) & 1 == 1 {
            m = m | (1u64 << (k as u64));
        }
        k += 1;
    }
    m
}

/// `a` comes before `b` in the order of (Black's discs, White's discs).
pub open spec fn key_less(a: (u64, u64), b: (u64, u64)) -> bool {
    a.0 < b.0 || (a.0 == b.0 && a.1 < b.1)
}

/// The canonical image of a position's discs: the smaller of the position
/// and its mirror image, the position itself on a tie.
pub open spec fn canonical_image(black: u64, white: u64, r: int, c: int) -> (u64, u64) {
    let m = (mirror_of(black, r, c), mirror_of(white, r, c));
    if key_less(m, (black, white)) {
        m
    } else {
        (black, white)
    }
}

/// The column a symmetry (0 the identity, 1 the mirror) sends `col` to.
pub open spec fn mirror_col(c: int, col: int, sym: int) -> int {
    if sym == 1 {
        c - 1 - col
    } else {
        col
    }
}

/// The symmetry (0 the identity, 1 the mirror) whose image of the discs is
/// smallest, the identity on a tie.
pub fn canonical_symmetry<const R: usize, const C: usize>(black: u64, white: u64) -> (sym: usize)
    requires
        dims(R as int, C as int),
    ensures
        sym == if key_less((mirror_of(black, R as int, C as int), mirror_of(white, R as int, C as int)), (black, white)) {
            1usize
        } else {
            0usize
        },
{
    let mb = mirror_board::<R, C>(black);
    let mw = mirror_board::<R, C>(white);
    if mb < black || (mb == black && mw < white) {
        1
    } else {
        0
    }
}

impl<const R: usize, const C: usize> Connect4<R, C> {
    /// The position in its canonical orientation, and the symmetry that
    /// takes the position there.
    pub fn canonical_representation(state: State<R, C>) -> (r: (State<R, C>, usize))
        requires
            dims(R as int, C as int),
        ensures
            (r.0.black_bits(), r.0.white_bits()) == canonical_image(state.black_bits(), state.white_bits(), R as int, C as int),
            r.0.mover() == state.mover(),
            r.0.won() == state.won(),
            r.1 == if key_less(
                (mirror_of(state.black_bits(), R as int, C as int), mirror_of(state.white_bits(), R as int, C as int)),
                (state.black_bits(), state.white_bits()),
            ) {
                1usize
            } else {
                0usize
            },
    {
        let sym = canonical_symmetry::<R, C>(state.black(), state.white());
        if sym == 1 {
            let b = mirror_board::<R, C>(state.black());
            let w = mirror_board::<R, C>(state.white());
            (State::from_parts(b, w, state.turn(), state.has_winner()), 1)
        } else {
            (State::from_parts(state.black(), state.white(), state.turn(), state.has_winner()), 0)
        }
    }

    /// The drop a symmetry makes of `action`.
    pub fn apply_to_action(action: Move, sym: usize) -> (m: Move)
        requires
            action.0 < C,
            C <= 64,
        ensures
            m.0 == mirror_col(C as int, action.0 as int, sym as int),
    {
        if sym == 1 {
            Move((C - 1 - action.0 as usize) as u8)
        } else {
            action
        }
    }

    /// The drop that a symmetry sends onto `action`.
    pub fn invert_action(action: Move, sym: usize) -> (m: Move)
        requires
            action.0 < C,
            C <= 64,
        ensures
            m.0 == mirror_col(C as int, action.0 as int, sym as int),
    {
        if sym == 1 {
            Move((C - 1 - action.0 as usize) as u8)
        } else {
            action
        }
    }
}

/// Inverting a symmetry's image of a drop gives the drop back.
pub proof fn lemma_action_round_trip(c: int, col: int, sym: int)
    requires
        0 <= col < c,
    ensures
        mirror_col(c, mirror_col(c, col, sym), sym) == col,
        0 <= mirror_col(c, col, sym) < c,
{
}

/// A position and its mirror image have the same canonical image.
pub proof fn lemma_canonical_invariant(black: u64, white: u64, r: int, c: int)
    requires
        dims(r, c),
        on_board(black, r, c),
        on_board(white, r, c),
    ensures
        canonical_image(mirror_of(black, r, c), mirror_of(white, r, c), r, c) == canonical_image(black, white, r, c),
{
    lemma_mirror_twice(black, r, c);
    lemma_mirror_twice(white, r, c);
}


/// Connect Four on the standard board under the strict negamax turn
/// convention: every rule is the standard one, but at a won position the
/// side reported to move is the loser, so that "to move with the opponent
/// already connected" reads as a loss.
pub struct Connect4Negamax;

impl Connect4Negamax {
    /// The standard rules' position after dropping into `action`'s column.
    pub fn apply(state: State<6, 7>, action: &Move) -> (r: State<6, 7>)
        requires
            state.wf(),
            action.0 < 7,
            height(state.occupied(), 6, 7, action.0 as int) < 6,
        ensures
            r.wf(),
            ({
                let col = action.0 as int;
                let idx = height(state.occupied(), 6, 7, col) * 7 + col;
                let mover = state.mover();
                let placed = state.discs(mover) | (1u64 << (idx as u64));
                &&& 0 <= idx < 42
                &&& r.discs(mover) == placed
                &&& r.discs(opponent(mover)) == state.discs(opponent(mover))
                &&& r.won() == (state.won() || four_in_a_row(placed, 6, 7))
                &&& r.mover() == if four_in_a_row(placed, 6, 7) {
                    mover
                } else {
                    opponent(mover)
                }
            }),
    {
        Connect4::<6, 7>::apply(state, action)
    }

    /// The standard rules' drops.
    pub fn generate_actions(state: &State<6, 7>, actions: &mut Vec<Move>)
        ensures
            final(actions)@ == if state.won() {
                old(actions)@
            } else {
                old(actions)@ + open_columns(state.occupied(), 6, 7, 7)
            },
    {
        Connect4::<6, 7>::generate_actions(state, actions)
    }

    /// Over once won or once the board is full.
    pub fn is_terminal(state: &State<6, 7>) -> (b: bool)
        ensures
            b == (state.won() || ones(state.occupied()) == 42),
    {
        Connect4::<6, 7>::is_terminal(state)
    }

    /// The winner, once the game is won.
    pub fn winner(state: &State<6, 7>) -> (w: Option<Player>)
        ensures
            w == if state.won() {
                Some(state.mover())
            } else {
                None
            },
    {
        Connect4::<6, 7>::winner(state)
    }

    /// The side to move; at a won position, the loser.
    pub fn player_to_move(state: &State<6, 7>) -> (p: Player)
        ensures
            p == if state.won() {
                opponent(state.mover())
            } else {
                state.mover()
            },
    {
        let mover = state.turn();
        if state.has_winner() {
            mover.next()
        } else {
            mover
        }
    }
}

} // verus!
