//! Congo, a 7x7 chess variant by Demian Freeling: each side has a Lion,
//! two Elephants, a Zebra, a Giraffe, a Crocodile, a Monkey and seven
//! Pawns; a river runs along the middle rank and drowns pieces that stay in
//! it for two turns. Capturing the enemy Lion wins, and a side with no
//! legal move loses.
//!
//! Squares are numbered row-major from Black's home rank: square `r * 7 + c`
//! is row `r`, column `c`.

pub mod state;
pub mod moves;
pub mod game;

use vstd::prelude::*;

verus! {

/// Width and height of the board.
pub const SIZE: usize = 7;

/// Number of squares.
pub const NUM_SQUARES: usize = 49;

/// The river's row.
pub const RIVER_ROW: i32 = 3;

/// Most pieces one move can capture.
pub const MAX_CAPTURES: usize = 16;

/// The two sides; Black starts on row 0 and moves first.
#[derive(Copy, Clone, Debug, PartialEq, Eq, Structural, Hash)]
pub enum Player {
    Black,
    White,
}

/// The other side.
pub open spec fn opponent(p: Player) -> Player {
    match p {
        Player::Black => Player::White,
        Player::White => Player::Black,
    }
}

impl Player {
    /// The other side.
    pub fn next(self) -> (r: Player)
        ensures
            r == opponent(self),
    {
        match self {
            Player::Black => Player::White,
            Player::White => Player::Black,
        }
    }
}

impl Default for Player {
    /// Black, who moves first.
    fn default() -> (r: Player)
        ensures
            r == Player::Black,
    {
        Player::Black
    }
}

/// The kinds of piece.
#[derive(Copy, Clone, Debug, PartialEq, Eq, Structural, Hash)]
pub enum Piece {
    Giraffe,
    Monkey,
    Elephant,
    Lion,
    Crocodile,
    Zebra,
    Pawn,
    Superpawn,
}

impl Piece {
    /// The piece's letter in board diagrams (lower case).
    pub fn label(self) -> (r: char)
        ensures
            r == piece_label(self),
    {
        match self {
            Piece::Giraffe => 'g',
            Piece::Monkey => 'm',
            Piece::Elephant => 'e',
            Piece::Lion => 'l',
            Piece::Crocodile => 'c',
            Piece::Zebra => 'z',
            Piece::Pawn => 'p',
            Piece::Superpawn => 's',
        }
    }
}

/// A piece's letter in board diagrams.
pub open spec fn piece_label(p: Piece) -> char {
    match p {
        Piece::Giraffe => 'g',
        Piece::Monkey => 'm',
        Piece::Elephant => 'e',
        Piece::Lion => 'l',
        Piece::Crocodile => 'c',
        Piece::Zebra => 'z',
        Piece::Pawn => 'p',
        Piece::Superpawn => 's',
    }
}

/// What a square holds: a piece and its owner, or nothing.
pub type Cell = Option<(Player, Piece)>;

/// The owner of the piece in a cell (arbitrary for an empty one).
pub open spec fn owner(c: Cell) -> Player {
    match c {
        Some((p, _)) => p,
        None => Player::Black,
    }
}

/// The piece in a cell (arbitrary for an empty one).
pub open spec fn kind(c: Cell) -> Piece {
    match c {
        Some((_, k)) => k,
        None => Piece::Pawn,
    }
}

/// Row and column are on the board.
pub open spec fn on_board(r: int, c: int) -> bool {
    0 <= r < 7 && 0 <= c < 7
}

/// The square at row `r`, column `c`.
pub open spec fn square(r: int, c: int) -> int {
    r * 7 + c
}

/// The row of square `i`.
pub open spec fn row_of(i: int) -> int {
    i / 7
}

/// The column of square `i`.
pub open spec fn col_of(i: int) -> int {
    i % 7
}

/// The square at row `r`, column `c`.
pub fn idx(r: i32, c: i32) -> (i: usize)
    requires
        on_board(r as int, c as int),
    ensures
        i == square(r as int, c as int),
        i < 49,
        row_of(i as int) == r,
        col_of(i as int) == c,
{
    (r * 7 + c) as usize
}

/// The row and column of square `i`.
pub fn rc(i: usize) -> (p: (i32, i32))
    requires
        i < 49,
    ensures
        p.0 == row_of(i as int),
        p.1 == col_of(i as int),
        on_board(p.0 as int, p.1 as int),
        square(p.0 as int, p.1 as int) == i,
{
    ((i / 7) as i32, (i % 7) as i32)
}

/// The square at row `r`, column `c`, when it is on the board.
pub fn try_pos(r: i32, c: i32) -> (p: Option<usize>)
    requires
        -100 <= r <= 100,
        -100 <= c <= 100,
    ensures
        p == (if on_board(r as int, c as int) {
            Some(square(r as int, c as int) as usize)
        } else {
            None
        }),
{
    if 0 <= r && r < 7 && 0 <= c && c < 7 {
        Some(idx(r, c))
    } else {
        None
    }
}

/// Row `r`, column `c` lies in `player`'s castle: the three middle
/// columns of its three home rows.
pub open spec fn castle(player: Player, r: int, c: int) -> bool {
    &&& match player {
        Player::Black => 0 <= r < 3,
        Player::White => 4 <= r < 7,
    }
    &&& 2 <= c < 5
}

/// Whether row `r`, column `c` lies in `player`'s castle.
pub fn in_castle(player: Player, r: i32, c: i32) -> (b: bool)
    ensures
        b == castle(player, r as int, c as int),
{
    let rows = match player {
        Player::Black => 0 <= r && r < 3,
        Player::White => 4 <= r && r < 7,
    };
    rows && 2 <= c && c < 5
}

/// Row step of the `k`-th of the eight king directions.
pub open spec fn dir8_r(k: int) -> int {
    if k < 3 {
        -1
    } else if k < 5 {
        0
    } else {
        1
    }
}

/// Column step of the `k`-th of the eight king directions.
pub open spec fn dir8_c(k: int) -> int {
    if k == 0 || k == 3 || k == 5 {
        -1
    } else if k == 1 || k == 6 {
        0
    } else {
        1
    }
}

/// The `k`-th of the eight king directions, in the order
/// (-1,-1), (-1,0), (-1,1), (0,-1), (0,1), (1,-1), (1,0), (1,1).
pub fn dir8(k: usize) -> (d: (i32, i32))
    requires
        k < 8,
    ensures
        d.0 == dir8_r(k as int),
        d.1 == dir8_c(k as int),
{
    if k == 0 {
        (-1, -1)
    } else if k == 1 {
        (-1, 0)
    } else if k == 2 {
        (-1, 1)
    } else if k == 3 {
        (0, -1)
    } else if k == 4 {
        (0, 1)
    } else if k == 5 {
        (1, -1)
    } else if k == 6 {
        (1, 0)
    } else {
        (1, 1)
    }
}

/// Row step of the `k`-th of the four rook directions.
pub open spec fn ortho_r(k: int) -> int {
    if k == 0 {
        -1
    } else if k == 1 {
        1
    } else {
        0
    }
}

/// Column step of the `k`-th of the four rook directions.
pub open spec fn ortho_c(k: int) -> int {
    if k == 2 {
        -1
    } else if k == 3 {
        1
    } else {
        0
    }
}

/// The `k`-th of the four rook directions: up, down, left, right.
pub fn ortho4(k: usize) -> (d: (i32, i32))
    requires
        k < 4,
    ensures
        d.0 == ortho_r(k as int),
        d.1 == ortho_c(k as int),
{
    if k == 0 {
        (-1, 0)
    } else if k == 1 {
        (1, 0)
    } else if k == 2 {
        (0, -1)
    } else {
        (0, 1)
    }
}

/// Row step of the `k`-th knight jump.
pub open spec fn knight_r(k: int) -> int {
    if k < 2 {
        -2
    } else if k < 4 {
        -1
    } else if k < 6 {
        1
    } else {
        2
    }
}

/// Column step of the `k`-th knight jump.
pub open spec fn knight_c(k: int) -> int {
    if k == 0 || k == 6 {
        -1
    } else if k == 1 || k == 7 {
        1
    } else if k == 2 || k == 4 {
        -2
    } else {
        2
    }
}

/// The `k`-th knight jump, in the order (-2,-1), (-2,1), (-1,-2), (-1,2),
/// (1,-2), (1,2), (2,-1), (2,1).
pub fn knight8(k: usize) -> (d: (i32, i32))
    requires
        k < 8,
    ensures
        d.0 == knight_r(k as int),
        d.1 == knight_c(k as int),
{
    if k == 0 {
        (-2, -1)
    } else if k == 1 {
        (-2, 1)
    } else if k == 2 {
        (-1, -2)
    } else if k == 3 {
        (-1, 2)
    } else if k == 4 {
        (1, -2)
    } else if k == 5 {
        (1, 2)
    } else if k == 6 {
        (2, -1)
    } else {
        (2, 1)
    }
}

/// A move: a piece goes from `from` to `to`, removing the pieces on the
/// first `num_captures` entries of `captures`, listed in ascending order.
/// Unused entries are zero, so two moves that capture the same set and
/// land on the same square are equal.
#[derive(Copy, Clone, Debug, PartialEq, Eq, Hash)]
pub struct Move {
    pub from: u8,
    pub to: u8,
    pub num_captures: u8,
    pub captures: [u8; MAX_CAPTURES],
}

/// The captured squares of `m`.
pub open spec fn caps_of(m: Move) -> Seq<u8> {
    m.captures@.take(m.num_captures as int)
}

/// `m` lists at most sixteen captures and zeros after them.
pub open spec fn canonical(m: Move) -> bool {
    &&& m.num_captures <= 16
    &&& forall|k: int| m.num_captures <= k < 16 ==> #[trigger] m.captures@[k] == 0
}

/// `m` goes from `from` to `to`, capturing exactly `cap` (at most one
/// square).
pub open spec fn is_simple(m: Move, from: int, to: int, cap: Option<int>) -> bool {
    &&& m.from == from
    &&& m.to == to
    &&& canonical(m)
    &&& match cap {
        None => m.num_captures == 0,
        Some(c) => m.num_captures == 1 && m.captures@[0] == c,
    }
}

/// Strictly ascending.
pub open spec fn ascending(s: Seq<u8>) -> bool {
    forall|i: int, j: int| 0 <= i < j < s.len() ==> s[i] < s[j]
}

impl Move {
    /// A move from `from` to `to`, capturing `capture` if given.
    pub fn simple(from: usize, to: usize, capture: Option<usize>) -> (m: Move)
        requires
            from < 256,
            to < 256,
            capture matches Some(c) ==> c < 256,
        ensures
            is_simple(
                m,
                from as int,
                to as int,
                match capture {
                    Some(c) => Some(c as int),
                    None => None,
                },
            ),
    {
        let mut captures = [0u8; 16];
        let num_captures = if let Some(sq) = capture {
            captures[0] = sq as u8;
            1
        } else {
            0
        };
        Move { from: from as u8, to: to as u8, num_captures, captures }
    }

    /// The captured squares, in ascending order.
    pub fn captures(&self) -> (r: Vec<u8>)
        requires
            self.num_captures <= 16,
        ensures
            r@ == caps_of(*self),
    {
        let mut r: Vec<u8> = Vec::new();
        let mut k: usize = 0;
        while k < self.num_captures as usize
            invariant
                self.num_captures <= 16,
                k <= self.num_captures,
                r@ == self.captures@.take(k as int),
            decreases self.num_captures - k,
        {
            r.push(self.captures[k]);
            proof {
                assert(self.captures@.take(k + 1) =~= self.captures@.take(k as int).push(self.captures@[k as int]));
            }
            k += 1;
        }
        r
    }

    /// Whether the move captures anything.
    pub fn is_capture(&self) -> (r: bool)
        ensures
            r == (self.num_captures > 0),
    {
        self.num_captures > 0
    }
}

/// How a position stands: won by a side, drawn, or still being played.
#[derive(Copy, Clone, Debug, PartialEq, Eq, Structural, Hash)]
pub enum TerminalStatus {
    Winner(Player),
    Draw,
    NotTerminal,
}

} // verus!
