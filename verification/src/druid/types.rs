//! Druid's data types: board geometry, pieces, hands, and the phase of a
//! turn split into sub-actions.

use vstd::prelude::*;

verus! {

/// The two sides; Black connects top to bottom, White left to right.
#[derive(PartialEq, Eq, Structural, Clone, Copy, Debug, Hash)]
pub enum Player {
    Black,
    White,
}

/// The other side.
pub open spec fn opponent(p: Player) -> Player {
    match p {
        Player::Black => Player::White,
        Player::White => Player::Black,
    }
}

/// A side's index: Black 0, White 1.
pub open spec fn player_index(p: Player) -> int {
    match p {
        Player::Black => 0,
        Player::White => 1,
    }
}

impl Player {
    /// Hand the turn to the other side, in place.
    pub fn next(&mut self)
        ensures
            *final(self) == opponent(*old(self)),
    {
        *self = match *self {
            Player::Black => Player::White,
            Player::White => Player::Black,
        }
    }

    /// The side's index (Black 0, White 1).
    pub fn index(self) -> (r: usize)
        ensures
            r == player_index(self),
    {
        match self {
            Player::Black => 0,
            Player::White => 1,
        }
    }
}

/// Board dimensions: `w` columns by `h` rows.
#[derive(Clone, Copy, Debug, PartialEq, Eq, Structural, Hash)]
pub struct Size {
    pub w: u8,
    pub h: u8,
}

/// The size new games get unless told otherwise.
pub fn default_size() -> (s: Size)
    ensures
        s == (Size { w: 5, h: 5 }),
{
    Size { w: 5, h: 5 }
}

/// Number of bits needed to write `x` in binary (0 for 0).
pub open spec fn bit_len(x: nat) -> nat
    decreases x,
{
    if x == 0 {
        0
    } else {
        1 + bit_len(x / 2)
    }
}

/// A byte needs at most 8 bits.
pub proof fn lemma_bit_len_byte(x: nat)
    requires
        x <= 255,
    ensures
        bit_len(x) <= 8,
{
    reveal_with_fuel(bit_len, 9);
}

/// Writing a number of at least 128 takes at least 8 bits.
proof fn lemma_bit_len_past_byte_half(x: nat)
    requires
        x >= 128,
    ensures
        bit_len(x) >= 8,
{
    reveal_with_fuel(bit_len, 9);
    let x1 = x / 2;
    let x2 = x1 / 2;
    let x3 = x2 / 2;
    let x4 = x3 / 2;
    let x5 = x4 / 2;
    let x6 = x5 / 2;
    let x7 = x6 / 2;
    assert(x1 >= 64 && x2 >= 32 && x3 >= 16 && x4 >= 8 && x5 >= 4 && x6 >= 2 && x7 >= 1);
    assert(bit_len(x7) >= 1);
    assert(bit_len(x6) >= 2);
    assert(bit_len(x5) >= 3);
    assert(bit_len(x4) >= 4);
    assert(bit_len(x3) >= 5);
    assert(bit_len(x2) >= 6);
    assert(bit_len(x1) >= 7);
}

/// Sarsens each hand starts with on a board: twice the cell count.
pub open spec fn hand_sarsens(size: Size) -> int {
    2 * size.w * size.h
}

/// Bits a cell height takes in the hash: enough for every height from 0 to
/// the tallest stack one hand can build.
pub open spec fn height_bits(size: Size) -> nat {
    bit_len(hand_sarsens(size) as nat)
}

/// Entries of the cell key table.
pub const HASHES_LEN: usize = 1600;

/// Entries of the hand-count key table: 2 players times 2 piece kinds
/// times up to 8 bits.
pub const HAND_HASHES_LEN: usize = 32;

/// Whether a game can be built on `size`: room for a lintel either way, and
/// key tables big enough for every (cell, color, height bit) and (hand,
/// count bit) slot.
pub open spec fn supported(size: Size) -> bool {
    &&& size.w >= 3
    &&& size.h >= 3
    &&& size.w * size.h * 2 * height_bits(size) <= HASHES_LEN
    &&& 4 * height_bits(size) <= HAND_HASHES_LEN
}

impl Size {
    /// Number of cells.
    pub fn area(self) -> (r: u16)
        requires
            self.w * self.h <= u8::MAX,
        ensures
            r == self.w * self.h,
    {
        (self.w * self.h) as u16
    }

    /// Whether this size is safe to build a game on (see [`supported`]).
    pub fn is_supported(self) -> (r: bool)
        ensures
            r == supported(self),
    {
        if self.w < 3 || self.h < 3 {
            return false;
        }
        proof {
            assert(self.w * self.h <= 255 * 255) by (nonlinear_arith)
                requires
                    self.w <= 255,
                    self.h <= 255,
            ;
        }
        let cells: usize = self.w as usize * self.h as usize;
        if cells > 127 {
            proof {
                assert(cells == self.w * self.h);
                assert(hand_sarsens(self) >= 128) by (nonlinear_arith)
                    requires
                        self.w * self.h >= 128,
                        hand_sarsens(self) == 2 * self.w * self.h,
                ;
                lemma_bit_len_past_byte_half(hand_sarsens(self) as nat);
                assert(self.w * self.h * 2 * height_bits(self) >= 128 * 2 * 8) by (nonlinear_arith)
                    requires
                        self.w * self.h >= 128,
                        height_bits(self) >= 8,
                ;
            }
            return false;
        }
        proof {
            assert(2 * self.w * self.h <= 255) by (nonlinear_arith)
                requires
                    self.w * self.h <= 127,
            ;
        }
        let area = self.area() as usize;
        let bits = crate::druid::zobrist::zobrist_height_bits(self);
        proof {
            assert(area * 2 * bits <= 127 * 2 * 8) by (nonlinear_arith)
                requires
                    area <= 127,
                    bits <= 8,
            ;
        }
        area * 2 * bits <= HASHES_LEN && 4 * bits <= HAND_HASHES_LEN
    }
}

/// A board position `(x, y)`: column `x`, row `y`.
#[derive(Clone, Copy, Debug, Eq, Hash, PartialEq, Structural)]
pub struct Pos(pub u8, pub u8);

/// The on-board orthogonal neighbours of `(x, y)`, in the order left,
/// right, down, up.
pub open spec fn neighbours(x: int, y: int, size: Size) -> Seq<Pos> {
    let l = if x >= 1 { seq![Pos((x - 1) as u8, y as u8)] } else { Seq::empty() };
    let r = if x + 1 < size.w { seq![Pos((x + 1) as u8, y as u8)] } else { Seq::empty() };
    let d = if y >= 1 { seq![Pos(x as u8, (y - 1) as u8)] } else { Seq::empty() };
    let u = if y + 1 < size.h { seq![Pos(x as u8, (y + 1) as u8)] } else { Seq::empty() };
    l + r + d + u
}

impl Pos {
    /// The position of cell index `i` (the index taken as a byte).
    pub fn from(i: usize, size: Size) -> (r: Pos)
        requires
            size.w > 0,
        ensures
            r == Pos(((i as u8) % size.w) as u8, ((i as u8) / size.w) as u8),
    {
        let b = i as u8;
        Pos(b % size.w, b / size.w)
    }

    /// The cell index of this position on a board `width` columns wide.
    pub fn index(self, width: u8) -> (r: usize)
        requires
            self.1 * width + self.0 <= u8::MAX,
        ensures
            r == self.1 * width + self.0,
    {
        (self.1 * width + self.0) as usize
    }

    /// The on-board orthogonal neighbours, left, right, down, up.
    pub fn adjacent(&self, size: Size) -> (r: Vec<Pos>)
        requires
            self.0 < size.w <= 127,
            self.1 < size.h <= 127,
        ensures
            r@ == neighbours(self.0 as int, self.1 as int, size),
    {
        let x = self.0;
        let y = self.1;
        let mut out: Vec<Pos> = Vec::new();
        if x >= 1 {
            out.push(Pos(x - 1, y));
        }
        if x + 1 < size.w {
            out.push(Pos(x + 1, y));
        }
        if y >= 1 {
            out.push(Pos(x, y - 1));
        }
        if y + 1 < size.h {
            out.push(Pos(x, y + 1));
        }
        proof {
            assert(out@ =~= neighbours(x as int, y as int, size));
        }
        out
    }
}

/// Which way a lintel lies.
#[derive(Copy, Clone, Debug, PartialEq, Eq, Structural, Hash)]
pub enum Orientation {
    Horizontal,
    Vertical,
}

/// The step from one cell of a lintel to the next.
pub open spec fn delta_of(o: Orientation) -> (u8, u8) {
    match o {
        Orientation::Horizontal => (1u8, 0u8),
        Orientation::Vertical => (0u8, 1u8),
    }
}

impl Orientation {
    /// The `(dx, dy)` step from one cell of a lintel to the next.
    pub fn delta(self) -> (r: (u8, u8))
        ensures
            r == delta_of(self),
    {
        match self {
            Orientation::Horizontal => (1, 0),
            Orientation::Vertical => (0, 1),
        }
    }
}

/// A piece: a one-cell sarsen, or a three-cell lintel.
#[derive(Clone, Copy, Debug, PartialEq, Eq, Structural, Hash)]
pub enum Piece {
    Sarsen,
    Lintel(Orientation),
}

/// One board cell: how tall its stack is and whose piece is on top.
#[derive(Clone, Copy, Debug, Hash, PartialEq, Eq, Structural)]
pub struct Square {
    pub height: u16,
    pub piece: Option<Player>,
}

impl Square {
    /// Whether `color`'s piece is on top.
    pub fn matches(&self, color: Player) -> (r: bool)
        ensures
            r == (self.piece == Some(color)),
    {
        match self.piece {
            Some(p) => p == color,
            None => false,
        }
    }
}

/// A piece kind without its orientation.
#[derive(Clone, Copy, Debug, PartialEq, Eq, Structural, Hash)]
pub enum PieceKind {
    Sarsen,
    Lintel,
}

/// The kind of a piece.
pub open spec fn kind_of(p: Piece) -> PieceKind {
    match p {
        Piece::Sarsen => PieceKind::Sarsen,
        Piece::Lintel(_) => PieceKind::Lintel,
    }
}

impl Piece {
    /// The piece's kind, forgetting a lintel's orientation.
    pub fn kind(self) -> (r: PieceKind)
        ensures
            r == kind_of(self),
    {
        match self {
            Piece::Sarsen => PieceKind::Sarsen,
            Piece::Lintel(_) => PieceKind::Lintel,
        }
    }
}

/// A whole-turn placement: a piece anchored at a cell index.
#[derive(Copy, Clone, Debug, PartialEq, Eq, Structural, Hash)]
pub struct PlacedPiece(pub Piece, pub u8);

/// How many of a turn's sub-actions (piece kind, orientation, cell) have
/// been chosen. A position between turns is at `None`.
#[derive(Clone, Copy, Debug, PartialEq, Eq, Structural, Hash)]
pub enum Pending {
    Idle,
    Piece(PieceKind),
    Oriented(Orientation),
}

impl Default for Pending {
    fn default() -> (r: Self)
        ensures
            r == Pending::Idle,
    {
        Pending::Idle
    }
}

/// The pieces a player has left to place.
#[derive(Clone, Copy, Debug, Hash, PartialEq, Eq, Structural)]
pub struct Hand {
    pub sarsens: u8,
    pub lintels: u8,
}

/// A full hand for a board: two sarsens per cell and one lintel per cell.
pub open spec fn full_hand(size: Size) -> Hand {
    Hand { sarsens: hand_sarsens(size) as u8, lintels: (size.w * size.h) as u8 }
}

impl Hand {
    /// A full hand for a board: two sarsens per cell and one lintel per
    /// cell.
    pub fn new(size: Size) -> (r: Hand)
        requires
            hand_sarsens(size) <= u8::MAX,
        ensures
            r == full_hand(size),
            r.sarsens == hand_sarsens(size),
            r.lintels == size.w * size.h,
    {
        proof {
            assert(size.w * size.h <= 127 && (size.w * size.h) * 2 == 2 * size.w * size.h) by (nonlinear_arith)
                requires
                    2 * size.w * size.h <= 255,
            ;
        }
        let n = size.w * size.h;
        Hand { sarsens: n * 2, lintels: n }
    }
}

} // verus!
