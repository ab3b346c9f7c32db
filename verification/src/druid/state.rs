//! The board `State` and the primitives that read or change it: legality
//! of each placement, whole-turn move enumeration, and applying a move.
//!
//! Cell `(x, y)` (column `x`, row `y`) has index `y * w + x`.

use vstd::prelude::*;
use crate::druid::types::{
    full_hand, hand_sarsens, opponent, Hand, Orientation, Pending, Piece, PlacedPiece, Player, Pos, Size, Square,
};

verus! {

/// A Druid position: whose turn, the stacked board, each player's hand, and
/// which sub-action of the current turn is in progress.
#[derive(Clone, Debug, Hash, PartialEq, Eq)]
pub struct State {
    pub player: Player,
    pub board: Vec<Square>,
    pub hand_black: Hand,
    pub hand_white: Hand,
    pub size: Size,
    pub pending: Pending,
}

/// `color`'s hand in `s`.
pub open spec fn hand_of(s: State, color: Player) -> Hand {
    match color {
        Player::Black => s.hand_black,
        Player::White => s.hand_white,
    }
}

/// Whether `color` may stack a sarsen on cell `i`: the cell is empty or
/// already topped by `color`.
pub open spec fn sarsen_ok(board: Seq<Square>, i: int, color: Player) -> bool {
    match board[i].piece {
        None => true,
        Some(p) => p == color,
    }
}

/// Index step between consecutive cells of a lintel.
pub open spec fn lintel_step(size: Size, o: Orientation) -> int {
    match o {
        Orientation::Horizontal => 1,
        Orientation::Vertical => size.w as int,
    }
}

/// Whether a lintel anchored at `i` stays on the board.
pub open spec fn lintel_fits(size: Size, i: int, o: Orientation) -> bool {
    match o {
        Orientation::Horizontal => i % (size.w as int) + 2 < size.w,
        Orientation::Vertical => i / (size.w as int) + 2 < size.h,
    }
}

/// Cell `k` (`0..3`) of the lintel anchored at `i`.
pub open spec fn lintel_cell(size: Size, i: int, o: Orientation, k: int) -> int {
    if k == 0 {
        i
    } else if k == 1 {
        i + lintel_step(size, o)
    } else {
        i + 2 * lintel_step(size, o)
    }
}

/// Whether `color` may place a lintel anchored at `i`: it fits, its end
/// cells are equally tall and topped, its middle is no taller, and exactly
/// two of its cells already show `color` (the middle counting only at full
/// height).
pub open spec fn lintel_ok(board: Seq<Square>, size: Size, i: int, o: Orientation, color: Player) -> bool {
    let d = lintel_step(size, o);
    let s0 = board[i];
    let s1 = board[i + d];
    let s2 = board[i + 2 * d];
    &&& lintel_fits(size, i, o)
    &&& s0.height == s2.height
    &&& s1.height <= s0.height
    &&& s0.piece is Some
    &&& s2.piece is Some
    &&& (if s0.piece == Some(color) { 1int } else { 0int }) + (if s2.piece == Some(color) { 1int } else { 0int }) + (
    if s1.piece == Some(color) && s1.height == s0.height {
        1int
    } else {
        0int
    }) == 2
}

/// The placements the player to move may make anchored at cell `i`: a
/// sarsen, then a horizontal and a vertical lintel, each when legal and in
/// hand.
pub open spec fn cell_moves(s: State, i: int) -> Seq<PlacedPiece> {
    let hand = hand_of(s, s.player);
    let sarsen = if hand.sarsens > 0 && sarsen_ok(s.board@, i, s.player) {
        seq![PlacedPiece(Piece::Sarsen, i as u8)]
    } else {
        Seq::empty()
    };
    let horizontal = if hand.lintels > 0 && lintel_ok(s.board@, s.size, i, Orientation::Horizontal, s.player) {
        seq![PlacedPiece(Piece::Lintel(Orientation::Horizontal), i as u8)]
    } else {
        Seq::empty()
    };
    let vertical = if hand.lintels > 0 && lintel_ok(s.board@, s.size, i, Orientation::Vertical, s.player) {
        seq![PlacedPiece(Piece::Lintel(Orientation::Vertical), i as u8)]
    } else {
        Seq::empty()
    };
    sarsen + horizontal + vertical
}

/// The legal placements anchored at the first `n` cells, cell by cell.
pub open spec fn moves_upto(s: State, n: int) -> Seq<PlacedPiece>
    decreases n,
{
    if n <= 0 {
        Seq::empty()
    } else {
        moves_upto(s, n - 1) + cell_moves(s, n - 1)
    }
}

/// Every legal whole-turn placement of the player to move.
pub open spec fn legal_moves(s: State) -> Seq<PlacedPiece> {
    moves_upto(s, s.size.w * s.size.h)
}

/// Whether `m` fits the board of `s` and the mover holds its piece.
pub open spec fn playable(s: State, m: PlacedPiece) -> bool {
    let hand = hand_of(s, s.player);
    &&& 0 <= m.1 < s.size.w * s.size.h
    &&& match m.0 {
        Piece::Sarsen => hand.sarsens > 0,
        Piece::Lintel(o) => hand.lintels > 0 && lintel_fits(s.size, m.1 as int, o),
    }
}

/// The board after `player` places `m`: a sarsen raises its cell by one, a
/// lintel sets all three of its cells one above its anchor; either way the
/// touched cells show `player`.
pub open spec fn placed_board(board: Seq<Square>, size: Size, m: PlacedPiece, player: Player) -> Seq<Square> {
    let i = m.1 as int;
    let sq = Square { height: (board[i].height + 1) as u16, piece: Some(player) };
    match m.0 {
        Piece::Sarsen => board.update(i, sq),
        Piece::Lintel(o) => {
            let d = lintel_step(size, o);
            board.update(i, sq).update(i + d, sq).update(i + 2 * d, sq)
        },
    }
}

/// A hand with one piece of `piece`'s kind spent.
pub open spec fn spend(h: Hand, piece: Piece) -> Hand {
    match piece {
        Piece::Sarsen => Hand { sarsens: (h.sarsens - 1) as u8, ..h },
        Piece::Lintel(_) => Hand { lintels: (h.lintels - 1) as u8, ..h },
    }
}

/// The cell coordinates of an index are the index's column and row.
proof fn lemma_coords(size: Size, i: int)
    requires
        size.w >= 1,
        0 <= i < size.w * size.h,
    ensures
        i == (i / size.w as int) * size.w + i % (size.w as int),
        0 <= i % (size.w as int) < size.w,
        0 <= i / (size.w as int) < size.h,
{
    assert(size.w * size.h == size.h * size.w) by (nonlinear_arith);
    crate::grid::lemma_grid_split(i, size.h as int, size.w as int);
}

impl State {
    /// The board has `w * h` cells, at least one of each, and a full hand
    /// fits a byte.
    pub open spec fn wf(&self) -> bool {
        &&& self.size.w >= 1
        &&& self.size.h >= 1
        &&& hand_sarsens(self.size) <= u8::MAX
        &&& self.board@.len() == self.size.w * self.size.h
    }

    /// A fresh game: empty board, full hands, Black to move.
    pub fn new(size: Size) -> (s: State)
        requires
            size.w >= 1,
            size.h >= 1,
            hand_sarsens(size) <= u8::MAX,
        ensures
            s.wf(),
            s.size == size,
            s.player == Player::Black,
            s.pending == Pending::Idle,
            s.hand_black == full_hand(size),
            s.hand_white == full_hand(size),
            forall|i: int| 0 <= i < s.board@.len() ==> #[trigger] s.board@[i] == (Square { height: 0, piece: None }),
    {
        proof {
            assert(size.w * size.h <= 127) by (nonlinear_arith)
                requires
                    2 * size.w * size.h <= 255,
            ;
        }
        let area = size.area() as usize;
        let mut board: Vec<Square> = Vec::new();
        let mut i: usize = 0;
        while i < area
            invariant
                i <= area,
                board@.len() == i,
                forall|k: int| 0 <= k < i ==> #[trigger] board@[k] == (Square { height: 0, piece: None }),
            decreases area - i,
        {
            board.push(Square { height: 0, piece: None });
            i += 1;
        }
        State {
            player: Player::Black,
            board,
            hand_black: Hand::new(size),
            hand_white: Hand::new(size),
            size,
            pending: Pending::Idle,
        }
    }

    /// Whose piece tops cell `i`, if any.
    pub fn at(&self, i: usize) -> (r: Option<Player>)
        requires
            i < self.board@.len(),
        ensures
            r == self.board@[i as int].piece,
    {
        self.board[i].piece
    }

    /// The hand of the player to move.
    pub fn current_hand(&self) -> (r: &Hand)
        ensures
            *r == hand_of(*self, self.player),
    {
        self.hand(self.player)
    }

    /// `color`'s hand.
    pub fn hand(&self, color: Player) -> (r: &Hand)
        ensures
            *r == hand_of(*self, color),
    {
        match color {
            Player::Black => &self.hand_black,
            Player::White => &self.hand_white,
        }
    }

    /// Spend one `piece` from the hand of the player to move.
    pub fn deplete(&mut self, piece: Piece)
        requires
            match piece {
                Piece::Sarsen => hand_of(*old(self), old(self).player).sarsens > 0,
                Piece::Lintel(_) => hand_of(*old(self), old(self).player).lintels > 0,
            },
        ensures
            final(self).player == old(self).player,
            final(self).board@ == old(self).board@,
            final(self).size == old(self).size,
            final(self).pending == old(self).pending,
            hand_of(*final(self), final(self).player) == spend(hand_of(*old(self), old(self).player), piece),
            hand_of(*final(self), opponent(final(self).player)) == hand_of(*old(self), opponent(old(self).player)),
    {
        match self.player {
            Player::Black => match piece {
                Piece::Sarsen => self.hand_black.sarsens = self.hand_black.sarsens - 1,
                Piece::Lintel(_) => self.hand_black.lintels = self.hand_black.lintels - 1,
            },
            Player::White => match piece {
                Piece::Sarsen => self.hand_white.sarsens = self.hand_white.sarsens - 1,
                Piece::Lintel(_) => self.hand_white.lintels = self.hand_white.lintels - 1,
            },
        }
    }

    /// Whether `color` could stack a sarsen on cell `i` (hand aside).
    pub fn sarsen_legal_at(&self, i: usize, color: Player) -> (r: bool)
        requires
            i < self.board@.len(),
        ensures
            r == sarsen_ok(self.board@, i as int, color),
    {
        match self.at(i) {
            None => true,
            Some(p) => p == color,
        }
    }

    /// Whether `color` could place a lintel of `orientation` anchored at `i`
    /// (hand aside); on success, its three cells.
    pub fn lintel_legal_at(&self, i: usize, orientation: Orientation, color: Player) -> (r: Option<[usize; 3]>)
        requires
            self.wf(),
            i < self.board@.len(),
        ensures
            r is Some <==> lintel_ok(self.board@, self.size, i as int, orientation, color),
            r matches Some(c) ==> c[0] == i && c[1] == lintel_cell(self.size, i as int, orientation, 1) && c[2]
                == lintel_cell(self.size, i as int, orientation, 2),
    {
        let w = self.size.w;
        proof {
            assert(self.size.w * self.size.h <= 127) by (nonlinear_arith)
                requires
                    2 * self.size.w * self.size.h <= 255,
            ;
            lemma_coords(self.size, i as int);
        }
        let (dx, dy) = orientation.delta();
        let p = Pos::from(i, self.size);
        let x = p.0;
        let y = p.1;
        if x + dx + dx >= self.size.w || y + dy + dy >= self.size.h {
            return None;
        }
        let ghost d = lintel_step(self.size, orientation);
        proof {
            let (q, r) = (y as int, x as int);
            assert((q + dy) * w + (r + dx) == i + d && (q + 2 * dy) * w + (r + 2 * dx) == i + 2 * d
                && (q + 2 * dy) * w + (r + 2 * dx) < w * self.size.h) by (nonlinear_arith)
                requires
                    i == q * w + r,
                    d == (if dx == 1 { 1 } else { w as int }),
                    (dx == 1 && dy == 0) || (dx == 0 && dy == 1),
                    q + 2 * dy < self.size.h,
                    r + 2 * dx < w,
            ;
        }
        let c0 = Pos(x, y).index(w);
        let c1 = Pos(x + dx, y + dy).index(w);
        let c2 = Pos(x + dx + dx, y + dy + dy).index(w);
        let h0 = self.board[c0].height;
        let h1 = self.board[c1].height;
        let h2 = self.board[c2].height;
        if h0 != h2 || h1 > h0 {
            return None;
        }
        let p0 = match self.at(c0) {
            Some(p) => p,
            None => {
                return None;
            },
        };
        let p2 = match self.at(c2) {
            Some(p) => p,
            None => {
                return None;
            },
        };
        let mut count: u8 = 0;
        if p0 == color {
            count += 1;
        }
        if p2 == color {
            count += 1;
        }
        match self.at(c1) {
            Some(p1) => {
                if p1 == color && h1 == h0 {
                    count += 1;
                }
            },
            None => {},
        }
        if count == 2 {
            Some([c0, c1, c2])
        } else {
            None
        }
    }

    /// Append every whole-turn placement legal for the player to move, cell
    /// by cell: a sarsen, then a horizontal and a vertical lintel.
    pub fn moves(&self, moves: &mut Vec<PlacedPiece>)
        requires
            self.wf(),
        ensures
            final(moves)@ == old(moves)@ + legal_moves(*self),
    {
        proof {
            assert(self.size.w * self.size.h <= 127) by (nonlinear_arith)
                requires
                    2 * self.size.w * self.size.h <= 255,
            ;
        }
        let hand = self.current_hand();
        let area = self.size.area() as usize;
        let mut i: usize = 0;
        while i < area
            invariant
                self.wf(),
                area == self.size.w * self.size.h,
                area <= 127,
                *hand == hand_of(*self, self.player),
                i <= area,
                moves@ == old(moves)@ + moves_upto(*self, i as int),
            decreases area - i,
        {
            let ghost before = moves@;
            if hand.sarsens > 0 && self.sarsen_legal_at(i, self.player) {
                moves.push(PlacedPiece(Piece::Sarsen, i as u8));
            }
            if hand.lintels > 0 {
                if self.lintel_legal_at(i, Orientation::Horizontal, self.player).is_some() {
                    moves.push(PlacedPiece(Piece::Lintel(Orientation::Horizontal), i as u8));
                }
                if self.lintel_legal_at(i, Orientation::Vertical, self.player).is_some() {
                    moves.push(PlacedPiece(Piece::Lintel(Orientation::Vertical), i as u8));
                }
            }
            proof {
                assert(moves@ =~= before + cell_moves(*self, i as int));
                assert(moves_upto(*self, i + 1) == moves_upto(*self, i as int) + cell_moves(*self, i as int));
                assert(moves@ =~= old(moves)@ + moves_upto(*self, i + 1));
            }
            i += 1;
        }
    }

    /// The cells `m` touches -- one for a sarsen, three for a lintel --
    /// and how many; unused slots hold 0.
    pub fn move_cells(&self, m: PlacedPiece) -> (r: ([usize; 3], usize))
        requires
            self.wf(),
            (m.1 as int) < self.size.w * self.size.h,
            m.0 matches Piece::Lintel(o) ==> lintel_fits(self.size, m.1 as int, o),
        ensures
            m.0 == Piece::Sarsen ==> r.1 == 1 && r.0[0] == m.1 && r.0[1] == 0 && r.0[2] == 0,
            m.0 matches Piece::Lintel(o) ==> r.1 == 3 && forall|k: int| 0 <= k < 3 ==> #[trigger] r.0[k]
                == lintel_cell(self.size, m.1 as int, o, k),
            forall|k: int| 0 <= k < r.1 ==> #[trigger] r.0[k] < self.board@.len(),
    {
        match m.0 {
            Piece::Sarsen => {
                let c: [usize; 3] = [m.1 as usize, 0, 0];
                assert(c[0] == m.1 && c[1] == 0 && c[2] == 0);
                (c, 1)
            },
            Piece::Lintel(orientation) => {
                let w = self.size.w;
                let i = m.1 as usize;
                proof {
                    assert(self.size.w * self.size.h <= 127) by (nonlinear_arith)
                        requires
                            2 * self.size.w * self.size.h <= 255,
                    ;
                    lemma_coords(self.size, i as int);
                }
                let (dx, dy) = orientation.delta();
                let p = Pos::from(i, self.size);
                let x = p.0;
                let y = p.1;
                let ghost d = lintel_step(self.size, orientation);
                proof {
                    let (q, r) = (y as int, x as int);
                    assert((q + dy) * w + (r + dx) == i + d && (q + 2 * dy) * w + (r + 2 * dx) == i + 2 * d
                        && (q + 2 * dy) * w + (r + 2 * dx) < w * self.size.h) by (nonlinear_arith)
                        requires
                            i == q * w + r,
                            d == (if dx == 1 { 1 } else { w as int }),
                            (dx == 1 && dy == 0) || (dx == 0 && dy == 1),
                            q + 2 * dy < self.size.h,
                            r + 2 * dx < w,
                    ;
                }
                let c: [usize; 3] = [
                    Pos(x, y).index(w),
                    Pos(x + dx, y + dy).index(w),
                    Pos(x + dx + dx, y + dy + dy).index(w),
                ];
                assert(c[0] == i && c[1] == i + d && c[2] == i + 2 * d);
                (c, 3)
            },
        }
    }

    /// Apply a whole-turn placement: spend the piece from the mover's hand,
    /// write it on the board, and hand the turn over. `pending` is left
    /// as it is.
    pub fn apply(&mut self, m: PlacedPiece)
        requires
            old(self).wf(),
            playable(*old(self), m),
            old(self).board@[m.1 as int].height < u16::MAX,
        ensures
            final(self).wf(),
            final(self).board@ == placed_board(old(self).board@, old(self).size, m, old(self).player),
            final(self).player == opponent(old(self).player),
            hand_of(*final(self), old(self).player) == spend(hand_of(*old(self), old(self).player), m.0),
            hand_of(*final(self), opponent(old(self).player)) == hand_of(*old(self), opponent(old(self).player)),
            final(self).size == old(self).size,
            final(self).pending == old(self).pending,
    {
        self.deplete(m.0);
        let (cells, n) = self.move_cells(m);
        let mover = self.player;
        match m.0 {
            Piece::Sarsen => {
                let i = cells[0];
                let sq = self.board[i];
                self.board.set(i, Square { height: sq.height + 1, piece: Some(mover) });
            },
            Piece::Lintel(_) => {
                let h = self.board[cells[0]].height + 1;
                let sq = Square { height: h, piece: Some(mover) };
                self.board.set(cells[0], sq);
                self.board.set(cells[1], sq);
                self.board.set(cells[2], sq);
            },
        }
        self.player.next();
    }
}

} // verus!
