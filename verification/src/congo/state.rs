//! A Congo position and the effect of a move on it, river drowning and
//! promotion included.

use vstd::prelude::*;
use crate::congo::{
    caps_of, col_of, idx, kind, opponent, owner, rc, row_of, Cell, Move, Piece, Player, NUM_SQUARES,
};

verus! {

/// A position: the 49 squares, each side's cached Lion square (`None`
/// once a Lion of that side has been removed), each square's river
/// counter, and the side to move.
#[derive(Copy, Clone, Debug, PartialEq, Eq, Hash)]
pub struct State {
    squares: [Cell; 49],
    black_lion: Option<u8>,
    white_lion: Option<u8>,
    river_since: [u8; 49],
    turn: Player,
}

/// The piece Black and White start with on column `c` of their home rank.
pub open spec fn back_rank(c: int) -> Piece {
    if c == 0 {
        Piece::Giraffe
    } else if c == 1 {
        Piece::Monkey
    } else if c == 2 || c == 4 {
        Piece::Elephant
    } else if c == 3 {
        Piece::Lion
    } else if c == 5 {
        Piece::Crocodile
    } else {
        Piece::Zebra
    }
}

/// Square `i` of the starting position.
pub open spec fn initial_cell(i: int) -> Cell {
    let r = row_of(i);
    if r == 0 {
        Some((Player::Black, back_rank(col_of(i))))
    } else if r == 6 {
        Some((Player::White, back_rank(col_of(i))))
    } else if r == 1 {
        Some((Player::Black, Piece::Pawn))
    } else if r == 5 {
        Some((Player::White, Piece::Pawn))
    } else {
        None
    }
}

/// The highest square below `n` holding `color`'s Lion.
pub open spec fn last_lion(cells: Seq<Cell>, color: Player, n: int) -> Option<u8>
    decreases n,
{
    if n <= 0 {
        None
    } else if cells[n - 1] == Some((color, Piece::Lion)) {
        Some((n - 1) as u8)
    } else {
        last_lion(cells, color, n - 1)
    }
}

/// The row a side's Pawns promote on.
pub open spec fn last_rank(p: Player) -> int {
    match p {
        Player::Black => 6,
        Player::White => 0,
    }
}

/// The squares after the captured pieces and the moving piece are lifted.
pub open spec fn lifted(cells: Seq<Cell>, mv: Move) -> Seq<Cell> {
    Seq::new(49, |i: int| if i == mv.from as int || caps_of(mv).contains(i as u8) { None } else { cells[i] })
}

/// What the moving piece becomes on `to`: a Pawn reaching its last rank
/// promotes to a Superpawn.
pub open spec fn landed(mover: Player, piece: Piece, to: int) -> Piece {
    if piece == Piece::Pawn && row_of(to) == last_rank(mover) {
        Piece::Superpawn
    } else {
        piece
    }
}

/// The squares once the moving piece stands on `to` for `mover`.
pub open spec fn moved(cells: Seq<Cell>, mv: Move, mover: Player, piece: Piece) -> Seq<Cell> {
    lifted(cells, mv).update(mv.to as int, Some((mover, landed(mover, piece, mv.to as int))))
}

/// Square `sq` holds one of `mover`'s pieces in the river.
pub open spec fn mover_in_river(m: Seq<Cell>, mover: Player, sq: int) -> bool {
    row_of(sq) == 3 && m[sq] is Some && owner(m[sq]) == mover
}

/// The river counter of `sq` at the end of `mover`'s turn that landed on
/// `dest`: a Crocodile's stays 0, a piece that just arrived starts at 1,
/// and any other piece of the mover still in the river counts one more
/// turn.
pub open spec fn counter(m: Seq<Cell>, river: Seq<u8>, mover: Player, dest: int, sq: int) -> int {
    if mover_in_river(m, mover, sq) {
        if kind(m[sq]) == Piece::Crocodile {
            0
        } else if sq == dest {
            1
        } else {
            river[sq] + 1
        }
    } else {
        river[sq] as int
    }
}

/// The piece on `sq` drowns at the end of the turn: a non-Crocodile of the
/// mover that has now ended two turns in the river.
pub open spec fn drowns(m: Seq<Cell>, river: Seq<u8>, mover: Player, dest: int, sq: int) -> bool {
    &&& mover_in_river(m, mover, sq)
    &&& kind(m[sq]) != Piece::Crocodile
    &&& counter(m, river, mover, dest, sq) >= 2
}

impl State {
    /// The 49 squares.
    pub closed spec fn cells(&self) -> Seq<Cell> {
        self.squares@
    }

    /// The river counters of the 49 squares.
    pub closed spec fn river(&self) -> Seq<u8> {
        self.river_since@
    }

    /// The side to move.
    pub closed spec fn mover(&self) -> Player {
        self.turn
    }

    /// The cached square of `p`'s Lion.
    pub closed spec fn lion(&self, p: Player) -> Option<u8> {
        match p {
            Player::Black => self.black_lion,
            Player::White => self.white_lion,
        }
    }

    /// Both tables cover the board and a cached Lion square holds that
    /// side's Lion.
    pub open spec fn wf(&self) -> bool {
        &&& self.cells().len() == 49
        &&& self.river().len() == 49
        &&& forall|p: Player| #[trigger] self.lion(p) matches Some(i) ==> i < 49 && self.cells()[i as int] == Some((p, Piece::Lion))
    }

    /// The piece that moves in `mv`.
    pub open spec fn moving_piece(&self, mv: Move) -> Piece {
        kind(self.cells()[mv.from as int])
    }

    /// The squares once `mv`'s piece has landed, before drowning.
    pub open spec fn landed_cells(&self, mv: Move) -> Seq<Cell> {
        moved(self.cells(), mv, self.mover(), self.moving_piece(mv))
    }

    /// The squares after `mv`.
    pub open spec fn cells_after(&self, mv: Move) -> Seq<Cell> {
        let m = self.landed_cells(mv);
        Seq::new(49, |sq: int| if drowns(m, self.river(), self.mover(), mv.to as int, sq) { None } else { m[sq] })
    }

    /// The river counters after `mv`.
    pub open spec fn river_after(&self, mv: Move) -> Seq<u8> {
        let m = self.landed_cells(mv);
        Seq::new(
            49,
            |sq: int|
                if drowns(m, self.river(), self.mover(), mv.to as int, sq) {
                    0u8
                } else {
                    counter(m, self.river(), self.mover(), mv.to as int, sq) as u8
                },
        )
    }

    /// The cached Lion square of `c` after `mv`: the moving Lion's new
    /// square; otherwise cleared when a Lion of `c` was lifted or drowned.
    pub open spec fn lion_after(&self, mv: Move, c: Player) -> Option<u8> {
        let m = self.landed_cells(mv);
        let lost = self.cells()[mv.from as int] == Some((c, Piece::Lion)) || exists|k: int|
            0 <= k < mv.num_captures && self.cells()[mv.captures@[k] as int] == Some((c, Piece::Lion));
        let mid = if c == self.mover() && self.moving_piece(mv) == Piece::Lion {
            Some(mv.to)
        } else if lost {
            None
        } else {
            self.lion(c)
        };
        let drowned = exists|sq: int|
            0 <= sq < 49 && drowns(m, self.river(), self.mover(), mv.to as int, sq) && m[sq] == Some((c, Piece::Lion));
        if drowned {
            None
        } else {
            mid
        }
    }

    /// `mv` can be carried out: its squares are on the board, its source
    /// is occupied, its destination is free once the lifted pieces are
    /// gone, and no river counter of the mover overflows.
    pub open spec fn can_apply(&self, mv: Move) -> bool {
        &&& mv.from < 49
        &&& mv.to < 49
        &&& mv.num_captures <= 16
        &&& forall|k: int| 0 <= k < mv.num_captures ==> #[trigger] mv.captures@[k] < 49
        &&& self.cells()[mv.from as int] is Some
        &&& lifted(self.cells(), mv)[mv.to as int] is None
        &&& forall|sq: int|
            0 <= sq < 49 && sq != mv.to && #[trigger] mover_in_river(self.landed_cells(mv), self.mover(), sq)
                ==> self.river()[sq] < 255
    }

    /// The starting position, Black to move.
    pub fn initial() -> (s: State)
        ensures
            s.wf(),
            forall|i: int| 0 <= i < 49 ==> #[trigger] s.cells()[i] == initial_cell(i),
            forall|i: int| 0 <= i < 49 ==> #[trigger] s.river()[i] == 0,
            s.mover() == Player::Black,
            s.lion(Player::Black) == Some(3u8),
            s.lion(Player::White) == Some(45u8),
    {
        let mut squares: [Cell; 49] = [None; 49];
        let mut i: usize = 0;
        while i < NUM_SQUARES
            invariant
                i <= 49,
                squares@.len() == 49,
                forall|j: int| 0 <= j < i ==> #[trigger] squares@[j] == initial_cell(j),
            decreases 49 - i,
        {
            squares[i] = start_cell(i);
            i += 1;
        }
        let s = State {
            squares,
            black_lion: Some(3),
            white_lion: Some(45),
            river_since: [0u8; 49],
            turn: Player::Black,
        };
        proof {
            assert(s.cells()[3] == initial_cell(3));
            assert(s.cells()[45] == initial_cell(45));
        }
        s
    }

    /// The side to move.
    pub fn turn(&self) -> (p: Player)
        ensures
            p == self.mover(),
    {
        self.turn
    }

    /// What `square` holds.
    pub fn get(&self, square: usize) -> (c: Cell)
        requires
            square < 49,
        ensures
            c == self.cells()[square as int],
    {
        self.squares[square]
    }

    /// How many of its owner's turns the piece on `square` has ended in
    /// the river.
    pub fn river_since(&self, square: usize) -> (n: u8)
        requires
            square < 49,
        ensures
            n == self.river()[square as int],
    {
        self.river_since[square]
    }

    /// The cached square of `p`'s Lion.
    pub fn lion_square(&self, p: Player) -> (r: Option<u8>)
        ensures
            r == self.lion(p),
    {
        match p {
            Player::Black => self.black_lion,
            Player::White => self.white_lion,
        }
    }

    /// Rebuilds a position from its squares, river counters and side to
    /// move; each side's Lion square is the highest square holding that
    /// side's Lion.
    pub fn from_parts(cells: [Cell; 49], river_since: [u8; 49], turn: Player) -> (s: State)
        ensures
            s.wf(),
            s.cells() == cells@,
            s.river() == river_since@,
            s.mover() == turn,
            s.lion(Player::Black) == last_lion(cells@, Player::Black, 49),
            s.lion(Player::White) == last_lion(cells@, Player::White, 49),
    {
        let mut black_lion: Option<u8> = None;
        let mut white_lion: Option<u8> = None;
        let mut i: usize = 0;
        while i < NUM_SQUARES
            invariant
                i <= 49,
                cells@.len() == 49,
                black_lion == last_lion(cells@, Player::Black, i as int),
                white_lion == last_lion(cells@, Player::White, i as int),
                forall|p: Player, n: int| 0 <= n <= i ==> (#[trigger] last_lion(cells@, p, n) matches Some(j) ==> j < n && cells@[j as int] == Some((p, Piece::Lion))),
            decreases 49 - i,
        {
            if let Some((color, piece)) = cells[i] {
                if matches!(piece, Piece::Lion) {
                    match color {
                        Player::Black => black_lion = Some(i as u8),
                        Player::White => white_lion = Some(i as u8),
                    }
                }
            }
            proof {
                assert forall|p: Player, n: int| 0 <= n <= i + 1 implies (#[trigger] last_lion(cells@, p, n) matches Some(j) ==> j
                    < n && cells@[j as int] == Some((p, Piece::Lion))) by {
                    if n == i + 1 {
                        assert(last_lion(cells@, p, n) == if cells@[n - 1] == Some((p, Piece::Lion)) {
                            Some((n - 1) as u8)
                        } else {
                            last_lion(cells@, p, n - 1)
                        });
                    }
                }
            }
            i += 1;
        }
        let s = State { squares: cells, black_lion, white_lion, river_since, turn };
        proof {
            assert(last_lion(cells@, Player::Black, 49) matches Some(j) ==> j < 49);
        }
        s
    }

    /// The position after `mv`: the captured pieces and the moving piece
    /// are lifted, the piece lands on `mv.to` for the side to move (a Pawn
    /// reaching its last rank becomes a Superpawn), the mover's river
    /// counters advance and its pieces that ended a second turn in the
    /// river drown, and the turn passes.
    pub fn apply(&self, mv: &Move) -> (r: State)
        requires
            self.wf(),
            self.can_apply(*mv),
        ensures
            r.wf(),
            r.cells() == self.cells_after(*mv),
            r.river() == self.river_after(*mv),
            r.mover() == opponent(self.mover()),
            forall|c: Player| #[trigger] r.lion(c) == self.lion_after(*mv, c),
    {
        let mut s = *self;
        let mover = s.turn;
        let piece = match s.squares[mv.from as usize] {
            Some((_, p)) => p,
            None => Piece::Pawn,
        };
        let n = mv.num_captures as usize;
        let mut k: usize = 0;
        while k < n
            invariant
                self.wf(),
                self.can_apply(*mv),
                n == mv.num_captures,
                k <= n,
                s.cells().len() == 49,
                forall|i: int| 0 <= i < 49 ==> #[trigger] s.cells()[i] == if caps_of(*mv).take(k as int).contains(i as u8) {
                    None
                } else {
                    self.cells()[i]
                },
                s.river() == self.river(),
                s.mover() == self.mover(),
                forall|c: Player| #[trigger] s.lion(c) == if exists|j: int| 0 <= j < k && self.cells()[mv.captures@[j] as int] == Some((c, Piece::Lion)) {
                    None
                } else {
                    self.lion(c)
                },
            decreases n - k,
        {
            let ghost before = s;
            let sq = mv.captures[k] as usize;
            s.remove(sq);
            proof {
                assert(caps_of(*mv).take(k + 1) =~= caps_of(*mv).take(k as int).push(sq as u8));
                assert forall|i: int| 0 <= i < 49 implies #[trigger] s.cells()[i] == if caps_of(*mv).take(k + 1).contains(i as u8) {
                    None
                } else {
                    self.cells()[i]
                } by {
                    let t0 = caps_of(*mv).take(k as int);
                    let t1 = caps_of(*mv).take(k + 1);
                    if i == sq {
                        assert(t1[k as int] == i as u8);
                    } else {
                        if t1.contains(i as u8) {
                            let j = choose|j: int| 0 <= j < t1.len() && t1[j] == i as u8;
                            if j == k {
                                assert(false);
                            }
                            assert(t0[j] == i as u8);
                        }
                        if t0.contains(i as u8) {
                            let j = choose|j: int| 0 <= j < t0.len() && t0[j] == i as u8;
                            assert(t1[j] == i as u8);
                        }
                    }
                }
                assert forall|c: Player| #[trigger] s.lion(c) == if exists|j: int| 0 <= j < k + 1 && self.cells()[mv.captures@[j] as int] == Some((c, Piece::Lion)) {
                    None
                } else {
                    self.lion(c)
                } by {
                    if before.cells()[sq as int] == Some((c, Piece::Lion)) {
                        assert(self.cells()[mv.captures@[k as int] as int] == Some((c, Piece::Lion)));
                    }
                    if self.cells()[mv.captures@[k as int] as int] == Some((c, Piece::Lion)) && before.cells()[sq as int] != Some((c, Piece::Lion)) {
                        assert(caps_of(*mv).take(k as int).contains(sq as u8));
                        let j = choose|j: int| 0 <= j < k && caps_of(*mv).take(k as int)[j] == sq as u8;
                        assert(self.cells()[mv.captures@[j] as int] == Some((c, Piece::Lion)));
                    }
                }
            }
            k += 1;
        }
        proof {
            assert(caps_of(*mv).take(n as int) =~= caps_of(*mv));
        }
        let ghost after_caps = s;
        s.remove(mv.from as usize);
        s.place(mover, piece, mv.to as usize);
        if matches!(piece, Piece::Pawn) {
            let (r, _) = rc(mv.to as usize);
            let last = match mover {
                Player::Black => 6,
                Player::White => 0,
            };
            if r == last {
                s.remove(mv.to as usize);
                s.place(mover, Piece::Superpawn, mv.to as usize);
            }
        }
        proof {
            let m = self.landed_cells(*mv);
            assert(s.cells() =~= m);
            assert forall|c: Player| #[trigger] s.lion(c) == if c == self.mover() && self.moving_piece(*mv) == Piece::Lion {
                Some(mv.to)
            } else if self.cells()[mv.from as int] == Some((c, Piece::Lion)) || exists|k: int|
                0 <= k < mv.num_captures && self.cells()[mv.captures@[k] as int] == Some((c, Piece::Lion)) {
                None
            } else {
                self.lion(c)
            } by {
                if self.cells()[mv.from as int] == Some((c, Piece::Lion)) && !(exists|k: int|
                    0 <= k < mv.num_captures && self.cells()[mv.captures@[k] as int] == Some((c, Piece::Lion))) {
                    if caps_of(*mv).contains(mv.from) {
                        let j = choose|j: int| 0 <= j < n && caps_of(*mv)[j] == mv.from;
                        assert(self.cells()[mv.captures@[j] as int] == Some((c, Piece::Lion)));
                    }
                    assert(after_caps.cells()[mv.from as int] == Some((c, Piece::Lion)));
                }
            }
        }
        s.update_river(mover, mv.to as usize);
        let ghost pre = s;
        s.turn = mover.next();
        proof {
            assert(s.lion(Player::Black) == pre.lion(Player::Black));
            assert(s.lion(Player::White) == pre.lion(Player::White));
            assert(s.cells() =~= self.cells_after(*mv));
            assert(s.river() =~= self.river_after(*mv));
            assert forall|c: Player| #[trigger] s.lion(c) == self.lion_after(*mv, c) by {}
            assert forall|c: Player| #[trigger] s.lion(c) is Some implies s.lion(c)->0 < 49 && s.cells()[s.lion(c)->0 as int] == Some((c, Piece::Lion)) by {
                let m = self.landed_cells(*mv);
                let i = s.lion(c)->0;
                if !(c == self.mover() && self.moving_piece(*mv) == Piece::Lion) {
                    assert(self.lion(c) == Some(i));
                    assert(self.cells()[i as int] == Some((c, Piece::Lion)));
                    if i as int == mv.from as int {
                        assert(false);
                    }
                    if caps_of(*mv).contains(i) {
                        let j = choose|j: int| 0 <= j < caps_of(*mv).len() && caps_of(*mv)[j] == i;
                        assert(self.cells()[mv.captures@[j] as int] == Some((c, Piece::Lion)));
                        assert(false);
                    }
                    assert(lifted(self.cells(), *mv)[i as int] == self.cells()[i as int]);
                    assert(m[i as int] == self.cells()[i as int]);
                    if drowns(m, self.river(), self.mover(), mv.to as int, i as int) {
                        assert(false);
                    }
                } else {
                    assert(m[mv.to as int] == Some((c, Piece::Lion)));
                    if drowns(m, self.river(), self.mover(), mv.to as int, mv.to as int) {
                        assert(false);
                    }
                }
            }
        }
        s
    }

    /// Advances the river counters of `mover`'s pieces in the river and
    /// removes those that have now ended a second turn there; `destination`
    /// is where this turn's piece landed.
    fn update_river(&mut self, mover: Player, destination: usize)
        requires
            destination < 49,
            old(self).cells().len() == 49,
            old(self).river().len() == 49,
            forall|sq: int|
                0 <= sq < 49 && sq != destination && #[trigger] mover_in_river(old(self).cells(), mover, sq)
                    ==> old(self).river()[sq] < 255,
        ensures
            final(self).cells() == Seq::new(
                49,
                |sq: int| if drowns(old(self).cells(), old(self).river(), mover, destination as int, sq) {
                    None
                } else {
                    old(self).cells()[sq]
                },
            ),
            final(self).river() == Seq::new(
                49,
                |sq: int|
                    if drowns(old(self).cells(), old(self).river(), mover, destination as int, sq) {
                        0u8
                    } else {
                        counter(old(self).cells(), old(self).river(), mover, destination as int, sq) as u8
                    },
            ),
            final(self).mover() == old(self).mover(),
            forall|c: Player| #[trigger] final(self).lion(c) == if exists|sq: int|
                0 <= sq < 49 && drowns(old(self).cells(), old(self).river(), mover, destination as int, sq)
                    && old(self).cells()[sq] == Some((c, Piece::Lion)) {
                None
            } else {
                old(self).lion(c)
            },
    {
        let ghost m = self.cells();
        let ghost rv = self.river();
        let ghost dest = destination as int;
        let mut col: i32 = 0;
        while col < 7
            invariant
                0 <= col <= 7,
                destination < 49,
                dest == destination as int,
                m == old(self).cells(),
                rv == old(self).river(),
                m.len() == 49,
                rv.len() == 49,
                self.cells() == m,
                self.mover() == old(self).mover(),
                forall|c: Player| #[trigger] self.lion(c) == old(self).lion(c),
                forall|sq: int| 0 <= sq < 49 && sq != dest && #[trigger] mover_in_river(m, mover, sq) ==> rv[sq] < 255,
                self.river().len() == 49,
                forall|sq: int| 0 <= sq < 49 ==> #[trigger] self.river()[sq] == if row_of(sq) == 3 && col_of(sq) < col {
                    counter(m, rv, mover, dest, sq) as u8
                } else {
                    rv[sq]
                },
            decreases 7 - col,
        {
            let sq = idx(3, col);
            let ghost before = *self;
            let cur = self.river_since[sq];
            proof {
                assert(cur == rv[sq as int]);
            }
            let next = match self.squares[sq] {
                Some((color, piece)) => {
                    if color == mover {
                        if matches!(piece, Piece::Crocodile) {
                            0
                        } else if sq == destination {
                            1
                        } else {
                            assert(m[sq as int] == Some((color, piece)));
                            assert(owner(m[sq as int]) == mover);
                            assert(row_of(sq as int) == 3);
                            assert(mover_in_river(m, mover, sq as int));
                            assert(sq as int != dest);
                            assert(rv[sq as int] < 255);
                            cur + 1
                        }
                    } else {
                        cur
                    }
                },
                None => cur,
            };
            self.river_since[sq] = next;
            proof {
                assert(next == counter(m, rv, mover, dest, sq as int) as u8);
                assert(self.river() == before.river().update(sq as int, next));
                assert(self.lion(Player::Black) == before.lion(Player::Black));
                assert(self.lion(Player::White) == before.lion(Player::White));
            }
            col += 1;
        }
        proof {
            assert forall|sq: int| 0 <= sq < 49 implies #[trigger] self.river()[sq] == counter(m, rv, mover, dest, sq) as u8 by {
                if row_of(sq) != 3 {
                    assert(!mover_in_river(m, mover, sq));
                }
            }
        }
        let ghost rc1 = self.river();
        let mut col: i32 = 0;
        while col < 7
            invariant
                0 <= col <= 7,
                destination < 49,
                dest == destination as int,
                m == old(self).cells(),
                rv == old(self).river(),
                m.len() == 49,
                rv.len() == 49,
                rc1.len() == 49,
                forall|sq: int| 0 <= sq < 49 ==> #[trigger] rc1[sq] == counter(m, rv, mover, dest, sq) as u8,
                forall|sq: int| 0 <= sq < 49 && sq != dest && #[trigger] mover_in_river(m, mover, sq) ==> rv[sq] < 255,
                self.cells().len() == 49,
                self.river().len() == 49,
                self.mover() == old(self).mover(),
                forall|sq: int| 0 <= sq < 49 ==> #[trigger] self.cells()[sq] == if row_of(sq) == 3 && col_of(sq) < col && drowns(m, rv, mover, dest, sq) {
                    None
                } else {
                    m[sq]
                },
                forall|sq: int| 0 <= sq < 49 ==> #[trigger] self.river()[sq] == if row_of(sq) == 3 && col_of(sq) < col && drowns(m, rv, mover, dest, sq) {
                    0u8
                } else {
                    rc1[sq]
                },
                forall|c: Player| #[trigger] self.lion(c) == if exists|sq: int|
                    0 <= sq < 49 && row_of(sq) == 3 && col_of(sq) < col && drowns(m, rv, mover, dest, sq) && m[sq] == Some((c, Piece::Lion)) {
                    None
                } else {
                    old(self).lion(c)
                },
            decreases 7 - col,
        {
            let sq = idx(3, col);
            let ghost before = *self;
            let cur = self.river_since[sq];
            let drown = match self.squares[sq] {
                Some((color, piece)) => color == mover && !matches!(piece, Piece::Crocodile) && cur >= 2,
                None => false,
            };
            proof {
                assert(cur == rc1[sq as int]);
                assert(before.cells()[sq as int] == m[sq as int]);
                if mover_in_river(m, mover, sq as int) && sq as int != dest {
                    assert(rv[sq as int] < 255);
                }
                assert(drown == drowns(m, rv, mover, dest, sq as int));
            }
            if drown {
                self.river_since[sq] = 0;
                proof {
                    assert(self.lion(Player::Black) == before.lion(Player::Black));
                    assert(self.lion(Player::White) == before.lion(Player::White));
                    assert(self.cells() == before.cells());
                }
                self.remove(sq);
            }
            proof {
                assert forall|c: Player| #[trigger] self.lion(c) == if exists|s2: int|
                    0 <= s2 < 49 && row_of(s2) == 3 && col_of(s2) < col + 1 && drowns(m, rv, mover, dest, s2) && m[s2] == Some((c, Piece::Lion)) {
                    None
                } else {
                    old(self).lion(c)
                } by {
                    if exists|s2: int|
                        0 <= s2 < 49 && row_of(s2) == 3 && col_of(s2) < col + 1 && drowns(m, rv, mover, dest, s2) && m[s2] == Some((c, Piece::Lion)) {
                        let s2 = choose|s2: int|
                            0 <= s2 < 49 && row_of(s2) == 3 && col_of(s2) < col + 1 && drowns(m, rv, mover, dest, s2) && m[s2] == Some((c, Piece::Lion));
                        if col_of(s2) == col {
                            assert(s2 == sq);
                        } else {
                            assert(before.lion(c) == None::<u8>);
                        }
                    } else {
                        if drown {
                            assert(m[sq as int] != Some((c, Piece::Lion)));
                        }
                        assert(!(exists|s2: int|
                            0 <= s2 < 49 && row_of(s2) == 3 && col_of(s2) < col && drowns(m, rv, mover, dest, s2) && m[s2] == Some((c, Piece::Lion))));
                    }
                }
            }
            col += 1;
        }
        proof {
            assert(self.cells() =~= Seq::new(
                49,
                |sq: int| if drowns(m, rv, mover, dest, sq) {
                    None
                } else {
                    m[sq]
                },
            ));
            assert(self.river() =~= Seq::new(
                49,
                |sq: int|
                    if drowns(m, rv, mover, dest, sq) {
                        0u8
                    } else {
                        counter(m, rv, mover, dest, sq) as u8
                    },
            ));
        }
    }

    fn place(&mut self, color: Player, piece: Piece, sq: usize)
        requires
            sq < 49,
        ensures
            final(self).cells() == old(self).cells().update(sq as int, Some((color, piece))),
            final(self).river() == old(self).river(),
            final(self).mover() == old(self).mover(),
            forall|c: Player| #[trigger] final(self).lion(c) == if piece == Piece::Lion && c == color {
                Some(sq as u8)
            } else {
                old(self).lion(c)
            },
    {
        self.squares[sq] = Some((color, piece));
        if matches!(piece, Piece::Lion) {
            match color {
                Player::Black => self.black_lion = Some(sq as u8),
                Player::White => self.white_lion = Some(sq as u8),
            }
        }
    }

    fn remove(&mut self, sq: usize)
        requires
            sq < 49,
        ensures
            final(self).cells() == old(self).cells().update(sq as int, None),
            final(self).river() == old(self).river(),
            final(self).mover() == old(self).mover(),
            forall|c: Player| #[trigger] final(self).lion(c) == if old(self).cells()[sq as int] == Some((c, Piece::Lion)) {
                None
            } else {
                old(self).lion(c)
            },
    {
        if let Some((color, piece)) = self.squares[sq] {
            self.squares[sq] = None;
            if matches!(piece, Piece::Lion) {
                match color {
                    Player::Black => self.black_lion = None,
                    Player::White => self.white_lion = None,
                }
            }
        }
    }
}

/// Square `i` of the starting position.
fn start_cell(i: usize) -> (c: Cell)
    requires
        i < 49,
    ensures
        c == initial_cell(i as int),
{
    let (r, col) = rc(i);
    let piece = if col == 0 {
        Piece::Giraffe
    } else if col == 1 {
        Piece::Monkey
    } else if col == 2 || col == 4 {
        Piece::Elephant
    } else if col == 3 {
        Piece::Lion
    } else if col == 5 {
        Piece::Crocodile
    } else {
        Piece::Zebra
    };
    if r == 0 {
        Some((Player::Black, piece))
    } else if r == 6 {
        Some((Player::White, piece))
    } else if r == 1 {
        Some((Player::Black, Piece::Pawn))
    } else if r == 5 {
        Some((Player::White, Piece::Pawn))
    } else {
        None
    }
}

impl Default for State {
    /// The starting position.
    fn default() -> (s: State)
        ensures
            s.wf(),
            forall|i: int| 0 <= i < 49 ==> #[trigger] s.cells()[i] == initial_cell(i),
            forall|i: int| 0 <= i < 49 ==> #[trigger] s.river()[i] == 0,
            s.mover() == Player::Black,
    {
        State::initial()
    }
}

} // verus!
