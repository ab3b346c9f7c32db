//! Congo move generation and the end of the game.
//!
//! Each piece's moves are stated as a predicate on a move (`*_move`), and
//! [`State::generate_moves`] adds to its list exactly the moves that satisfy
//! the predicate of some piece of the side to move.

use vstd::prelude::*;
use crate::congo::{
    ascending, canonical, caps_of, castle, col_of, dir8, dir8_c, dir8_r, idx, in_castle, is_simple, kind,
    knight8, knight_c, knight_r, on_board, opponent, ortho4, ortho_c, ortho_r, owner, rc, row_of, square,
    try_pos, Cell, Move, Piece, Player, TerminalStatus, NUM_SQUARES,
};
use crate::go_engine::graph::count_upto;
use crate::congo::state::State;

verus! {

/// Square `t` is empty.
pub open spec fn empty_at(b: Seq<Cell>, t: int) -> bool {
    b[t] is None
}

/// Square `t` holds a piece of the side that is not `mover`.
pub open spec fn enemy_at(b: Seq<Cell>, mover: Player, t: int) -> bool {
    b[t] is Some && owner(b[t]) != mover
}

/// `m` takes the piece on `from` to `t`: a plain move onto an empty
/// square or the capture of an enemy piece there.
pub open spec fn step_to(b: Seq<Cell>, mover: Player, from: int, t: int, m: Move) -> bool {
    ||| empty_at(b, t) && is_simple(m, from, t, None)
    ||| enemy_at(b, mover, t) && is_simple(m, from, t, Some(t))
}

/// `m` moves or captures `n` squares from `from` in king direction `k`.
pub open spec fn king_step(b: Seq<Cell>, mover: Player, from: int, k: int, n: int, m: Move) -> bool {
    let r = row_of(from) + n * dir8_r(k);
    let c = col_of(from) + n * dir8_c(k);
    on_board(r, c) && step_to(b, mover, from, square(r, c), m)
}

/// `m` moves (without capturing) one square from `from` in king direction
/// `k` onto an empty square.
pub open spec fn quiet_step(b: Seq<Cell>, from: int, k: int, m: Move) -> bool {
    let r = row_of(from) + dir8_r(k);
    let c = col_of(from) + dir8_c(k);
    on_board(r, c) && empty_at(b, square(r, c)) && is_simple(m, from, square(r, c), None)
}

/// Giraffe: one step to an empty square, or a two-square leap in any of
/// the eight directions that moves or captures.
pub open spec fn giraffe_dir(b: Seq<Cell>, mover: Player, from: int, k: int, m: Move) -> bool {
    quiet_step(b, from, k, m) || king_step(b, mover, from, k, 2, m)
}

/// Elephant: one or two squares orthogonally, jumping the square between.
pub open spec fn elephant_dir(b: Seq<Cell>, mover: Player, from: int, k: int, m: Move) -> bool {
    let r1 = row_of(from) + ortho_r(k);
    let c1 = col_of(from) + ortho_c(k);
    let r2 = row_of(from) + 2 * ortho_r(k);
    let c2 = col_of(from) + 2 * ortho_c(k);
    ||| on_board(r1, c1) && step_to(b, mover, from, square(r1, c1), m)
    ||| on_board(r2, c2) && step_to(b, mover, from, square(r2, c2), m)
}

/// Zebra: a knight's jump that moves or captures.
pub open spec fn zebra_dir(b: Seq<Cell>, mover: Player, from: int, k: int, m: Move) -> bool {
    let r = row_of(from) + knight_r(k);
    let c = col_of(from) + knight_c(k);
    on_board(r, c) && step_to(b, mover, from, square(r, c), m)
}

/// Lion: one step inside its own castle.
pub open spec fn lion_dir(b: Seq<Cell>, mover: Player, from: int, k: int, m: Move) -> bool {
    let r = row_of(from) + dir8_r(k);
    let c = col_of(from) + dir8_c(k);
    castle(mover, row_of(from), col_of(from)) && on_board(r, c) && castle(mover, r, c) && step_to(
        b,
        mover,
        from,
        square(r, c),
        m,
    )
}

/// The sign of `x`.
pub open spec fn sign(x: int) -> int {
    if x > 0 {
        1
    } else if x < 0 {
        -1
    } else {
        0
    }
}

/// `k` steps of sign `s`.
pub open spec fn offset(s: int, k: int) -> int {
    if s > 0 {
        k
    } else if s < 0 {
        -k
    } else {
        0
    }
}

/// The absolute value of `x`.
pub open spec fn abs(x: int) -> int {
    if x < 0 {
        -x
    } else {
        x
    }
}

/// The `k`-th square from `f` toward `t` along their common line.
pub open spec fn line_sq(f: int, t: int, k: int) -> int {
    square(
        row_of(f) + offset(sign(row_of(t) - row_of(f)), k),
        col_of(f) + offset(sign(col_of(t) - col_of(f)), k),
    )
}

/// `f` and `t` share a file or a diagonal.
pub open spec fn aligned(f: int, t: int) -> bool {
    col_of(t) == col_of(f) || abs(row_of(t) - row_of(f)) == abs(col_of(t) - col_of(f))
}

/// Every square strictly between `f` and `t` along their line is empty.
pub open spec fn line_clear(b: Seq<Cell>, f: int, t: int) -> bool {
    forall|k: int| 1 <= k < abs(row_of(t) - row_of(f)) ==> #[trigger] empty_at(b, line_sq(f, t, k))
}

/// The enemy Lion's square when `mover`'s Lion sees it along a clear
/// file or diagonal.
pub open spec fn sight_target(s: State, mover: Player) -> Option<int> {
    match (s.lion(mover), s.lion(opponent(mover))) {
        (Some(f), Some(t)) => if aligned(f as int, t as int) && line_clear(s.cells(), f as int, t as int) {
            Some(t as int)
        } else {
            None
        },
        _ => None,
    }
}

/// Every square of column `c` strictly between rows `a` and `b` is empty.
pub open spec fn column_clear(b: Seq<Cell>, c: int, a: int, z: int) -> bool {
    forall|r: int| (a < r < z || z < r < a) ==> #[trigger] empty_at(b, square(r, c))
}

/// Every river square strictly between columns `a` and `z` is empty.
pub open spec fn river_clear(b: Seq<Cell>, a: int, z: int) -> bool {
    forall|c: int| (a < c < z || z < c < a) ==> #[trigger] empty_at(b, square(3, c))
}

/// Crocodile slide: along its file toward the river (stopping at or
/// before it), or along the river once in it; the slide stops at the first
/// piece, capturing it if it is an enemy.
pub open spec fn croc_slide(b: Seq<Cell>, mover: Player, from: int, m: Move) -> bool {
    let r = row_of(from);
    let c = col_of(from);
    if r != 3 {
        exists|rr: int|
            (r < rr <= 3 || 3 <= rr < r) && #[trigger] column_clear(b, c, r, rr) && step_to(b, mover, from, square(rr, c), m)
    } else {
        exists|cc: int| 0 <= cc < 7 && cc != c && #[trigger] river_clear(b, c, cc) && step_to(b, mover, from, square(3, cc), m)
    }
}

/// The row direction `mover`'s Pawns advance in.
pub open spec fn forward(mover: Player) -> int {
    match mover {
        Player::Black => 1,
        Player::White => -1,
    }
}

/// `mover`'s piece on row `r` has crossed the river.
pub open spec fn past_river(mover: Player, r: int) -> bool {
    match mover {
        Player::Black => r > 3,
        Player::White => r < 3,
    }
}

/// Pawn or Superpawn step forward, straight or diagonally (`dc` is -1, 0
/// or 1), moving or capturing.
pub open spec fn pawn_forward(b: Seq<Cell>, mover: Player, from: int, dc: int, m: Move) -> bool {
    let r = row_of(from) + forward(mover);
    let c = col_of(from) + dc;
    -1 <= dc <= 1 && on_board(r, c) && step_to(b, mover, from, square(r, c), m)
}

/// Superpawn step sideways (`dc` is -1 or 1), moving or capturing.
pub open spec fn pawn_side(b: Seq<Cell>, mover: Player, from: int, dc: int, m: Move) -> bool {
    let r = row_of(from);
    let c = col_of(from) + dc;
    (dc == -1 || dc == 1) && on_board(r, c) && step_to(b, mover, from, square(r, c), m)
}

/// A one- or two-square backward move onto empty squares, drifting `dcol`
/// columns per square; the second square needs the first to be empty.
pub open spec fn retreat(b: Seq<Cell>, mover: Player, from: int, dcol: int, m: Move) -> bool {
    let f = forward(mover);
    let r1 = row_of(from) - f;
    let c1 = col_of(from) + dcol;
    let r2 = row_of(from) - 2 * f;
    let c2 = col_of(from) + 2 * dcol;
    &&& -1 <= dcol <= 1
    &&& on_board(r1, c1)
    &&& empty_at(b, square(r1, c1))
    &&& {
        ||| is_simple(m, from, square(r1, c1), None)
        ||| on_board(r2, c2) && empty_at(b, square(r2, c2)) && is_simple(m, from, square(r2, c2), None)
    }
}

/// Pawn (or, with `superpawn`, Superpawn) moves.
pub open spec fn pawn_move(b: Seq<Cell>, mover: Player, from: int, superpawn: bool, m: Move) -> bool {
    ||| exists|dc: int| #[trigger] pawn_forward(b, mover, from, dc, m)
    ||| superpawn && exists|dc: int| #[trigger] pawn_side(b, mover, from, dc, m)
    ||| superpawn && exists|dcol: int| #[trigger] retreat(b, mover, from, dcol, m)
    ||| !superpawn && past_river(mover, row_of(from)) && retreat(b, mover, from, 0, m)
}

/// The square a Monkey jumping from `pos` in direction `k` jumps over.
pub open spec fn jump_mid(pos: int, k: int) -> int {
    square(row_of(pos) + dir8_r(k), col_of(pos) + dir8_c(k))
}

/// The square a Monkey jumping from `pos` in direction `k` lands on.
pub open spec fn jump_land(pos: int, k: int) -> int {
    square(row_of(pos) + 2 * dir8_r(k), col_of(pos) + 2 * dir8_c(k))
}

/// Where a Monkey starting on `from` stands after the jumps `dirs`.
pub open spec fn land_after(from: int, dirs: Seq<int>) -> int
    decreases dirs.len(),
{
    if dirs.len() == 0 {
        from
    } else {
        jump_land(land_after(from, dirs.drop_last()), dirs.last())
    }
}

/// The squares jumped over by the jumps `dirs` from `from`, in order.
pub open spec fn mids_of(from: int, dirs: Seq<int>) -> Seq<int>
    decreases dirs.len(),
{
    if dirs.len() == 0 {
        Seq::empty()
    } else {
        mids_of(from, dirs.drop_last()).push(jump_mid(land_after(from, dirs.drop_last()), dirs.last()))
    }
}

/// After the jumps `dirs`, a further jump in direction `k` is allowed: it
/// stays on the board, passes over an enemy piece not yet jumped, and
/// lands on an empty square (the Monkey's own starting square counts as
/// empty).
pub open spec fn jump_ok(b: Seq<Cell>, mover: Player, from: int, dirs: Seq<int>, k: int) -> bool {
    let pos = land_after(from, dirs);
    let mid = jump_mid(pos, k);
    let land = jump_land(pos, k);
    &&& 0 <= k < 8
    &&& on_board(row_of(pos) + 2 * dir8_r(k), col_of(pos) + 2 * dir8_c(k))
    &&& enemy_at(b, mover, mid)
    &&& !mids_of(from, dirs).contains(mid)
    &&& (land == from || empty_at(b, land))
}

/// Every jump of `dirs` is allowed after the ones before it.
pub open spec fn chain_valid(b: Seq<Cell>, mover: Player, from: int, dirs: Seq<int>) -> bool
    decreases dirs.len(),
{
    dirs.len() == 0 || (chain_valid(b, mover, from, dirs.drop_last()) && jump_ok(
        b,
        mover,
        from,
        dirs.drop_last(),
        dirs.last(),
    ))
}

/// `m` is the move of the jump chain `dirs` from `from`: it lands where
/// the chain ends and captures exactly the jumped squares, listed in
/// ascending order.
pub open spec fn chain_move_for(from: int, dirs: Seq<int>, m: Move) -> bool {
    &&& m.from == from
    &&& m.to == land_after(from, dirs)
    &&& canonical(m)
    &&& ascending(caps_of(m))
    &&& forall|x: u8| #[trigger] caps_of(m).contains(x) <==> mids_of(from, dirs).contains(x as int)
}

/// `m` is a Monkey's capturing jump chain from `from`; stopping after any
/// jump of a chain is allowed.
pub open spec fn chain_move(b: Seq<Cell>, mover: Player, from: int, m: Move) -> bool {
    exists|dirs: Seq<int>| dirs.len() >= 1 && chain_valid(b, mover, from, dirs) && #[trigger] chain_move_for(from, dirs, m)
}

/// Monkey: one step to an empty square, or a chain of jump captures.
pub open spec fn monkey_move(b: Seq<Cell>, mover: Player, from: int, m: Move) -> bool {
    ||| exists|k: int| 0 <= k < 8 && #[trigger] quiet_step(b, from, k, m)
    ||| chain_move(b, mover, from, m)
}

/// `m` is a move of `piece` standing on `from` for the side to move.
pub open spec fn piece_move(s: State, from: int, piece: Piece, m: Move) -> bool {
    let b = s.cells();
    let mover = s.mover();
    match piece {
        Piece::Giraffe => exists|k: int| 0 <= k < 8 && #[trigger] giraffe_dir(b, mover, from, k, m),
        Piece::Monkey => monkey_move(b, mover, from, m),
        Piece::Elephant => exists|k: int| 0 <= k < 4 && #[trigger] elephant_dir(b, mover, from, k, m),
        Piece::Lion => (exists|k: int| 0 <= k < 8 && #[trigger] lion_dir(b, mover, from, k, m)) || (sight_target(
            s,
            mover,
        ) matches Some(t) && is_simple(m, from, t, Some(t))),
        Piece::Crocodile => (exists|k: int| 0 <= k < 8 && #[trigger] king_step(b, mover, from, k, 1, m)) || croc_slide(
            b,
            mover,
            from,
            m,
        ),
        Piece::Zebra => exists|k: int| 0 <= k < 8 && #[trigger] zebra_dir(b, mover, from, k, m),
        Piece::Pawn => pawn_move(b, mover, from, false, m),
        Piece::Superpawn => pawn_move(b, mover, from, true, m),
    }
}

/// `m` is a legal move in `s`: a move of one of the mover's pieces.
pub open spec fn legal(s: State, m: Move) -> bool {
    let b = s.cells();
    &&& m.from < 49
    &&& b[m.from as int] is Some
    &&& owner(b[m.from as int]) == s.mover()
    &&& piece_move(s, m.from as int, kind(b[m.from as int]), m)
}

/// `(dr, dc)` is one of the four orthogonal unit steps.
pub open spec fn orthogonal_unit(dr: int, dc: int) -> bool {
    ||| dr == 0 && (dc == 1 || dc == -1)
    ||| dc == 0 && (dr == 1 || dr == -1)
}

/// `m` takes the piece on `from` `n` squares along `(dr, dc)`, onto an
/// empty square, or onto an enemy piece that it captures.
pub open spec fn lands_at(s: State, from: int, dr: int, dc: int, n: int, m: Move) -> bool {
    let r = row_of(from) + n * dr;
    let c = col_of(from) + n * dc;
    let t = square(r, c);
    &&& on_board(r, c)
    &&& {
        ||| s.cells()[t] is None && is_simple(m, from, t, None)
        ||| s.cells()[t] is Some && owner(s.cells()[t]) != s.mover() && is_simple(m, from, t, Some(t))
    }
}

/// An Elephant of the side to move may go one or two squares in each
/// orthogonal direction, jumping the square between, onto an empty square
/// or onto an enemy piece it captures: every such move is legal.
pub proof fn lemma_elephant_reaches(s: State, from: int, dr: int, dc: int, n: int, m: Move)
    requires
        0 <= from < 49,
        s.cells()[from] is Some,
        owner(s.cells()[from]) == s.mover(),
        kind(s.cells()[from]) == Piece::Elephant,
        orthogonal_unit(dr, dc),
        n == 1 || n == 2,
        lands_at(s, from, dr, dc, n, m),
    ensures
        legal(s, m),
{
    let k: int = if dr == -1 {
        0
    } else if dr == 1 {
        1
    } else if dc == -1 {
        2
    } else {
        3
    };
    assert(ortho_r(k) == dr && ortho_c(k) == dc);
    if n == 1 {
        assert(row_of(from) + n * dr == row_of(from) + ortho_r(k));
        assert(col_of(from) + n * dc == col_of(from) + ortho_c(k));
    } else {
        assert(row_of(from) + n * dr == row_of(from) + 2 * ortho_r(k));
        assert(col_of(from) + n * dc == col_of(from) + 2 * ortho_c(k));
    }
    assert(elephant_dir(s.cells(), s.mover(), from, k, m));
}

/// An Elephant goes nowhere else: each legal move of one lands one or two
/// squares away in an orthogonal direction.
pub proof fn lemma_elephant_moves_only(s: State, m: Move)
    requires
        legal(s, m),
        kind(s.cells()[m.from as int]) == Piece::Elephant,
    ensures
        exists|dr: int, dc: int, n: int|
            orthogonal_unit(dr, dc) && (n == 1 || n == 2) && #[trigger] lands_at(s, m.from as int, dr, dc, n, m),
{
    let from = m.from as int;
    let k = choose|k: int| 0 <= k < 4 && #[trigger] elephant_dir(s.cells(), s.mover(), from, k, m);
    let dr = ortho_r(k);
    let dc = ortho_c(k);
    assert(orthogonal_unit(dr, dc));
    if on_board(row_of(from) + dr, col_of(from) + dc) && step_to(s.cells(), s.mover(), from, square(row_of(from) + dr, col_of(from) + dc), m) {
        assert(row_of(from) + 1 * dr == row_of(from) + dr);
        assert(col_of(from) + 1 * dc == col_of(from) + dc);
        assert(lands_at(s, from, dr, dc, 1, m));
    } else {
        assert(row_of(from) + 2 * dr == row_of(from) + 2 * ortho_r(k));
        assert(lands_at(s, from, dr, dc, 2, m));
    }
}

/// Two moves with the same squares and captures are the same move.
pub proof fn lemma_simple_unique(m1: Move, m2: Move, from: int, to: int, cap: Option<int>)
    requires
        is_simple(m1, from, to, cap),
        is_simple(m2, from, to, cap),
    ensures
        m1 == m2,
{
    assert(m1.captures =~= m2.captures) by {
        assert forall|k: int| 0 <= k < 16 implies m1.captures[k] == m2.captures[k] by {
            if k >= m1.num_captures {
                assert(m1.captures@[k] == 0);
                assert(m2.captures@[k] == 0);
            }
        }
    }
}

/// Pushing `x` adds exactly `x`.
proof fn lemma_push_contains(s: Seq<Move>, x: Move, m: Move)
    ensures
        s.push(x).contains(m) <==> (s.contains(m) || m == x),
{
    if s.push(x).contains(m) {
        let j = choose|j: int| 0 <= j < s.push(x).len() && s.push(x)[j] == m;
        if j < s.len() {
            assert(s[j] == m);
        }
    }
    if s.contains(m) {
        let j = choose|j: int| 0 <= j < s.len() && s[j] == m;
        assert(s.push(x)[j] == m);
    }
    if m == x {
        assert(s.push(x)[s.len() as int] == m);
    }
}

/// Appends the plain move from `from` to `to`.
fn push_simple(actions: &mut Vec<Move>, from: usize, to: usize, cap: bool)
    requires
        from < 49,
        to < 49,
    ensures
        forall|m: Move| #[trigger] final(actions)@.contains(m) <==> (old(actions)@.contains(m) || is_simple(
            m,
            from as int,
            to as int,
            if cap {
                Some(to as int)
            } else {
                None
            },
        )),
{
    let x = Move::simple(from, to, if cap { Some(to) } else { None });
    let ghost before = actions@;
    actions.push(x);
    proof {
        assert forall|m: Move| #[trigger] actions@.contains(m) <==> (before.contains(m) || is_simple(
            m,
            from as int,
            to as int,
            if cap {
                Some(to as int)
            } else {
                None
            },
        )) by {
            lemma_push_contains(before, x, m);
            if is_simple(m, from as int, to as int, if cap { Some(to as int) } else { None }) {
                lemma_simple_unique(m, x, from as int, to as int, if cap { Some(to as int) } else { None });
            }
        }
    }
}

/// Extending a loop over directions by direction `k`.
proof fn lemma_next_dir(base: Seq<Move>, prev: Seq<Move>, cur: Seq<Move>, f: spec_fn(int, Move) -> bool, k: int)
    requires
        0 <= k,
        forall|m: Move| #[trigger] prev.contains(m) <==> (base.contains(m) || exists|j: int| 0 <= j < k && #[trigger] f(j, m)),
        forall|m: Move| #[trigger] cur.contains(m) <==> (prev.contains(m) || f(k, m)),
    ensures
        forall|m: Move| #[trigger] cur.contains(m) <==> (base.contains(m) || exists|j: int| 0 <= j < k + 1 && #[trigger] f(j, m)),
{
    assert forall|m: Move| #[trigger] cur.contains(m) <==> (base.contains(m) || exists|j: int| 0 <= j < k + 1 && #[trigger] f(j, m)) by {
        if exists|j: int| 0 <= j < k + 1 && #[trigger] f(j, m) {
            let j = choose|j: int| 0 <= j < k + 1 && #[trigger] f(j, m);
            if j < k {
                assert(prev.contains(m));
            }
        }
        if prev.contains(m) && !base.contains(m) {
            let j = choose|j: int| 0 <= j < k && #[trigger] f(j, m);
            assert(0 <= j < k + 1 && f(j, m));
        }
        if f(k, m) {
            assert(0 <= k < k + 1 && f(k, m));
        }
    }
}

/// Chaining two additions.
proof fn lemma_adds_trans(a: Seq<Move>, b: Seq<Move>, c: Seq<Move>, f: spec_fn(Move) -> bool, g: spec_fn(Move) -> bool)
    requires
        forall|m: Move| #[trigger] b.contains(m) <==> (a.contains(m) || f(m)),
        forall|m: Move| #[trigger] c.contains(m) <==> (b.contains(m) || g(m)),
    ensures
        forall|m: Move| #[trigger] c.contains(m) <==> (a.contains(m) || f(m) || g(m)),
{
    assert forall|m: Move| #[trigger] c.contains(m) <==> (a.contains(m) || f(m) || g(m)) by {
        assert(b.contains(m) <==> (a.contains(m) || f(m)));
    }
}

impl State {
    /// Adds a move to `t` if it is empty (a plain move) or holds an enemy
    /// piece (a capture); a friendly piece there blocks it.
    fn push_step(&self, actions: &mut Vec<Move>, from: usize, t: usize, mover: Player)
        requires
            self.wf(),
            from < 49,
            t < 49,
        ensures
            forall|m: Move| #[trigger] final(actions)@.contains(m) <==> (old(actions)@.contains(m) || step_to(
                self.cells(),
                mover,
                from as int,
                t as int,
                m,
            )),
    {
        match self.get(t) {
            None => push_simple(actions, from, t, false),
            Some((color, _)) => {
                if color != mover {
                    push_simple(actions, from, t, true);
                } else {
                    proof {
                        assert forall|m: Move| !step_to(self.cells(), mover, from as int, t as int, m) by {}
                    }
                }
            },
        }
    }
}

impl State {
    fn giraffe_moves(&self, i: usize, mover: Player, actions: &mut Vec<Move>)
        requires
            self.wf(),
            i < 49,
        ensures
            forall|m: Move| #[trigger] final(actions)@.contains(m) <==> (old(actions)@.contains(m) || exists|k: int|
                0 <= k < 8 && #[trigger] giraffe_dir(self.cells(), mover, i as int, k, m)),
    {
        let ghost base = actions@;
        let ghost f = |k: int, m: Move| giraffe_dir(self.cells(), mover, i as int, k, m);
        let (r, c) = rc(i);
        let mut k: usize = 0;
        while k < 8
            invariant
                self.wf(),
                i < 49,
                r == row_of(i as int),
                c == col_of(i as int),
                k <= 8,
                f == (|k: int, m: Move| giraffe_dir(self.cells(), mover, i as int, k, m)),
                forall|m: Move| #[trigger] actions@.contains(m) <==> (base.contains(m) || exists|j: int| 0 <= j < k && #[trigger] f(j, m)),
            decreases 8 - k,
        {
            let ghost prev = actions@;
            let (dr, dc) = dir8(k);
            if let Some(t) = try_pos(r + dr, c + dc) {
                if self.get(t).is_none() {
                    push_simple(actions, i, t, false);
                }
            }
            let ghost mid = actions@;
            if let Some(t2) = try_pos(r + 2 * dr, c + 2 * dc) {
                self.push_step(actions, i, t2, mover);
            }
            proof {
                assert forall|m: Move| #[trigger] actions@.contains(m) <==> (prev.contains(m) || f(k as int, m)) by {
                    assert(mid.contains(m) <==> (prev.contains(m) || quiet_step(self.cells(), i as int, k as int, m)));
                }
                lemma_next_dir(base, prev, actions@, f, k as int);
            }
            k += 1;
        }
        proof {
            assert forall|m: Move| #[trigger] actions@.contains(m) <==> (base.contains(m) || exists|k: int|
                0 <= k < 8 && #[trigger] giraffe_dir(self.cells(), mover, i as int, k, m)) by {
                if exists|j: int| 0 <= j < 8 && #[trigger] f(j, m) {
                    let j = choose|j: int| 0 <= j < 8 && #[trigger] f(j, m);
                    assert(giraffe_dir(self.cells(), mover, i as int, j, m));
                }
                if exists|k: int| 0 <= k < 8 && #[trigger] giraffe_dir(self.cells(), mover, i as int, k, m) {
                    let k = choose|k: int| 0 <= k < 8 && #[trigger] giraffe_dir(self.cells(), mover, i as int, k, m);
                    assert(f(k, m));
                }
            }
        }
    }

    fn elephant_moves(&self, i: usize, mover: Player, actions: &mut Vec<Move>)
        requires
            self.wf(),
            i < 49,
        ensures
            forall|m: Move| #[trigger] final(actions)@.contains(m) <==> (old(actions)@.contains(m) || exists|k: int|
                0 <= k < 4 && #[trigger] elephant_dir(self.cells(), mover, i as int, k, m)),
    {
        let ghost base = actions@;
        let ghost f = |k: int, m: Move| elephant_dir(self.cells(), mover, i as int, k, m);
        let (r, c) = rc(i);
        let mut k: usize = 0;
        while k < 4
            invariant
                self.wf(),
                i < 49,
                r == row_of(i as int),
                c == col_of(i as int),
                k <= 4,
                f == (|k: int, m: Move| elephant_dir(self.cells(), mover, i as int, k, m)),
                forall|m: Move| #[trigger] actions@.contains(m) <==> (base.contains(m) || exists|j: int| 0 <= j < k && #[trigger] f(j, m)),
            decreases 4 - k,
        {
            let ghost prev = actions@;
            let (dr, dc) = ortho4(k);
            if let Some(t) = try_pos(r + dr, c + dc) {
                self.push_step(actions, i, t, mover);
            }
            let ghost mid = actions@;
            if let Some(t2) = try_pos(r + 2 * dr, c + 2 * dc) {
                self.push_step(actions, i, t2, mover);
            }
            proof {
                assert forall|m: Move| #[trigger] actions@.contains(m) <==> (prev.contains(m) || f(k as int, m)) by {
                    assert(mid.contains(m) <==> (prev.contains(m) || (on_board(r + dr, c + dc) && step_to(
                        self.cells(),
                        mover,
                        i as int,
                        square(r + dr, c + dc),
                        m,
                    ))));
                }
                lemma_next_dir(base, prev, actions@, f, k as int);
            }
            k += 1;
        }
        proof {
            assert forall|m: Move| #[trigger] actions@.contains(m) <==> (base.contains(m) || exists|k: int|
                0 <= k < 4 && #[trigger] elephant_dir(self.cells(), mover, i as int, k, m)) by {
                if exists|j: int| 0 <= j < 4 && #[trigger] f(j, m) {
                    let j = choose|j: int| 0 <= j < 4 && #[trigger] f(j, m);
                    assert(elephant_dir(self.cells(), mover, i as int, j, m));
                }
                if exists|k: int| 0 <= k < 4 && #[trigger] elephant_dir(self.cells(), mover, i as int, k, m) {
                    let k = choose|k: int| 0 <= k < 4 && #[trigger] elephant_dir(self.cells(), mover, i as int, k, m);
                    assert(f(k, m));
                }
            }
        }
    }

    fn zebra_moves(&self, i: usize, mover: Player, actions: &mut Vec<Move>)
        requires
            self.wf(),
            i < 49,
        ensures
            forall|m: Move| #[trigger] final(actions)@.contains(m) <==> (old(actions)@.contains(m) || exists|k: int|
                0 <= k < 8 && #[trigger] zebra_dir(self.cells(), mover, i as int, k, m)),
    {
        let ghost base = actions@;
        let ghost f = |k: int, m: Move| zebra_dir(self.cells(), mover, i as int, k, m);
        let (r, c) = rc(i);
        let mut k: usize = 0;
        while k < 8
            invariant
                self.wf(),
                i < 49,
                r == row_of(i as int),
                c == col_of(i as int),
                k <= 8,
                f == (|k: int, m: Move| zebra_dir(self.cells(), mover, i as int, k, m)),
                forall|m: Move| #[trigger] actions@.contains(m) <==> (base.contains(m) || exists|j: int| 0 <= j < k && #[trigger] f(j, m)),
            decreases 8 - k,
        {
            let ghost prev = actions@;
            let (dr, dc) = knight8(k);
            if let Some(t) = try_pos(r + dr, c + dc) {
                self.push_step(actions, i, t, mover);
            }
            proof {
                lemma_next_dir(base, prev, actions@, f, k as int);
            }
            k += 1;
        }
        proof {
            assert forall|m: Move| #[trigger] actions@.contains(m) <==> (base.contains(m) || exists|k: int|
                0 <= k < 8 && #[trigger] zebra_dir(self.cells(), mover, i as int, k, m)) by {
                if exists|j: int| 0 <= j < 8 && #[trigger] f(j, m) {
                    let j = choose|j: int| 0 <= j < 8 && #[trigger] f(j, m);
                    assert(zebra_dir(self.cells(), mover, i as int, j, m));
                }
                if exists|k: int| 0 <= k < 8 && #[trigger] zebra_dir(self.cells(), mover, i as int, k, m) {
                    let k = choose|k: int| 0 <= k < 8 && #[trigger] zebra_dir(self.cells(), mover, i as int, k, m);
                    assert(f(k, m));
                }
            }
        }
    }

    /// One step in each of the eight directions, moving or capturing.
    fn king_steps(&self, i: usize, mover: Player, actions: &mut Vec<Move>)
        requires
            self.wf(),
            i < 49,
        ensures
            forall|m: Move| #[trigger] final(actions)@.contains(m) <==> (old(actions)@.contains(m) || exists|k: int|
                0 <= k < 8 && #[trigger] king_step(self.cells(), mover, i as int, k, 1, m)),
    {
        let ghost base = actions@;
        let ghost f = |k: int, m: Move| king_step(self.cells(), mover, i as int, k, 1, m);
        let (r, c) = rc(i);
        let mut k: usize = 0;
        while k < 8
            invariant
                self.wf(),
                i < 49,
                r == row_of(i as int),
                c == col_of(i as int),
                k <= 8,
                f == (|k: int, m: Move| king_step(self.cells(), mover, i as int, k, 1, m)),
                forall|m: Move| #[trigger] actions@.contains(m) <==> (base.contains(m) || exists|j: int| 0 <= j < k && #[trigger] f(j, m)),
            decreases 8 - k,
        {
            let ghost prev = actions@;
            let (dr, dc) = dir8(k);
            if let Some(t) = try_pos(r + dr, c + dc) {
                self.push_step(actions, i, t, mover);
            }
            proof {
                lemma_next_dir(base, prev, actions@, f, k as int);
            }
            k += 1;
        }
        proof {
            assert forall|m: Move| #[trigger] actions@.contains(m) <==> (base.contains(m) || exists|k: int|
                0 <= k < 8 && #[trigger] king_step(self.cells(), mover, i as int, k, 1, m)) by {
                if exists|j: int| 0 <= j < 8 && #[trigger] f(j, m) {
                    let j = choose|j: int| 0 <= j < 8 && #[trigger] f(j, m);
                    assert(king_step(self.cells(), mover, i as int, j, 1, m));
                }
                if exists|k: int| 0 <= k < 8 && #[trigger] king_step(self.cells(), mover, i as int, k, 1, m) {
                    let k = choose|k: int| 0 <= k < 8 && #[trigger] king_step(self.cells(), mover, i as int, k, 1, m);
                    assert(f(k, m));
                }
            }
        }
    }
}

impl State {
    /// The enemy Lion's square when the Lion of `mover` sees it along a
    /// clear file or diagonal.
    pub fn lion_sight_target(&self, mover: Player) -> (r: Option<usize>)
        requires
            self.wf(),
        ensures
            match r {
                Some(t) => sight_target(*self, mover) == Some(t as int) && t < 49,
                None => sight_target(*self, mover) is None,
            },
    {
        let from = match self.lion_square(mover) {
            Some(f) => f as usize,
            None => {
                return None;
            },
        };
        let to = match self.lion_square(mover.next()) {
            Some(t) => t as usize,
            None => {
                return None;
            },
        };
        let (r1, c1) = rc(from);
        let (r2, c2) = rc(to);
        let dr = r2 - r1;
        let dc = c2 - c1;
        let adr = if dr < 0 {
            -dr
        } else {
            dr
        };
        let adc = if dc < 0 {
            -dc
        } else {
            dc
        };
        if !(dc == 0 || adr == adc) {
            return None;
        }
        let sr: i32 = if dr > 0 {
            1
        } else if dr < 0 {
            -1
        } else {
            0
        };
        let sc: i32 = if dc > 0 {
            1
        } else if dc < 0 {
            -1
        } else {
            0
        };
        let ghost b = self.cells();
        let mut k: i32 = 1;
        while k < adr
            invariant
                self.wf(),
                b == self.cells(),
                self.lion(mover) == Some(from as u8),
                self.lion(opponent(mover)) == Some(to as u8),
                from < 49,
                to < 49,
                r1 == row_of(from as int),
                c1 == col_of(from as int),
                dr == row_of(to as int) - r1,
                dc == col_of(to as int) - c1,
                1 <= k,
                k <= adr || adr == 0,
                adr == abs(dr as int),
                dc == 0 || adr == abs(dc as int),
                sr == sign(dr as int),
                sc == sign(dc as int),
                on_board(r1 as int, c1 as int),
                on_board(r1 + dr, c1 + dc),
                forall|j: int| 1 <= j < k ==> #[trigger] empty_at(b, line_sq(from as int, to as int, j)),
            decreases adr - k,
        {
            let r = if sr > 0 {
                r1 + k
            } else if sr < 0 {
                r1 - k
            } else {
                r1
            };
            let c = if sc > 0 {
                c1 + k
            } else if sc < 0 {
                c1 - k
            } else {
                c1
            };
            if self.get(idx(r, c)).is_some() {
                proof {
                    assert(r == r1 + offset(sr as int, k as int));
                    assert(c == c1 + offset(sc as int, k as int));
                    assert(!empty_at(b, square(r1 + offset(sr as int, k as int), c1 + offset(sc as int, k as int))));
                    assert(line_sq(from as int, to as int, k as int) == square(r1 + offset(sr as int, k as int), c1 + offset(sc as int, k as int)));
                    assert(!empty_at(self.cells(), line_sq(from as int, to as int, k as int)));
                    assert(!line_clear(self.cells(), from as int, to as int));
                }
                return None;
            }
            k += 1;
        }
        Some(to)
    }

    fn lion_moves(&self, i: usize, mover: Player, actions: &mut Vec<Move>)
        requires
            self.wf(),
            i < 49,
            mover == self.mover(),
        ensures
            forall|m: Move| #[trigger] final(actions)@.contains(m) <==> (old(actions)@.contains(m) || piece_move(
                *self,
                i as int,
                Piece::Lion,
                m,
            )),
    {
        let ghost base = actions@;
        let ghost f = |k: int, m: Move| lion_dir(self.cells(), mover, i as int, k, m);
        let (r, c) = rc(i);
        if in_castle(mover, r, c) {
            let mut k: usize = 0;
            while k < 8
                invariant
                    self.wf(),
                    i < 49,
                    r == row_of(i as int),
                    c == col_of(i as int),
                    castle(mover, r as int, c as int),
                    k <= 8,
                    f == (|k: int, m: Move| lion_dir(self.cells(), mover, i as int, k, m)),
                    forall|m: Move| #[trigger] actions@.contains(m) <==> (base.contains(m) || exists|j: int| 0 <= j < k && #[trigger] f(j, m)),
                decreases 8 - k,
            {
                let ghost prev = actions@;
                let (dr, dc) = dir8(k);
                if let Some(t) = try_pos(r + dr, c + dc) {
                    let (tr, tc) = rc(t);
                    if in_castle(mover, tr, tc) {
                        self.push_step(actions, i, t, mover);
                    }
                }
                proof {
                    lemma_next_dir(base, prev, actions@, f, k as int);
                }
                k += 1;
            }
        } else {
            proof {
                assert forall|m: Move| #[trigger] actions@.contains(m) <==> (base.contains(m) || exists|j: int| 0 <= j < 8 && #[trigger] f(j, m)) by {}
            }
        }
        let ghost mid = actions@;
        let target = self.lion_sight_target(mover);
        if let Some(t) = target {
            push_simple(actions, i, t, true);
        }
        proof {
            assert forall|m: Move| #[trigger] actions@.contains(m) <==> (base.contains(m) || piece_move(*self, i as int, Piece::Lion, m)) by {
                assert(mid.contains(m) <==> (base.contains(m) || exists|j: int| 0 <= j < 8 && #[trigger] f(j, m)));
                if exists|j: int| 0 <= j < 8 && #[trigger] f(j, m) {
                    let j = choose|j: int| 0 <= j < 8 && #[trigger] f(j, m);
                    assert(lion_dir(self.cells(), mover, i as int, j, m));
                }
                if exists|k: int| 0 <= k < 8 && #[trigger] lion_dir(self.cells(), mover, i as int, k, m) {
                    let k = choose|k: int| 0 <= k < 8 && #[trigger] lion_dir(self.cells(), mover, i as int, k, m);
                    assert(f(k, m));
                }
            }
        }
    }
}

impl State {
    /// Crocodile slide along its file toward the river.
    fn croc_file_slide(&self, i: usize, mover: Player, actions: &mut Vec<Move>)
        requires
            self.wf(),
            i < 49,
            row_of(i as int) != 3,
        ensures
            forall|m: Move| #[trigger] final(actions)@.contains(m) <==> (old(actions)@.contains(m) || croc_slide(
                self.cells(),
                mover,
                i as int,
                m,
            )),
    {
        let ghost base = actions@;
        let ghost b = self.cells();
        let (r, c) = rc(i);
        let dir: i32 = if r > 3 {
            -1
        } else {
            1
        };
        let mut rr = r;
        let mut blocked = false;
        while rr != 3 && !blocked
            invariant
                self.wf(),
                b == self.cells(),
                i < 49,
                r == row_of(i as int),
                c == col_of(i as int),
                on_board(r as int, c as int),
                r != 3,
                (dir == 1 && r < 3 && r <= rr <= 3) || (dir == -1 && r > 3 && 3 <= rr <= r),
                column_clear(b, c as int, r as int, rr as int),
                !blocked ==> (rr == r || empty_at(b, square(rr as int, c as int))),
                blocked ==> rr != r && !empty_at(b, square(rr as int, c as int)),
                forall|m: Move| #[trigger] actions@.contains(m) <==> (base.contains(m) || exists|x: int|
                    (r < x <= rr || rr <= x < r) && #[trigger] column_clear(b, c as int, r as int, x) && step_to(
                        b,
                        mover,
                        i as int,
                        square(x, c as int),
                        m,
                    )),
            decreases if rr <= 3 {
                3 - rr
            } else {
                rr - 3
            },
        {
            let ghost prev = actions@;
            let ghost old_rr = rr;
            rr = rr + dir;
            let t = idx(rr, c);
            self.push_step(actions, i, t, mover);
            if self.get(t).is_some() {
                blocked = true;
            }
            proof {
                assert(column_clear(b, c as int, r as int, rr as int)) by {
                    assert forall|y: int| (r < y < rr || rr < y < r) implies #[trigger] empty_at(b, square(y, c as int)) by {
                        if y != old_rr {
                            assert(column_clear(b, c as int, r as int, old_rr as int));
                        }
                    }
                }
                assert forall|m: Move| #[trigger] actions@.contains(m) <==> (base.contains(m) || exists|x: int|
                    (r < x <= rr || rr <= x < r) && #[trigger] column_clear(b, c as int, r as int, x) && step_to(
                        b,
                        mover,
                        i as int,
                        square(x, c as int),
                        m,
                    )) by {
                    if exists|x: int|
                        (r < x <= rr || rr <= x < r) && #[trigger] column_clear(b, c as int, r as int, x) && step_to(
                            b,
                            mover,
                            i as int,
                            square(x, c as int),
                            m,
                        ) {
                        let x = choose|x: int|
                            (r < x <= rr || rr <= x < r) && #[trigger] column_clear(b, c as int, r as int, x) && step_to(
                                b,
                                mover,
                                i as int,
                                square(x, c as int),
                                m,
                            );
                        if x != rr {
                            assert(prev.contains(m));
                        }
                    }
                    if prev.contains(m) && !base.contains(m) {
                        let x = choose|x: int|
                            (r < x <= old_rr || old_rr <= x < r) && #[trigger] column_clear(b, c as int, r as int, x) && step_to(
                                b,
                                mover,
                                i as int,
                                square(x, c as int),
                                m,
                            );
                        assert((r < x <= rr || rr <= x < r) && column_clear(b, c as int, r as int, x));
                    }
                }
            }
        }
        proof {
            assert forall|m: Move| #[trigger] actions@.contains(m) <==> (base.contains(m) || croc_slide(b, mover, i as int, m)) by {
                if croc_slide(b, mover, i as int, m) {
                    let x = choose|x: int|
                        (r < x <= 3 || 3 <= x < r) && #[trigger] column_clear(b, c as int, r as int, x) && step_to(
                            b,
                            mover,
                            i as int,
                            square(x, c as int),
                            m,
                        );
                    if !(r < x <= rr || rr <= x < r) {
                        assert(blocked);
                        assert(r < rr < x || x < rr < r);
                        assert(empty_at(b, square(rr as int, c as int)));
                    }
                }
            }
        }
    }

    /// Crocodile slide along the river, toward higher columns when `up`.
    fn croc_river_slide(&self, i: usize, mover: Player, up: bool, actions: &mut Vec<Move>)
        requires
            self.wf(),
            i < 49,
            row_of(i as int) == 3,
        ensures
            forall|m: Move| #[trigger] final(actions)@.contains(m) <==> (old(actions)@.contains(m) || exists|x: int|
                0 <= x < 7 && (if up {
                    x > col_of(i as int)
                } else {
                    x < col_of(i as int)
                }) && #[trigger] river_clear(self.cells(), col_of(i as int), x) && step_to(
                    self.cells(),
                    mover,
                    i as int,
                    square(3, x),
                    m,
                )),
    {
        let ghost base = actions@;
        let ghost b = self.cells();
        let (_, c) = rc(i);
        let dc: i32 = if up {
            1
        } else {
            -1
        };
        let limit: i32 = if up {
            6
        } else {
            0
        };
        let mut cc = c;
        let mut blocked = false;
        while cc != limit && !blocked
            invariant
                limit == (if up {
                    6i32
                } else {
                    0i32
                }),
                self.wf(),
                b == self.cells(),
                i < 49,
                c == col_of(i as int),
                0 <= c < 7,
                dc == (if up {
                    1i32
                } else {
                    -1i32
                }),
                if up {
                    c <= cc <= 6
                } else {
                    0 <= cc <= c
                },
                river_clear(b, c as int, cc as int),
                !blocked ==> (cc == c || empty_at(b, square(3, cc as int))),
                blocked ==> cc != c && !empty_at(b, square(3, cc as int)),
                forall|m: Move| #[trigger] actions@.contains(m) <==> (base.contains(m) || exists|x: int|
                    (c < x <= cc || cc <= x < c) && #[trigger] river_clear(b, c as int, x) && step_to(b, mover, i as int, square(3, x), m)),
            decreases if up {
                6 - cc
            } else {
                cc as int
            },
        {
            let ghost prev = actions@;
            let ghost old_cc = cc;
            cc = cc + dc;
            let t = idx(3, cc);
            self.push_step(actions, i, t, mover);
            if self.get(t).is_some() {
                blocked = true;
            }
            proof {
                assert(river_clear(b, c as int, cc as int)) by {
                    assert forall|y: int| (c < y < cc || cc < y < c) implies #[trigger] empty_at(b, square(3, y)) by {
                        if y != old_cc {
                            assert(river_clear(b, c as int, old_cc as int));
                        }
                    }
                }
                assert forall|m: Move| #[trigger] actions@.contains(m) <==> (base.contains(m) || exists|x: int|
                    (c < x <= cc || cc <= x < c) && #[trigger] river_clear(b, c as int, x) && step_to(b, mover, i as int, square(3, x), m)) by {
                    if exists|x: int|
                        (c < x <= cc || cc <= x < c) && #[trigger] river_clear(b, c as int, x) && step_to(b, mover, i as int, square(3, x), m) {
                        let x = choose|x: int|
                            (c < x <= cc || cc <= x < c) && #[trigger] river_clear(b, c as int, x) && step_to(b, mover, i as int, square(3, x), m);
                        if x != cc {
                            assert(prev.contains(m));
                        }
                    }
                    if prev.contains(m) && !base.contains(m) {
                        let x = choose|x: int|
                            (c < x <= old_cc || old_cc <= x < c) && #[trigger] river_clear(b, c as int, x) && step_to(
                                b,
                                mover,
                                i as int,
                                square(3, x),
                                m,
                            );
                        assert((c < x <= cc || cc <= x < c) && river_clear(b, c as int, x));
                    }
                }
            }
        }
        proof {
            assert forall|m: Move| #[trigger] actions@.contains(m) <==> (base.contains(m) || exists|x: int|
                0 <= x < 7 && (if up {
                    x > col_of(i as int)
                } else {
                    x < col_of(i as int)
                }) && #[trigger] river_clear(b, col_of(i as int), x) && step_to(b, mover, i as int, square(3, x), m)) by {
                if exists|x: int|
                    0 <= x < 7 && (if up {
                        x > col_of(i as int)
                    } else {
                        x < col_of(i as int)
                    }) && #[trigger] river_clear(b, col_of(i as int), x) && step_to(b, mover, i as int, square(3, x), m) {
                    let x = choose|x: int|
                        0 <= x < 7 && (if up {
                            x > col_of(i as int)
                        } else {
                            x < col_of(i as int)
                        }) && #[trigger] river_clear(b, col_of(i as int), x) && step_to(b, mover, i as int, square(3, x), m);
                    if !(c < x <= cc || cc <= x < c) {
                        assert(blocked);
                        assert(empty_at(b, square(3, cc as int)));
                    }
                }
                if actions@.contains(m) && !base.contains(m) {
                    let x = choose|x: int|
                        (c < x <= cc || cc <= x < c) && #[trigger] river_clear(b, c as int, x) && step_to(b, mover, i as int, square(3, x), m);
                    assert(0 <= x < 7);
                }
            }
        }
    }

    fn crocodile_moves(&self, i: usize, mover: Player, actions: &mut Vec<Move>)
        requires
            self.wf(),
            i < 49,
            mover == self.mover(),
        ensures
            forall|m: Move| #[trigger] final(actions)@.contains(m) <==> (old(actions)@.contains(m) || piece_move(
                *self,
                i as int,
                Piece::Crocodile,
                m,
            )),
    {
        let ghost base = actions@;
        let ghost b = self.cells();
        self.king_steps(i, mover, actions);
        let ghost a1 = actions@;
        let (r, c) = rc(i);
        if r != 3 {
            self.croc_file_slide(i, mover, actions);
        } else {
            self.croc_river_slide(i, mover, false, actions);
            let ghost a2 = actions@;
            self.croc_river_slide(i, mover, true, actions);
            proof {
                assert forall|m: Move| #[trigger] actions@.contains(m) <==> (a1.contains(m) || croc_slide(b, mover, i as int, m)) by {
                    assert(a2.contains(m) <==> (a1.contains(m) || exists|x: int|
                        0 <= x < 7 && x < col_of(i as int) && #[trigger] river_clear(b, col_of(i as int), x) && step_to(
                            b,
                            mover,
                            i as int,
                            square(3, x),
                            m,
                        )));
                    if croc_slide(b, mover, i as int, m) {
                        let x = choose|x: int|
                            0 <= x < 7 && x != c && #[trigger] river_clear(b, c as int, x) && step_to(b, mover, i as int, square(3, x), m);
                        assert(0 <= x < 7 && (x > c || x < c) && river_clear(b, col_of(i as int), x));
                    }
                }
            }
        }
    }

    /// Pawn step forward with `dc` columns of drift.
    fn pawn_forward_at(&self, i: usize, mover: Player, fwd: i32, dc: i32, actions: &mut Vec<Move>)
        requires
            self.wf(),
            i < 49,
            fwd == forward(mover),
            -1 <= dc <= 1,
        ensures
            forall|m: Move| #[trigger] final(actions)@.contains(m) <==> (old(actions)@.contains(m) || pawn_forward(
                self.cells(),
                mover,
                i as int,
                dc as int,
                m,
            )),
    {
        let (r, c) = rc(i);
        if let Some(t) = try_pos(r + fwd, c + dc) {
            self.push_step(actions, i, t, mover);
        }
    }

    /// Superpawn step sideways by `dc` columns.
    fn pawn_side_at(&self, i: usize, mover: Player, dc: i32, actions: &mut Vec<Move>)
        requires
            self.wf(),
            i < 49,
            dc == -1 || dc == 1,
        ensures
            forall|m: Move| #[trigger] final(actions)@.contains(m) <==> (old(actions)@.contains(m) || pawn_side(
                self.cells(),
                mover,
                i as int,
                dc as int,
                m,
            )),
    {
        let (r, c) = rc(i);
        if let Some(t) = try_pos(r, c + dc) {
            self.push_step(actions, i, t, mover);
        }
    }

    /// One- and two-square backward move, `dcol` columns of drift per
    /// square; the second square needs the first to be empty.
    fn retreat(&self, actions: &mut Vec<Move>, from: usize, mover: Player, fwd: i32, dcol: i32)
        requires
            self.wf(),
            from < 49,
            fwd == forward(mover),
            -1 <= dcol <= 1,
        ensures
            forall|m: Move| #[trigger] final(actions)@.contains(m) <==> (old(actions)@.contains(m) || retreat(
                self.cells(),
                mover,
                from as int,
                dcol as int,
                m,
            )),
    {
        let ghost base = actions@;
        let (r, c) = rc(from);
        if let Some(t1) = try_pos(r - fwd, c + dcol) {
            if self.get(t1).is_none() {
                push_simple(actions, from, t1, false);
                let ghost a1 = actions@;
                if let Some(t2) = try_pos(r - 2 * fwd, c + 2 * dcol) {
                    if self.get(t2).is_none() {
                        push_simple(actions, from, t2, false);
                    }
                }
                proof {
                    assert forall|m: Move| #[trigger] actions@.contains(m) <==> (base.contains(m) || retreat(
                        self.cells(),
                        mover,
                        from as int,
                        dcol as int,
                        m,
                    )) by {
                        assert(a1.contains(m) <==> (base.contains(m) || is_simple(m, from as int, t1 as int, None)));
                    }
                }
            }
        }
    }

    fn pawn_moves(&self, i: usize, mover: Player, actions: &mut Vec<Move>, superpawn: bool)
        requires
            self.wf(),
            i < 49,
        ensures
            forall|m: Move| #[trigger] final(actions)@.contains(m) <==> (old(actions)@.contains(m) || pawn_move(
                self.cells(),
                mover,
                i as int,
                superpawn,
                m,
            )),
    {
        let ghost base = actions@;
        let ghost b = self.cells();
        let (r, _) = rc(i);
        let fwd: i32 = match mover {
            Player::Black => 1,
            Player::White => -1,
        };
        self.pawn_forward_at(i, mover, fwd, -1, actions);
        let ghost a1 = actions@;
        self.pawn_forward_at(i, mover, fwd, 0, actions);
        let ghost a2 = actions@;
        self.pawn_forward_at(i, mover, fwd, 1, actions);
        let ghost a3 = actions@;
        proof {
            assert forall|m: Move| #[trigger] a3.contains(m) <==> (base.contains(m) || exists|dc: int| #[trigger] pawn_forward(
                b,
                mover,
                i as int,
                dc,
                m,
            )) by {
                assert(a1.contains(m) <==> (base.contains(m) || pawn_forward(b, mover, i as int, -1, m)));
                assert(a2.contains(m) <==> (a1.contains(m) || pawn_forward(b, mover, i as int, 0, m)));
                if exists|dc: int| #[trigger] pawn_forward(b, mover, i as int, dc, m) {
                    let dc = choose|dc: int| #[trigger] pawn_forward(b, mover, i as int, dc, m);
                    assert(dc == -1 || dc == 0 || dc == 1);
                }
            }
        }
        if superpawn {
            self.pawn_side_at(i, mover, -1, actions);
            let ghost s1 = actions@;
            self.pawn_side_at(i, mover, 1, actions);
            let ghost s2 = actions@;
            self.retreat(actions, i, mover, fwd, -1);
            let ghost t1 = actions@;
            self.retreat(actions, i, mover, fwd, 0);
            let ghost t2 = actions@;
            self.retreat(actions, i, mover, fwd, 1);
            proof {
                assert forall|m: Move| #[trigger] actions@.contains(m) <==> (base.contains(m) || pawn_move(b, mover, i as int, true, m)) by {
                    assert(a3.contains(m) <==> (base.contains(m) || exists|dc: int| #[trigger] pawn_forward(b, mover, i as int, dc, m)));
                    assert(s1.contains(m) <==> (a3.contains(m) || pawn_side(b, mover, i as int, -1, m)));
                    assert(s2.contains(m) <==> (s1.contains(m) || pawn_side(b, mover, i as int, 1, m)));
                    assert(t1.contains(m) <==> (s2.contains(m) || retreat(b, mover, i as int, -1, m)));
                    assert(t2.contains(m) <==> (t1.contains(m) || retreat(b, mover, i as int, 0, m)));
                    if exists|dc: int| #[trigger] pawn_side(b, mover, i as int, dc, m) {
                        let dc = choose|dc: int| #[trigger] pawn_side(b, mover, i as int, dc, m);
                        assert(dc == -1 || dc == 1);
                    }
                    if exists|dcol: int| #[trigger] retreat(b, mover, i as int, dcol, m) {
                        let dcol = choose|dcol: int| #[trigger] retreat(b, mover, i as int, dcol, m);
                        assert(dcol == -1 || dcol == 0 || dcol == 1);
                    }
                }
            }
        } else {
            let past = match mover {
                Player::Black => r > 3,
                Player::White => r < 3,
            };
            if past {
                self.retreat(actions, i, mover, fwd, 0);
            }
        }
    }
}

/// The squares `s` as bytes.
pub open spec fn as_bytes(s: Seq<int>) -> Seq<u8> {
    Seq::new(s.len(), |k: int| s[k] as u8)
}

/// No jump chain of a piece standing on `from` is longer than a move can
/// record.
pub open spec fn chain_bounded(b: Seq<Cell>, mover: Player, from: int) -> bool {
    forall|dirs: Seq<int>| #[trigger] chain_valid(b, mover, from, dirs) ==> dirs.len() <= 16
}

/// `m` is the move of a valid chain that continues the jumps `dirs`.
pub open spec fn ext_move(b: Seq<Cell>, mover: Player, from: int, dirs: Seq<int>, m: Move) -> bool {
    exists|ext: Seq<int>|
        #[trigger] chain_move_for(from, ext, m) && ext.len() > dirs.len() && ext.take(dirs.len() as int) == dirs
            && chain_valid(b, mover, from, ext)
}

/// As [`ext_move`], with the first continuing jump in a direction below `k`.
pub open spec fn ext_below(b: Seq<Cell>, mover: Player, from: int, dirs: Seq<int>, k: int, m: Move) -> bool {
    exists|ext: Seq<int>|
        #[trigger] chain_move_for(from, ext, m) && ext.len() > dirs.len() && ext.take(dirs.len() as int) == dirs
            && ext[dirs.len() as int] < k && chain_valid(b, mover, from, ext)
}

/// One more jump: where it lands, what it jumps, and when the longer
/// chain is valid.
proof fn lemma_push_dir(b: Seq<Cell>, mover: Player, from: int, dirs: Seq<int>, k: int)
    ensures
        land_after(from, dirs.push(k)) == jump_land(land_after(from, dirs), k),
        mids_of(from, dirs.push(k)) == mids_of(from, dirs).push(jump_mid(land_after(from, dirs), k)),
        chain_valid(b, mover, from, dirs.push(k)) == (chain_valid(b, mover, from, dirs) && jump_ok(b, mover, from, dirs, k)),
{
    assert(dirs.push(k).drop_last() =~= dirs);
}

/// Every prefix of a valid chain is valid.
proof fn lemma_prefix_valid(b: Seq<Cell>, mover: Player, from: int, ext: Seq<int>, n: int)
    requires
        chain_valid(b, mover, from, ext),
        0 <= n <= ext.len(),
    ensures
        chain_valid(b, mover, from, ext.take(n)),
    decreases ext.len() - n,
{
    if n < ext.len() {
        lemma_prefix_valid(b, mover, from, ext, n + 1);
        assert(ext.take(n + 1).drop_last() =~= ext.take(n));
    } else {
        assert(ext.take(n) =~= ext);
    }
}

/// A valid chain from a square stays on the board.
pub proof fn lemma_chain_on_board(b: Seq<Cell>, mover: Player, from: int, dirs: Seq<int>)
    requires
        chain_valid(b, mover, from, dirs),
        0 <= from < 49,
    ensures
        0 <= land_after(from, dirs) < 49,
        mids_of(from, dirs).len() == dirs.len(),
        forall|j: int| 0 <= j < dirs.len() ==> 0 <= #[trigger] mids_of(from, dirs)[j] < 49,
    decreases dirs.len(),
{
    if dirs.len() > 0 {
        lemma_chain_on_board(b, mover, from, dirs.drop_last());
        let pos = land_after(from, dirs.drop_last());
        assert(0 <= row_of(pos) + dir8_r(dirs.last()) < 7);
        assert(0 <= col_of(pos) + dir8_c(dirs.last()) < 7);
    }
}

/// Squares below 49 are found among the bytes exactly when among the
/// squares.
proof fn lemma_as_bytes_contains(s: Seq<int>, x: int)
    requires
        forall|j: int| 0 <= j < s.len() ==> 0 <= #[trigger] s[j] < 49,
        0 <= x < 256,
    ensures
        as_bytes(s).contains(x as u8) <==> s.contains(x),
{
    if as_bytes(s).contains(x as u8) {
        let j = choose|j: int| 0 <= j < as_bytes(s).len() && as_bytes(s)[j] == x as u8;
        assert(s[j] == x);
    }
    if s.contains(x) {
        let j = choose|j: int| 0 <= j < s.len() && s[j] == x;
        assert(as_bytes(s)[j] == x as u8);
    }
}

/// Two ascending sequences with the same elements are equal.
proof fn lemma_ascending_unique(s1: Seq<u8>, s2: Seq<u8>)
    requires
        ascending(s1),
        ascending(s2),
        forall|x: u8| s1.contains(x) <==> s2.contains(x),
    ensures
        s1 == s2,
    decreases s1.len(),
{
    if s1.len() == 0 {
        if s2.len() > 0 {
            assert(s2.contains(s2[0]));
        }
        assert(s1 =~= s2);
    } else {
        assert(s1.contains(s1[0]));
        assert(s2.len() > 0);
        assert(s2.contains(s2[0]));
        let j = choose|j: int| 0 <= j < s2.len() && s2[j] == s1[0];
        let i = choose|i: int| 0 <= i < s1.len() && s1[i] == s2[0];
        assert(s1[0] == s2[0]) by {
            if j > 0 {
                assert(s2[0] < s2[j]);
                if i > 0 {
                    assert(s1[0] < s1[i]);
                }
            }
        }
        let t1 = s1.drop_first();
        let t2 = s2.drop_first();
        assert forall|x: u8| t1.contains(x) <==> t2.contains(x) by {
            if t1.contains(x) {
                let a = choose|a: int| 0 <= a < t1.len() && t1[a] == x;
                assert(s1[a + 1] == x);
                assert(s1.contains(x));
                let b = choose|b: int| 0 <= b < s2.len() && s2[b] == x;
                assert(s1[0] < x);
                assert(b != 0);
                assert(t2[b - 1] == x);
            }
            if t2.contains(x) {
                let a = choose|a: int| 0 <= a < t2.len() && t2[a] == x;
                assert(s2[a + 1] == x);
                assert(s2.contains(x));
                let b = choose|b: int| 0 <= b < s1.len() && s1[b] == x;
                assert(s2[0] < x);
                assert(b != 0);
                assert(t1[b - 1] == x);
            }
        }
        lemma_ascending_unique(t1, t2);
        assert(s1 =~= s2) by {
            assert forall|k: int| 0 <= k < s1.len() implies s1[k] == s2[k] by {
                if k > 0 {
                    assert(s1[k] == t1[k - 1]);
                    assert(s2[k] == t2[k - 1]);
                }
            }
        }
    }
}

/// A chain determines its move.
proof fn lemma_chain_unique(from: int, dirs: Seq<int>, m1: Move, m2: Move)
    requires
        chain_move_for(from, dirs, m1),
        chain_move_for(from, dirs, m2),
    ensures
        m1 == m2,
{
    lemma_ascending_unique(caps_of(m1), caps_of(m2));
    assert(m1.num_captures == m2.num_captures) by {
        assert(caps_of(m1).len() == m1.num_captures);
        assert(caps_of(m2).len() == m2.num_captures);
    }
    assert(m1.captures =~= m2.captures) by {
        assert forall|k: int| 0 <= k < 16 implies m1.captures[k] == m2.captures[k] by {
            if k < m1.num_captures {
                assert(caps_of(m1)[k] == caps_of(m2)[k]);
            } else {
                assert(m1.captures@[k] == 0);
                assert(m2.captures@[k] == 0);
            }
        }
    }
}

/// Whether `x` occurs in `v`.
fn contains_u8(v: &Vec<u8>, x: u8) -> (r: bool)
    ensures
        r == v@.contains(x),
{
    let mut k: usize = 0;
    while k < v.len()
        invariant
            k <= v@.len(),
            forall|j: int| 0 <= j < k ==> v@[j] != x,
        decreases v@.len() - k,
    {
        if v[k] == x {
            assert(v@[k as int] == x);
            return true;
        }
        k += 1;
    }
    false
}

impl Move {
    /// The move from `from` to `to` capturing the squares `jumped`, listed
    /// in ascending order.
    pub(crate) fn chain(from: usize, to: usize, jumped: &Vec<u8>) -> (m: Move)
        requires
            from < 49,
            to < 49,
            jumped@.len() <= 16,
            forall|j: int| 0 <= j < jumped@.len() ==> #[trigger] jumped@[j] < 49,
        ensures
            m.from == from,
            m.to == to,
            canonical(m),
            ascending(caps_of(m)),
            forall|x: u8| #[trigger] caps_of(m).contains(x) <==> jumped@.contains(x),
    {
        let mut captures = [0u8; 16];
        let mut n: usize = 0;
        let mut x: u8 = 0;
        while x < 49
            invariant
                x <= 49,
                n <= 16,
                jumped@.len() <= 16,
                forall|j: int| 0 <= j < jumped@.len() ==> #[trigger] jumped@[j] < 49,
                forall|k: int| n <= k < 16 ==> #[trigger] captures@[k] == 0,
                ascending(captures@.take(n as int)),
                forall|k: int| 0 <= k < n ==> #[trigger] captures@[k] < x,
                forall|y: u8| #[trigger] captures@.take(n as int).contains(y) <==> (y < x && jumped@.contains(y)),
            decreases 49 - x,
        {
            if contains_u8(jumped, x) {
                let ghost out = captures@.take(n as int).push(x);
                proof {
                    assert(out.no_duplicates());
                    assert(out.to_set().subset_of(jumped@.to_set())) by {
                        assert forall|y: u8| out.to_set().contains(y) implies jumped@.to_set().contains(y) by {
                            assert(out.contains(y));
                            if y != x {
                                let j = choose|j: int| 0 <= j < out.len() && out[j] == y;
                                assert(j < n);
                                assert(captures@.take(n as int)[j] == y);
                                assert(captures@.take(n as int).contains(y));
                            }
                        }
                    }
                    out.unique_seq_to_set();
                    vstd::seq_lib::seq_to_set_is_finite(jumped@);
                    vstd::set_lib::lemma_len_subset(out.to_set(), jumped@.to_set());
                    jumped@.lemma_cardinality_of_set();
                }
                let ghost before = captures@.take(n as int);
                captures[n] = x;
                proof {
                    assert(captures@.take(n + 1) =~= out);
                    assert forall|y: u8| #[trigger] out.contains(y) <==> (y < x + 1 && jumped@.contains(y)) by {
                        if out.contains(y) && y != x {
                            let j = choose|j: int| 0 <= j < out.len() && out[j] == y;
                            assert(j < n);
                            assert(before[j] == y);
                            assert(before.contains(y));
                        }
                        if y < x && jumped@.contains(y) {
                            assert(before.contains(y));
                            let j = choose|j: int| 0 <= j < before.len() && before[j] == y;
                            assert(out[j] == y);
                        }
                        if y == x {
                            assert(out[n as int] == y);
                        }
                    }
                }
                n += 1;
            }
            x += 1;
        }
        Move { from: from as u8, to: to as u8, num_captures: n as u8, captures }
    }
}

/// A direction whose jump is allowed adds its one-jump continuation and
/// everything that continues from there.
proof fn lemma_dfs_jump(
    b: Seq<Cell>,
    mover: Player,
    from: int,
    dirs: Seq<int>,
    k: int,
    base: Seq<Move>,
    prev: Seq<Move>,
    cur: Seq<Move>,
    x: Move,
)
    requires
        0 <= k < 8,
        chain_valid(b, mover, from, dirs),
        jump_ok(b, mover, from, dirs, k),
        chain_move_for(from, dirs.push(k), x),
        forall|m: Move| #[trigger] prev.contains(m) <==> (base.contains(m) || ext_below(b, mover, from, dirs, k, m)),
        forall|m: Move| #[trigger] cur.contains(m) <==> (prev.contains(m) || m == x || ext_move(b, mover, from, dirs.push(k), m)),
    ensures
        forall|m: Move| #[trigger] cur.contains(m) <==> (base.contains(m) || ext_below(b, mover, from, dirs, k + 1, m)),
{
    let n = dirs.len() as int;
    let q = dirs.push(k);
    lemma_push_dir(b, mover, from, dirs, k);
    assert(q.take(n) =~= dirs);
    assert forall|m: Move| #[trigger] cur.contains(m) <==> (base.contains(m) || ext_below(b, mover, from, dirs, k + 1, m)) by {
        if ext_below(b, mover, from, dirs, k + 1, m) {
            let ext = choose|ext: Seq<int>|
                #[trigger] chain_move_for(from, ext, m) && ext.len() > n && ext.take(n) == dirs && ext[n] < k + 1
                    && chain_valid(b, mover, from, ext);
            if ext[n] < k {
                assert(ext_below(b, mover, from, dirs, k, m));
            } else {
                assert(ext.take(n + 1) =~= q) by {
                    assert forall|j: int| 0 <= j < n + 1 implies ext.take(n + 1)[j] == q[j] by {
                        if j < n {
                            assert(ext.take(n)[j] == dirs[j]);
                        }
                    }
                }
                if ext.len() == n + 1 {
                    assert(ext =~= q);
                    lemma_chain_unique(from, q, m, x);
                } else {
                    assert(ext_move(b, mover, from, q, m));
                }
            }
        }
        if m == x {
            assert(q.take(n) == dirs);
            assert(q[n] == k);
            assert(ext_below(b, mover, from, dirs, k + 1, m));
        }
        if ext_move(b, mover, from, q, m) {
            let ext = choose|ext: Seq<int>|
                #[trigger] chain_move_for(from, ext, m) && ext.len() > q.len() && ext.take(q.len() as int) == q && chain_valid(
                    b,
                    mover,
                    from,
                    ext,
                );
            assert(ext.take(n) =~= dirs) by {
                assert forall|j: int| 0 <= j < n implies ext.take(n)[j] == dirs[j] by {
                    assert(ext.take(n + 1)[j] == q[j]);
                }
            }
            assert(ext[n] == ext.take(n + 1)[n]);
            assert(ext_below(b, mover, from, dirs, k + 1, m));
        }
        if prev.contains(m) && !base.contains(m) {
            let ext = choose|ext: Seq<int>|
                #[trigger] chain_move_for(from, ext, m) && ext.len() > n && ext.take(n) == dirs && ext[n] < k && chain_valid(
                    b,
                    mover,
                    from,
                    ext,
                );
            assert(ext_below(b, mover, from, dirs, k + 1, m));
        }
    }
}

/// A direction whose jump is not allowed adds nothing.
proof fn lemma_dfs_skip(b: Seq<Cell>, mover: Player, from: int, dirs: Seq<int>, k: int, base: Seq<Move>, cur: Seq<Move>)
    requires
        !jump_ok(b, mover, from, dirs, k),
        forall|m: Move| #[trigger] cur.contains(m) <==> (base.contains(m) || ext_below(b, mover, from, dirs, k, m)),
    ensures
        forall|m: Move| #[trigger] cur.contains(m) <==> (base.contains(m) || ext_below(b, mover, from, dirs, k + 1, m)),
{
    let n = dirs.len() as int;
    assert forall|m: Move| #[trigger] cur.contains(m) <==> (base.contains(m) || ext_below(b, mover, from, dirs, k + 1, m)) by {
        if ext_below(b, mover, from, dirs, k + 1, m) {
            let ext = choose|ext: Seq<int>|
                #[trigger] chain_move_for(from, ext, m) && ext.len() > n && ext.take(n) == dirs && ext[n] < k + 1
                    && chain_valid(b, mover, from, ext);
            if ext[n] == k {
                lemma_prefix_valid(b, mover, from, ext, n + 1);
                assert(ext.take(n + 1) =~= dirs.push(k)) by {
                    assert forall|j: int| 0 <= j < n + 1 implies ext.take(n + 1)[j] == dirs.push(k)[j] by {
                        if j < n {
                            assert(ext.take(n)[j] == dirs[j]);
                        }
                    }
                }
                lemma_push_dir(b, mover, from, dirs, k);
                assert(false);
            }
            assert(ext_below(b, mover, from, dirs, k, m));
        }
        if cur.contains(m) && !base.contains(m) {
            let ext = choose|ext: Seq<int>|
                #[trigger] chain_move_for(from, ext, m) && ext.len() > n && ext.take(n) == dirs && ext[n] < k && chain_valid(
                    b,
                    mover,
                    from,
                    ext,
                );
            assert(ext_below(b, mover, from, dirs, k + 1, m));
        }
    }
}

impl State {
    /// Adds every capture chain that continues the jumps `dirs` of the
    /// Monkey that started on `from` and now stands on `pos`; `path`
    /// holds the squares jumped so far.
    fn monkey_jump_dfs(
        &self,
        from: usize,
        pos: usize,
        mover: Player,
        Ghost(dirs): Ghost<Seq<int>>,
        path: &mut Vec<u8>,
        actions: &mut Vec<Move>,
    )
        requires
            self.wf(),
            from < 49,
            chain_bounded(self.cells(), mover, from as int),
            chain_valid(self.cells(), mover, from as int, dirs),
            pos as int == land_after(from as int, dirs),
            old(path)@ == as_bytes(mids_of(from as int, dirs)),
        ensures
            final(path)@ == old(path)@,
            forall|m: Move| #[trigger] final(actions)@.contains(m) <==> (old(actions)@.contains(m) || ext_move(
                self.cells(),
                mover,
                from as int,
                dirs,
                m,
            )),
        decreases 16 - dirs.len(),
    {
        let ghost b = self.cells();
        let ghost base = actions@;
        let ghost path0 = path@;
        let ghost n = dirs.len() as int;
        proof {
            lemma_chain_on_board(b, mover, from as int, dirs);
            assert(dirs.len() <= 16);
        }
        proof {
            assert forall|m: Move| #[trigger] actions@.contains(m) <==> (base.contains(m) || ext_below(b, mover, from as int, dirs, 0, m)) by {
                if ext_below(b, mover, from as int, dirs, 0, m) {
                    let ext = choose|ext: Seq<int>|
                        #[trigger] chain_move_for(from as int, ext, m) && ext.len() > n && ext.take(n) == dirs && ext[n] < 0
                            && chain_valid(b, mover, from as int, ext);
                    lemma_prefix_valid(b, mover, from as int, ext, n + 1);
                    assert(ext.take(n + 1).drop_last() =~= ext.take(n));
                    assert(ext.take(n + 1).last() == ext[n]);
                }
            }
        }
        let (r, c) = rc(pos);
        let mut k: usize = 0;
        while k < 8
            invariant
                self.wf(),
                b == self.cells(),
                from < 49,
                pos < 49,
                r == row_of(pos as int),
                c == col_of(pos as int),
                n == dirs.len(),
                n <= 16,
                chain_bounded(b, mover, from as int),
                chain_valid(b, mover, from as int, dirs),
                pos as int == land_after(from as int, dirs),
                path0 == as_bytes(mids_of(from as int, dirs)),
                mids_of(from as int, dirs).len() == n,
                forall|j: int| 0 <= j < n ==> 0 <= #[trigger] mids_of(from as int, dirs)[j] < 49,
                path@ == path0,
                k <= 8,
                forall|m: Move| #[trigger] actions@.contains(m) <==> (base.contains(m) || ext_below(b, mover, from as int, dirs, k as int, m)),
            decreases 8 - k,
        {
            let ghost prev = actions@;
            let (dr, dc) = dir8(k);
            let mut jumped = false;
            if let Some(land) = try_pos(r + 2 * dr, c + 2 * dc) {
                let mid = idx(r + dr, c + dc);
                let enemy = match self.get(mid) {
                    Some((color, _)) => color != mover,
                    None => false,
                };
                if enemy && !contains_u8(path, mid as u8) && (land == from || self.get(land).is_none()) {
                    let ghost q = dirs.push(k as int);
                    proof {
                        lemma_as_bytes_contains(mids_of(from as int, dirs), mid as int);
                        assert(jump_ok(b, mover, from as int, dirs, k as int));
                        lemma_push_dir(b, mover, from as int, dirs, k as int);
                        assert(q.len() <= 16);
                    }
                    path.push(mid as u8);
                    proof {
                        assert(path@ =~= as_bytes(mids_of(from as int, q)));
                        lemma_chain_on_board(b, mover, from as int, q);
                    }
                    let x = Move::chain(from, land, path);
                    proof {
                        assert forall|y: u8| #[trigger] caps_of(x).contains(y) <==> mids_of(from as int, q).contains(y as int) by {
                            lemma_as_bytes_contains(mids_of(from as int, q), y as int);
                        }
                        assert(chain_move_for(from as int, q, x));
                    }
                    let ghost before_push = actions@;
                    actions.push(x);
                    let ghost after_push = actions@;
                    self.monkey_jump_dfs(from, land, mover, Ghost(q), path, actions);
                    path.pop();
                    proof {
                        assert(path@ =~= path0);
                        assert forall|m: Move| #[trigger] actions@.contains(m) <==> (prev.contains(m) || m == x || ext_move(
                            b,
                            mover,
                            from as int,
                            q,
                            m,
                        )) by {
                            lemma_push_contains(before_push, x, m);
                        }
                        lemma_dfs_jump(b, mover, from as int, dirs, k as int, base, prev, actions@, x);
                    }
                    jumped = true;
                }
            }
            if !jumped {
                proof {
                    if jump_ok(b, mover, from as int, dirs, k as int) {
                        let pos2 = land_after(from as int, dirs);
                        let mid = jump_mid(pos2, k as int);
                        lemma_as_bytes_contains(mids_of(from as int, dirs), mid);
                        assert(false);
                    }
                    lemma_dfs_skip(b, mover, from as int, dirs, k as int, base, actions@);
                }
            }
            k += 1;
        }
        proof {
            assert forall|m: Move| #[trigger] actions@.contains(m) <==> (base.contains(m) || ext_move(b, mover, from as int, dirs, m)) by {
                if ext_move(b, mover, from as int, dirs, m) {
                    let ext = choose|ext: Seq<int>|
                        #[trigger] chain_move_for(from as int, ext, m) && ext.len() > n && ext.take(n) == dirs && chain_valid(
                            b,
                            mover,
                            from as int,
                            ext,
                        );
                    lemma_prefix_valid(b, mover, from as int, ext, n + 1);
                    assert(ext.take(n + 1).drop_last() =~= ext.take(n));
                    assert(ext.take(n + 1).last() == ext[n]);
                    assert(0 <= ext[n] < 8);
                    assert(ext_below(b, mover, from as int, dirs, 8, m));
                }
                if ext_below(b, mover, from as int, dirs, 8, m) {
                    let ext = choose|ext: Seq<int>|
                        #[trigger] chain_move_for(from as int, ext, m) && ext.len() > n && ext.take(n) == dirs && ext[n] < 8
                            && chain_valid(b, mover, from as int, ext);
                    assert(ext_move(b, mover, from as int, dirs, m));
                }
            }
        }
    }
}

/// Every Monkey of the side to move has only chains a move can record.
pub open spec fn chains_fit(s: State) -> bool {
    forall|i: int|
        0 <= i < 49 && s.cells()[i] == Some((s.mover(), Piece::Monkey)) ==> #[trigger] chain_bounded(s.cells(), s.mover(), i)
}

/// Every move of a piece starts on that piece's square.
proof fn lemma_piece_move_from(s: State, i: int, piece: Piece, m: Move)
    requires
        piece_move(s, i, piece, m),
    ensures
        m.from == i,
{
    let b = s.cells();
    let mover = s.mover();
    match piece {
        Piece::Giraffe => {
            let k = choose|k: int| 0 <= k < 8 && #[trigger] giraffe_dir(b, mover, i, k, m);
        },
        Piece::Monkey => {
            if exists|k: int| 0 <= k < 8 && #[trigger] quiet_step(b, i, k, m) {
                let k = choose|k: int| 0 <= k < 8 && #[trigger] quiet_step(b, i, k, m);
            } else {
                let d = choose|dirs: Seq<int>| dirs.len() >= 1 && chain_valid(b, mover, i, dirs) && #[trigger] chain_move_for(i, dirs, m);
            }
        },
        Piece::Elephant => {
            let k = choose|k: int| 0 <= k < 4 && #[trigger] elephant_dir(b, mover, i, k, m);
        },
        Piece::Lion => {
            if exists|k: int| 0 <= k < 8 && #[trigger] lion_dir(b, mover, i, k, m) {
                let k = choose|k: int| 0 <= k < 8 && #[trigger] lion_dir(b, mover, i, k, m);
            }
        },
        Piece::Crocodile => {
            if exists|k: int| 0 <= k < 8 && #[trigger] king_step(b, mover, i, k, 1, m) {
                let k = choose|k: int| 0 <= k < 8 && #[trigger] king_step(b, mover, i, k, 1, m);
            } else if row_of(i) != 3 {
                let x = choose|rr: int|
                    (row_of(i) < rr <= 3 || 3 <= rr < row_of(i)) && #[trigger] column_clear(b, col_of(i), row_of(i), rr) && step_to(
                        b,
                        mover,
                        i,
                        square(rr, col_of(i)),
                        m,
                    );
            } else {
                let x = choose|cc: int|
                    0 <= cc < 7 && cc != col_of(i) && #[trigger] river_clear(b, col_of(i), cc) && step_to(b, mover, i, square(3, cc), m);
            }
        },
        Piece::Zebra => {
            let k = choose|k: int| 0 <= k < 8 && #[trigger] zebra_dir(b, mover, i, k, m);
        },
        Piece::Pawn | Piece::Superpawn => {
            let sp = piece == Piece::Superpawn;
            if exists|dc: int| #[trigger] pawn_forward(b, mover, i, dc, m) {
                let dc = choose|dc: int| #[trigger] pawn_forward(b, mover, i, dc, m);
            } else if sp && exists|dc: int| #[trigger] pawn_side(b, mover, i, dc, m) {
                let dc = choose|dc: int| #[trigger] pawn_side(b, mover, i, dc, m);
            } else if sp && exists|dcol: int| #[trigger] retreat(b, mover, i, dcol, m) {
                let dcol = choose|dcol: int| #[trigger] retreat(b, mover, i, dcol, m);
            }
        },
    }
}

impl State {
    fn monkey_moves(&self, i: usize, mover: Player, actions: &mut Vec<Move>)
        requires
            self.wf(),
            i < 49,
            chain_bounded(self.cells(), mover, i as int),
        ensures
            forall|m: Move| #[trigger] final(actions)@.contains(m) <==> (old(actions)@.contains(m) || monkey_move(
                self.cells(),
                mover,
                i as int,
                m,
            )),
    {
        let ghost base = actions@;
        let ghost b = self.cells();
        let ghost f = |k: int, m: Move| quiet_step(self.cells(), i as int, k, m);
        let (r, c) = rc(i);
        let mut k: usize = 0;
        while k < 8
            invariant
                self.wf(),
                i < 49,
                r == row_of(i as int),
                c == col_of(i as int),
                k <= 8,
                f == (|k: int, m: Move| quiet_step(self.cells(), i as int, k, m)),
                forall|m: Move| #[trigger] actions@.contains(m) <==> (base.contains(m) || exists|j: int| 0 <= j < k && #[trigger] f(j, m)),
            decreases 8 - k,
        {
            let ghost prev = actions@;
            let (dr, dc) = dir8(k);
            if let Some(t) = try_pos(r + dr, c + dc) {
                if self.get(t).is_none() {
                    push_simple(actions, i, t, false);
                }
            }
            proof {
                lemma_next_dir(base, prev, actions@, f, k as int);
            }
            k += 1;
        }
        let ghost a1 = actions@;
        let mut path: Vec<u8> = Vec::new();
        proof {
            assert(path@ =~= as_bytes(mids_of(i as int, Seq::<int>::empty())));
        }
        self.monkey_jump_dfs(i, i, mover, Ghost(Seq::<int>::empty()), &mut path, actions);
        proof {
            assert forall|m: Move| #[trigger] actions@.contains(m) <==> (base.contains(m) || monkey_move(b, mover, i as int, m)) by {
                assert(a1.contains(m) <==> (base.contains(m) || exists|j: int| 0 <= j < 8 && #[trigger] f(j, m)));
                if exists|j: int| 0 <= j < 8 && #[trigger] f(j, m) {
                    let j = choose|j: int| 0 <= j < 8 && #[trigger] f(j, m);
                    assert(quiet_step(b, i as int, j, m));
                }
                if exists|k: int| 0 <= k < 8 && #[trigger] quiet_step(b, i as int, k, m) {
                    let k = choose|k: int| 0 <= k < 8 && #[trigger] quiet_step(b, i as int, k, m);
                    assert(f(k, m));
                }
                if ext_move(b, mover, i as int, Seq::<int>::empty(), m) {
                    let ext = choose|ext: Seq<int>|
                        #[trigger] chain_move_for(i as int, ext, m) && ext.len() > 0 && ext.take(0) == Seq::<int>::empty()
                            && chain_valid(b, mover, i as int, ext);
                    assert(chain_move(b, mover, i as int, m));
                }
                if chain_move(b, mover, i as int, m) {
                    let ext = choose|dirs: Seq<int>|
                        dirs.len() >= 1 && chain_valid(b, mover, i as int, dirs) && #[trigger] chain_move_for(i as int, dirs, m);
                    assert(ext.take(0) =~= Seq::<int>::empty());
                    assert(ext_move(b, mover, i as int, Seq::<int>::empty(), m));
                }
            }
        }
    }

    fn piece_moves(&self, i: usize, piece: Piece, mover: Player, actions: &mut Vec<Move>)
        requires
            self.wf(),
            chains_fit(*self),
            i < 49,
            mover == self.mover(),
            self.cells()[i as int] == Some((mover, piece)),
        ensures
            forall|m: Move| #[trigger] final(actions)@.contains(m) <==> (old(actions)@.contains(m) || piece_move(
                *self,
                i as int,
                piece,
                m,
            )),
    {
        match piece {
            Piece::Giraffe => self.giraffe_moves(i, mover, actions),
            Piece::Monkey => {
                assert(chain_bounded(self.cells(), mover, i as int));
                self.monkey_moves(i, mover, actions)
            },
            Piece::Elephant => self.elephant_moves(i, mover, actions),
            Piece::Lion => self.lion_moves(i, mover, actions),
            Piece::Crocodile => self.crocodile_moves(i, mover, actions),
            Piece::Zebra => self.zebra_moves(i, mover, actions),
            Piece::Pawn => self.pawn_moves(i, mover, actions, false),
            Piece::Superpawn => self.pawn_moves(i, mover, actions, true),
        }
    }

    /// Adds every legal move of the side to move.
    pub fn generate_moves(&self, actions: &mut Vec<Move>)
        requires
            self.wf(),
            chains_fit(*self),
        ensures
            forall|m: Move| #[trigger] final(actions)@.contains(m) <==> (old(actions)@.contains(m) || legal(*self, m)),
    {
        let ghost base = actions@;
        let mover = self.turn();
        let mut i: usize = 0;
        while i < NUM_SQUARES
            invariant
                self.wf(),
                chains_fit(*self),
                mover == self.mover(),
                i <= 49,
                forall|m: Move| #[trigger] actions@.contains(m) <==> (base.contains(m) || (legal(*self, m) && m.from < i)),
            decreases 49 - i,
        {
            let ghost prev = actions@;
            if let Some((color, piece)) = self.get(i) {
                if color == mover {
                    self.piece_moves(i, piece, mover, actions);
                    proof {
                        assert forall|m: Move| #[trigger] actions@.contains(m) <==> (base.contains(m) || (legal(*self, m) && m.from < i
                            + 1)) by {
                            if piece_move(*self, i as int, piece, m) {
                                lemma_piece_move_from(*self, i as int, piece, m);
                            }
                        }
                    }
                }
            }
            i += 1;
        }
    }
}

/// Number of occupied squares.
pub open spec fn occupied_count(b: Seq<Cell>) -> nat {
    count_upto(|i: int| b[i] is Some, 49)
}

/// Only the two Lions are left and neither sees the other.
pub open spec fn bare_lions(s: State) -> bool {
    &&& occupied_count(s.cells()) == 2
    &&& sight_target(s, Player::Black) is None
    &&& sight_target(s, Player::White) is None
}

/// How `s` stands: a side without its Lion has lost; two bare Lions that
/// cannot capture each other draw; a side to move without a legal move
/// loses; otherwise play goes on.
pub open spec fn status_of(s: State) -> TerminalStatus {
    if s.lion(Player::Black) is None {
        TerminalStatus::Winner(Player::White)
    } else if s.lion(Player::White) is None {
        TerminalStatus::Winner(Player::Black)
    } else if bare_lions(s) {
        TerminalStatus::Draw
    } else if exists|m: Move| #[trigger] legal(s, m) {
        TerminalStatus::NotTerminal
    } else {
        TerminalStatus::Winner(opponent(s.mover()))
    }
}

impl State {
    /// Only the two Lions are left and neither can capture the other.
    fn bare_lion_draw(&self) -> (r: bool)
        requires
            self.wf(),
        ensures
            r == bare_lions(*self),
    {
        let ghost b = self.cells();
        let ghost f = |i: int| b[i] is Some;
        let mut count: usize = 0;
        let mut i: usize = 0;
        while i < NUM_SQUARES
            invariant
                self.wf(),
                b == self.cells(),
                f == (|i: int| b[i] is Some),
                i <= 49,
                count == count_upto(f, i as int),
                count <= i,
            decreases 49 - i,
        {
            if self.get(i).is_some() {
                count += 1;
            }
            i += 1;
        }
        count == 2 && self.lion_sight_target(Player::Black).is_none() && self.lion_sight_target(Player::White).is_none()
    }

    /// How the position stands; see [`status_of`].
    pub fn terminal_status(&self) -> (r: TerminalStatus)
        requires
            self.wf(),
            chains_fit(*self),
        ensures
            r == status_of(*self),
    {
        if self.lion_square(Player::Black).is_none() {
            return TerminalStatus::Winner(Player::White);
        }
        if self.lion_square(Player::White).is_none() {
            return TerminalStatus::Winner(Player::Black);
        }
        if self.bare_lion_draw() {
            return TerminalStatus::Draw;
        }
        let mut actions: Vec<Move> = Vec::new();
        self.generate_moves(&mut actions);
        if actions.len() == 0 {
            proof {
                assert forall|m: Move| !legal(*self, m) by {
                    if legal(*self, m) {
                        assert(actions@.contains(m));
                    }
                }
            }
            TerminalStatus::Winner(self.turn().next())
        } else {
            proof {
                assert(actions@.contains(actions@[0]));
                assert(legal(*self, actions@[0]));
            }
            TerminalStatus::NotTerminal
        }
    }
}

} // verus!
