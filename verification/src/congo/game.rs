//! Congo as a game: turns, results, and what holds of every position that
//! play reaches.

use vstd::prelude::*;
use crate::congo::{caps_of, canonical, dir8_c, dir8_r, is_simple, kind, opponent, on_board, owner, row_of, col_of, square, Move, Piece, Player, TerminalStatus};
use crate::congo::state::{lifted, mover_in_river, counter, drowns, State};
use crate::congo::moves::{
    chain_move, chain_move_for, chain_valid, column_clear, elephant_dir, giraffe_dir, king_step, legal, lemma_chain_on_board,
    lion_dir, monkey_move, pawn_forward, pawn_move, pawn_side, piece_move, quiet_step, retreat, river_clear, sight_target,
    status_of, step_to, zebra_dir, chains_fit, land_after, mids_of,
};

verus! {

/// The game of Congo.
pub struct Congo;

impl Congo {
    /// The position after `action`.
    pub fn apply(state: State, action: &Move) -> (r: State)
        requires
            state.wf(),
            state.can_apply(*action),
        ensures
            r.wf(),
            r.cells() == state.cells_after(*action),
            r.river() == state.river_after(*action),
            r.mover() == opponent(state.mover()),
            forall|c: Player| #[trigger] r.lion(c) == state.lion_after(*action, c),
    {
        state.apply(action)
    }

    /// Adds every legal move of the side to move.
    pub fn generate_actions(state: &State, actions: &mut Vec<Move>)
        requires
            state.wf(),
            chains_fit(*state),
        ensures
            forall|m: Move| #[trigger] final(actions)@.contains(m) <==> (old(actions)@.contains(m) || legal(*state, m)),
    {
        state.generate_moves(actions)
    }

    /// Whether the game is over.
    pub fn is_terminal(state: &State) -> (r: bool)
        requires
            state.wf(),
            chains_fit(*state),
        ensures
            r == (status_of(*state) != TerminalStatus::NotTerminal),
    {
        match state.terminal_status() {
            TerminalStatus::NotTerminal => false,
            _ => true,
        }
    }

    /// How the position stands.
    pub fn terminal_status(state: &State) -> (r: TerminalStatus)
        requires
            state.wf(),
            chains_fit(*state),
        ensures
            r == status_of(*state),
    {
        state.terminal_status()
    }

    /// The winner, if the game is won.
    pub fn winner(state: &State) -> (r: Option<Player>)
        requires
            state.wf(),
            chains_fit(*state),
        ensures
            r == match status_of(*state) {
                TerminalStatus::Winner(p) => Some(p),
                _ => None,
            },
    {
        match state.terminal_status() {
            TerminalStatus::Winner(p) => Some(p),
            _ => None,
        }
    }

    /// The side to move.
    pub fn player_to_move(state: &State) -> (p: Player)
        ensures
            p == state.mover(),
    {
        state.turn()
    }

    /// Two players.
    pub fn num_players() -> (n: usize)
        ensures
            n == 2,
    {
        2
    }
}

/// No river counter has reached two: true of the starting position and of
/// every position play reaches.
pub open spec fn calm_river(s: State) -> bool {
    forall|sq: int| 0 <= sq < 49 ==> #[trigger] s.river()[sq] <= 1
}

/// A step onto `t` lands on the board and frees its destination.
proof fn lemma_step_shape(s: State, from: int, t: int, m: Move)
    requires
        s.wf(),
        0 <= from < 49,
        0 <= t < 49,
        step_to(s.cells(), s.mover(), from, t, m) || (s.cells()[t] is None && is_simple(m, from, t, None)),
    ensures
        m.to < 49,
        canonical(m),
        forall|k: int| 0 <= k < m.num_captures ==> #[trigger] m.captures@[k] < 49,
        lifted(s.cells(), m)[m.to as int] is None,
{
    if m.num_captures == 1 {
        assert(caps_of(m)[0] == t as u8);
        assert(caps_of(m).contains(t as u8));
    }
}

/// Every legal move stays on the board, records its captures canonically
/// and lands where nothing remains once the lifted pieces are gone.
proof fn lemma_move_shape(s: State, m: Move)
    requires
        s.wf(),
        legal(s, m),
    ensures
        m.to < 49,
        canonical(m),
        forall|k: int| 0 <= k < m.num_captures ==> #[trigger] m.captures@[k] < 49,
        lifted(s.cells(), m)[m.to as int] is None,
{
    let b = s.cells();
    let mover = s.mover();
    let i = m.from as int;
    match kind(b[i]) {
        Piece::Giraffe => {
            let k = choose|k: int| 0 <= k < 8 && #[trigger] giraffe_dir(b, mover, i, k, m);
            if quiet_step(b, i, k, m) {
                lemma_step_shape(s, i, square(row_of(i) + dir8_r(k), col_of(i) + dir8_c(k)), m);
            } else {
                lemma_step_shape(s, i, square(row_of(i) + 2 * dir8_r(k), col_of(i) + 2 * dir8_c(k)), m);
            }
        },
        Piece::Monkey => {
            if exists|k: int| 0 <= k < 8 && #[trigger] quiet_step(b, i, k, m) {
                let k = choose|k: int| 0 <= k < 8 && #[trigger] quiet_step(b, i, k, m);
                lemma_step_shape(s, i, square(row_of(i) + dir8_r(k), col_of(i) + dir8_c(k)), m);
            } else {
                let d = choose|dirs: Seq<int>| dirs.len() >= 1 && chain_valid(b, mover, i, dirs) && #[trigger] chain_move_for(i, dirs, m);
                lemma_chain_on_board(b, mover, i, d);
                assert forall|k: int| 0 <= k < m.num_captures implies #[trigger] m.captures@[k] < 49 by {
                    assert(caps_of(m)[k] == m.captures@[k]);
                    assert(caps_of(m).contains(m.captures@[k]));
                    let j = choose|j: int| 0 <= j < mids_of(i, d).len() && mids_of(i, d)[j] == m.captures@[k] as int;
                }
            }
        },
        Piece::Elephant => {
            let k = choose|k: int| 0 <= k < 4 && #[trigger] elephant_dir(b, mover, i, k, m);
            let r1 = row_of(i) + crate::congo::ortho_r(k);
            let c1 = col_of(i) + crate::congo::ortho_c(k);
            if on_board(r1, c1) && step_to(b, mover, i, square(r1, c1), m) {
                lemma_step_shape(s, i, square(r1, c1), m);
            } else {
                lemma_step_shape(s, i, square(row_of(i) + 2 * crate::congo::ortho_r(k), col_of(i) + 2 * crate::congo::ortho_c(k)), m);
            }
        },
        Piece::Lion => {
            if exists|k: int| 0 <= k < 8 && #[trigger] lion_dir(b, mover, i, k, m) {
                let k = choose|k: int| 0 <= k < 8 && #[trigger] lion_dir(b, mover, i, k, m);
                lemma_step_shape(s, i, square(row_of(i) + dir8_r(k), col_of(i) + dir8_c(k)), m);
            } else {
                let t = sight_target(s, mover)->0;
                assert(s.lion(opponent(mover)) is Some);
                assert(caps_of(m)[0] == t as u8);
                assert(caps_of(m).contains(t as u8));
            }
        },
        Piece::Crocodile => {
            if exists|k: int| 0 <= k < 8 && #[trigger] king_step(b, mover, i, k, 1, m) {
                let k = choose|k: int| 0 <= k < 8 && #[trigger] king_step(b, mover, i, k, 1, m);
                lemma_step_shape(s, i, square(row_of(i) + 1 * dir8_r(k), col_of(i) + 1 * dir8_c(k)), m);
            } else if row_of(i) != 3 {
                let rr = choose|rr: int|
                    (row_of(i) < rr <= 3 || 3 <= rr < row_of(i)) && #[trigger] column_clear(b, col_of(i), row_of(i), rr) && step_to(
                        b,
                        mover,
                        i,
                        square(rr, col_of(i)),
                        m,
                    );
                lemma_step_shape(s, i, square(rr, col_of(i)), m);
            } else {
                let cc = choose|cc: int|
                    0 <= cc < 7 && cc != col_of(i) && #[trigger] river_clear(b, col_of(i), cc) && step_to(b, mover, i, square(3, cc), m);
                lemma_step_shape(s, i, square(3, cc), m);
            }
        },
        Piece::Zebra => {
            let k = choose|k: int| 0 <= k < 8 && #[trigger] zebra_dir(b, mover, i, k, m);
            lemma_step_shape(s, i, square(row_of(i) + crate::congo::knight_r(k), col_of(i) + crate::congo::knight_c(k)), m);
        },
        Piece::Pawn | Piece::Superpawn => {
            let sp = kind(b[i]) == Piece::Superpawn;
            let f = crate::congo::moves::forward(mover);
            if exists|dc: int| #[trigger] pawn_forward(b, mover, i, dc, m) {
                let dc = choose|dc: int| #[trigger] pawn_forward(b, mover, i, dc, m);
                lemma_step_shape(s, i, square(row_of(i) + f, col_of(i) + dc), m);
            } else if sp && exists|dc: int| #[trigger] pawn_side(b, mover, i, dc, m) {
                let dc = choose|dc: int| #[trigger] pawn_side(b, mover, i, dc, m);
                lemma_step_shape(s, i, square(row_of(i), col_of(i) + dc), m);
            } else {
                let dcol = if sp {
                    choose|dcol: int| #[trigger] retreat(b, mover, i, dcol, m)
                } else {
                    0
                };
                assert(retreat(b, mover, i, dcol, m));
                let r1 = row_of(i) - f;
                let c1 = col_of(i) + dcol;
                if is_simple(m, i, square(r1, c1), None) {
                    lemma_step_shape(s, i, square(r1, c1), m);
                } else {
                    lemma_step_shape(s, i, square(row_of(i) - 2 * f, col_of(i) + 2 * dcol), m);
                }
            }
        },
    }
}

/// In a position whose river counters are all below two (every position
/// play reaches), every legal move can be carried out.
pub proof fn lemma_legal_applicable(s: State, m: Move)
    requires
        s.wf(),
        calm_river(s),
        legal(s, m),
    ensures
        s.can_apply(m),
{
    lemma_move_shape(s, m);
    assert forall|sq: int|
        0 <= sq < 49 && sq != m.to && #[trigger] mover_in_river(s.landed_cells(m), s.mover(), sq) implies s.river()[sq] < 255 by {
        assert(s.river()[sq] <= 1);
    }
}

/// No piece stays in the river past a second turn: a position whose river
/// counters are all below two keeps them below two after any move.
pub proof fn lemma_river_stays_calm(s: State, m: Move)
    requires
        s.wf(),
        calm_river(s),
        s.can_apply(m),
    ensures
        forall|sq: int| 0 <= sq < 49 ==> #[trigger] s.river_after(m)[sq] <= 1,
{
    let lm = s.landed_cells(m);
    assert forall|sq: int| 0 <= sq < 49 implies #[trigger] s.river_after(m)[sq] <= 1 by {
        if !drowns(lm, s.river(), s.mover(), m.to as int, sq) {
            assert(s.river()[sq] <= 1);
            assert(counter(lm, s.river(), s.mover(), m.to as int, sq) <= 1);
        }
    }
}

/// Capturing the enemy Lion wins: after a move that captures the square of
/// the opponent's Lion, the mover has won (unless its own Lion was lost on
/// the same move).
pub proof fn lemma_lion_capture_wins(s: State, m: Move, r: State)
    requires
        s.wf(),
        canonical(m),
        s.lion(opponent(s.mover())) is Some,
        caps_of(m).contains(s.lion(opponent(s.mover()))->0),
        s.lion_after(m, s.mover()) is Some,
        forall|c: Player| #[trigger] r.lion(c) == s.lion_after(m, c),
    ensures
        status_of(r) == TerminalStatus::Winner(s.mover()),
{
    let opp = opponent(s.mover());
    let l = s.lion(opp)->0;
    let j = choose|j: int| 0 <= j < caps_of(m).len() && caps_of(m)[j] == l;
    assert(caps_of(m)[j] == m.captures@[j]);
    assert(s.cells()[l as int] == Some((opp, Piece::Lion)));
    assert(s.cells()[m.captures@[j] as int] == Some((opp, Piece::Lion)));
    assert(r.lion(opp) is None);
    assert(r.lion(s.mover()) is Some);
}

/// The squares holding pieces of the side that is not `mover`.
pub open spec fn enemy_squares(s: State) -> Set<int> {
    Set::new(|i: int| 0 <= i < 49 && crate::congo::moves::enemy_at(s.cells(), s.mover(), i))
}

/// The squares a valid chain jumps over are distinct enemy squares.
proof fn lemma_chain_mids(s: State, from: int, dirs: Seq<int>)
    requires
        s.wf(),
        0 <= from < 49,
        chain_valid(s.cells(), s.mover(), from, dirs),
    ensures
        mids_of(from, dirs).no_duplicates(),
        forall|j: int| 0 <= j < mids_of(from, dirs).len() ==> enemy_squares(s).contains(#[trigger] mids_of(from, dirs)[j]),
    decreases dirs.len(),
{
    lemma_chain_on_board(s.cells(), s.mover(), from, dirs);
    if dirs.len() > 0 {
        let d = dirs.drop_last();
        lemma_chain_mids(s, from, d);
        lemma_chain_on_board(s.cells(), s.mover(), from, d);
    }
}

/// A side facing at most sixteen enemy pieces, as in every position play
/// reaches (each side starts with fourteen and none are ever added), has
/// only chains a move can record.
pub proof fn lemma_chains_fit(s: State)
    requires
        s.wf(),
        enemy_squares(s).len() <= 16,
    ensures
        chains_fit(s),
{
    vstd::set_lib::lemma_int_range(0, 49);
    assert(enemy_squares(s).subset_of(vstd::set_lib::set_int_range(0, 49)));
    vstd::set_lib::lemma_len_subset(enemy_squares(s), vstd::set_lib::set_int_range(0, 49));
    assert forall|i: int|
        0 <= i < 49 && s.cells()[i] == Some((s.mover(), Piece::Monkey)) implies #[trigger] crate::congo::moves::chain_bounded(
        s.cells(),
        s.mover(),
        i,
    ) by {
        assert forall|dirs: Seq<int>| #[trigger] chain_valid(s.cells(), s.mover(), i, dirs) implies dirs.len() <= 16 by {
            lemma_chain_mids(s, i, dirs);
            lemma_chain_on_board(s.cells(), s.mover(), i, dirs);
            let ms = mids_of(i, dirs);
            ms.unique_seq_to_set();
            assert(ms.to_set().subset_of(enemy_squares(s))) by {
                assert forall|x: int| ms.to_set().contains(x) implies enemy_squares(s).contains(x) by {
                    let j = choose|j: int| 0 <= j < ms.len() && ms[j] == x;
                }
            }
            vstd::set_lib::lemma_len_subset(ms.to_set(), enemy_squares(s));
        }
    }
}

} // verus!
