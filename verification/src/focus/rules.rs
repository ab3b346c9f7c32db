//! The game of Focus for `P` players as one set of rules over [`State`].

use vstd::prelude::*;
use crate::focus::game::{
    bits_cell, bits_count, bits_dir, bits_is_slide, capable_count, has_legal_move, move_bits, moves_of, Move, Player,
    State, TerminalStatus,
};
use crate::focus::play::{after_place, after_slide, legal_move, next_capable, slide_gain, HASHES_LEN};

verus! {

/// The `P`-player game.
#[derive(Clone, Debug)]
pub struct Focus<const P: usize>;

/// The two-player game.
pub type Focus2 = Focus<2>;

/// The three-player game.
pub type Focus3 = Focus<3>;

/// The four-player game.
pub type Focus4 = Focus<4>;

impl<const P: usize> Focus<P> {
    /// The position after the player to move plays `m`.
    pub fn apply(state: State<P>, m: &Move, keys: &[u64; HASHES_LEN]) -> (r: State<P>)
        requires
            state.wf(),
            2 <= P <= 4,
            legal_move(state, m@),
            bits_is_slide(m@) ==> state.reserves@[state.turn.0 as int] + slide_gain(
                state.cells@,
                state.turn.0 as int,
                bits_cell(m@) as int,
                bits_dir(m@) as int,
                bits_count(m@) as int,
            ) <= u8::MAX,
        ensures
            ({
                let p = state.turn.0 as int;
                let after = if bits_is_slide(m@) {
                    after_slide(
                        state.cells@,
                        state.reserves@,
                        p,
                        bits_cell(m@) as int,
                        bits_dir(m@) as int,
                        bits_count(m@) as int,
                    )
                } else {
                    after_place(state.cells@, state.reserves@, p, bits_cell(m@) as int)
                };
                &&& r.cells@ == after.0
                &&& r.reserves@ == after.1
                &&& r.turn.0 == next_capable(after.0, after.1, p, P as int, 0)
            }),
            has_legal_move(r.cells@, r.reserves@, r.turn.0 as int),
            moves_of(r.cells@, r.reserves@, r.turn.0 as int).len() > 0,
            r.wf(),
            state.hash_synced(keys@) ==> r.hash_synced(keys@),
    {
        let mut s = state;
        s.apply(m, keys)
    }

    /// Appends every legal move of the player to move.
    pub fn generate_actions(state: &State<P>, actions: &mut Vec<Move>)
        requires
            state.wf(),
        ensures
            move_bits(final(actions)@) == move_bits(old(actions)@) + moves_of(
                state.cells@,
                state.reserves@,
                state.turn.0 as int,
            ),
    {
        state.moves(actions)
    }

    /// The outcome of the position.
    pub fn terminal_status(state: &State<P>) -> (r: TerminalStatus)
        requires
            state.wf(),
            P <= 256,
        ensures
            capable_count(state.cells@, state.reserves@, P as int) == 0 ==> r == TerminalStatus::Draw,
            capable_count(state.cells@, state.reserves@, P as int) == 1 ==> (r matches TerminalStatus::Winner(w)
                && w.0 < P && has_legal_move(state.cells@, state.reserves@, w.0 as int)),
            capable_count(state.cells@, state.reserves@, P as int) >= 2 ==> r == TerminalStatus::NotTerminal,
    {
        state.terminal_status()
    }

    /// Whether the game is over: fewer than two players can move.
    pub fn is_terminal(state: &State<P>) -> (r: bool)
        requires
            state.wf(),
            P <= 256,
        ensures
            r == (capable_count(state.cells@, state.reserves@, P as int) < 2),
    {
        match state.terminal_status() {
            TerminalStatus::NotTerminal => false,
            _ => true,
        }
    }

    /// The winner: the one player left who can move.
    pub fn winner(state: &State<P>) -> (r: Option<Player>)
        requires
            state.wf(),
            P <= 256,
        ensures
            capable_count(state.cells@, state.reserves@, P as int) == 1 ==> (r matches Some(w) && w.0 < P
                && has_legal_move(state.cells@, state.reserves@, w.0 as int)),
            capable_count(state.cells@, state.reserves@, P as int) != 1 ==> r is None,
    {
        match state.terminal_status() {
            TerminalStatus::Winner(p) => Some(p),
            _ => None,
        }
    }

    /// The player to move.
    pub fn player_to_move(state: &State<P>) -> (r: Player)
        ensures
            r == state.turn,
    {
        state.turn
    }

    /// The position's incremental hash.
    pub fn zobrist_hash(state: &State<P>) -> (r: u64)
        ensures
            r == state.hash,
    {
        state.hash
    }

    /// `P` players.
    pub fn num_players() -> (r: usize)
        ensures
            r == P,
    {
        P
    }
}

} // verus!
