//! A position together with the caches derived from it (its hash and the
//! legality bits), and applying a whole turn to it.

use vstd::prelude::*;
use crate::druid::movecache::{lemma_cache_locality, MoveCache};
use crate::druid::connectivity::{lemma_connectivity_winner, lemma_fresh_faithful, restored, Connectivity};
use crate::druid::connect::winner_of;
use crate::druid::state::{legal_moves};
use crate::druid::state::{hand_of, lintel_cell, lintel_step, placed_board, playable, spend, State};
use crate::druid::types::{
    hand_sarsens, height_bits, kind_of, opponent, Piece, PieceKind, PlacedPiece, Player, Size, Square,
    supported, HAND_HASHES_LEN, HASHES_LEN,
};
use crate::druid::zobrist::{
    board_key, cell_key, cell_zobrist, full_hash, hand_key, hand_zobrist, key_of_parts, lemma_board_key_update,
    lemma_position_parts, lemma_replace_part, pending_key, player_key, player_zobrist, position_key,
    zobrist_height_bits, DruidKeys,
};

verus! {

/// `after` is `before` with `m` played by the player to move: the piece
/// written, the mover's hand one piece lighter, and the turn handed over;
/// size and pending sub-action unchanged.
pub open spec fn turn_applied(before: State, after: State, m: PlacedPiece) -> bool {
    &&& turn_played(before, after, m)
    &&& after.pending == before.pending
}

/// `after` is `before` with `m` played by the player to move, whatever the
/// pending sub-action.
pub open spec fn turn_played(before: State, after: State, m: PlacedPiece) -> bool {
    &&& after.wf()
    &&& after.board@ == placed_board(before.board@, before.size, m, before.player)
    &&& after.player == opponent(before.player)
    &&& hand_of(after, before.player) == spend(hand_of(before, before.player), m.0)
    &&& hand_of(after, opponent(before.player)) == hand_of(before, opponent(before.player))
    &&& after.size == before.size
}

/// A supported size keeps a full hand within a byte.
pub proof fn lemma_supported_small(size: Size)
    requires
        supported(size),
    ensures
        hand_sarsens(size) <= u8::MAX,
        size.w * size.h <= 127,
        height_bits(size) <= 8,
{
    let x = hand_sarsens(size) as nat;
    if x >= 256 {
        lemma_bit_len_ge9(x);
    }
    assert(size.w * size.h <= 127) by (nonlinear_arith)
        requires
            2 * size.w * size.h <= 255,
    ;
    crate::druid::types::lemma_bit_len_byte(x);
}

/// A number of at least 256 needs at least 9 bits.
proof fn lemma_bit_len_ge9(x: nat)
    requires
        x >= 256,
    ensures
        crate::druid::types::bit_len(x) >= 9,
{
    reveal_with_fuel(crate::druid::types::bit_len, 10);
    let x1 = x / 2;
    let x2 = x1 / 2;
    let x3 = x2 / 2;
    let x4 = x3 / 2;
    let x5 = x4 / 2;
    let x6 = x5 / 2;
    let x7 = x6 / 2;
    let x8 = x7 / 2;
    assert(x8 >= 1);
}

/// A position with its hash, its per-color connectivity and its legality
/// bits.
#[derive(Clone, Debug)]
pub struct HashedState(pub State, pub u64, pub Connectivity, pub MoveCache);

impl HashedState {
    /// The position is well formed on a supported size, the hash is its
    /// from-scratch hash under `keys`, the union-finds hold each color's
    /// connected groups, and the bits are its legal placements.
    pub open spec fn inv(&self, keys: DruidKeys) -> bool {
        &&& self.0.wf()
        &&& supported(self.0.size)
        &&& self.1 == position_key(keys, self.0, height_bits(self.0.size) as int)
        &&& self.2.faithful_to(self.0.board@, self.0.size)
        &&& self.3.reflects(self.0)
    }

    /// A fresh game on a supported size.
    pub fn new(size: Size, keys: &DruidKeys) -> (r: HashedState)
        requires
            supported(size),
        ensures
            r.inv(*keys),
            r.0.size == size,
            r.0.player == Player::Black,
            r.0.pending == crate::druid::types::Pending::Idle,
    {
        proof {
            lemma_supported_small(size);
        }
        let state = State::new(size);
        let cache = MoveCache::new(&state);
        let bits = zobrist_height_bits(size);
        let hash = full_hash(&state, bits, keys);
        let connectivity = Connectivity::new(size);
        proof {
            lemma_fresh_faithful(connectivity.set_of(Player::Black), state.board@, size, Player::Black);
            lemma_fresh_faithful(connectivity.set_of(Player::White), state.board@, size, Player::White);
        }
        HashedState(state, hash, connectivity, cache)
    }

    /// The position.
    pub fn state(&self) -> (r: &State)
        ensures
            *r == self.0,
    {
        &self.0
    }

    /// Build the caches of an arbitrary well-formed position on a supported
    /// size from scratch.
    pub fn from_state(state: State, keys: &DruidKeys) -> (r: HashedState)
        requires
            state.wf(),
            supported(state.size),
        ensures
            r.inv(*keys),
            r.0 == state,
    {
        proof {
            lemma_supported_small(state.size);
        }
        let bits = zobrist_height_bits(state.size);
        let hash = full_hash(&state, bits, keys);
        let mut connectivity = Connectivity::new(state.size);
        connectivity.rebuild(state.size, state.board.as_slice(), Player::Black);
        connectivity.rebuild(state.size, state.board.as_slice(), Player::White);
        let cache = MoveCache::new(&state);
        HashedState(state, hash, connectivity, cache)
    }
}

/// The board with `sq` written on the first `k` of `cells`.
pub open spec fn set_cells(board: Seq<Square>, cells: Seq<usize>, sq: Square, k: int) -> Seq<Square>
    decreases k,
{
    if k <= 0 {
        board
    } else {
        set_cells(board, cells, sq, k - 1).update(cells[k - 1] as int, sq)
    }
}

/// Writing the first `k` cells leaves every other cell alone.
proof fn lemma_set_cells_other(board: Seq<Square>, cells: Seq<usize>, sq: Square, k: int, i: int)
    requires
        0 <= k <= cells.len(),
        forall|t: int| 0 <= t < cells.len() ==> (#[trigger] cells[t] as int) < board.len(),
        0 <= i < board.len(),
        forall|t: int| 0 <= t < k ==> #[trigger] cells[t] as int != i,
    ensures
        set_cells(board, cells, sq, k)[i] == board[i],
        set_cells(board, cells, sq, k).len() == board.len(),
    decreases k,
{
    if k > 0 {
        lemma_set_cells_other(board, cells, sq, k - 1, i);
    }
}

proof fn lemma_set_cells_len(board: Seq<Square>, cells: Seq<usize>, sq: Square, k: int)
    requires
        0 <= k <= cells.len(),
        forall|t: int| 0 <= t < cells.len() ==> (#[trigger] cells[t] as int) < board.len(),
    ensures
        set_cells(board, cells, sq, k).len() == board.len(),
    decreases k,
{
    if k > 0 {
        lemma_set_cells_len(board, cells, sq, k - 1);
    }
}

/// Apply a whole turn: play `placed` for the player to move, then bring the
/// hash and the legality bits up to date from what changed. The pending
/// sub-action is left as it is.
pub fn apply_turn(state: HashedState, placed: PlacedPiece, keys: &DruidKeys) -> (r: HashedState)
    requires
        state.inv(*keys),
        playable(state.0, placed),
        state.0.board@[placed.1 as int].height < u16::MAX,
    ensures
        r.inv(*keys),
        turn_applied(state.0, r.0, placed),
{
    let mut state = state;
    let ghost before = state.0;
    let ghost old_cache = state.3;
    let ghost size = state.0.size;
    proof {
        lemma_supported_small(state.0.size);
    }
    let bits = zobrist_height_bits(state.0.size);
    let ghost b = bits as int;
    let (cells, n) = state.0.move_cells(placed);
    let old: [Square; 3] = [state.0.board[cells[0]], state.0.board[cells[1]], state.0.board[cells[2]]];
    let mover = state.0.player;
    let kind = placed.0.kind();
    let old_hand_count = match kind {
        PieceKind::Sarsen => state.0.hand(mover).sarsens,
        PieceKind::Lintel => state.0.hand(mover).lintels,
    };
    state.0.apply(placed);
    let new_hand_count = match kind {
        PieceKind::Sarsen => state.0.hand(mover).sarsens,
        PieceKind::Lintel => state.0.hand(mover).lintels,
    };
    let ghost sq = Square { height: (before.board@[placed.1 as int].height + 1) as u16, piece: Some(mover) };
    let mut touched: Vec<usize> = Vec::new();
    let mut k: usize = 0;
    while k < n
        invariant
            n <= 3,
            k <= n,
            touched@ == cells@.take(k as int),
        decreases n - k,
    {
        touched.push(cells[k]);
        proof {
            assert(touched@ =~= cells@.take(k + 1));
        }
        k += 1;
    }
    proof {
        assert(touched@ =~= cells@.take(n as int));
        lemma_touched_cells(before, placed, cells@, n as int, touched@, sq);
    }
    let ghost bk0 = board_key(*keys, before.board@, b, before.board@.len() as int);
    let ghost pe = pending_key(*keys, before.pending);
    let ghost h1 = hand_key(*keys, Player::Black, PieceKind::Sarsen, before.hand_black.sarsens, b);
    let ghost h2 = hand_key(*keys, Player::Black, PieceKind::Lintel, before.hand_black.lintels, b);
    let ghost h3 = hand_key(*keys, Player::White, PieceKind::Sarsen, before.hand_white.sarsens, b);
    let ghost h4 = hand_key(*keys, Player::White, PieceKind::Lintel, before.hand_white.lintels, b);
    let ghost n1 = hand_key(*keys, Player::Black, PieceKind::Sarsen, state.0.hand_black.sarsens, b);
    let ghost n2 = hand_key(*keys, Player::Black, PieceKind::Lintel, state.0.hand_black.lintels, b);
    let ghost n3 = hand_key(*keys, Player::White, PieceKind::Sarsen, state.0.hand_white.sarsens, b);
    let ghost n4 = hand_key(*keys, Player::White, PieceKind::Lintel, state.0.hand_white.lintels, b);
    let ghost next_pl = player_key(*keys, state.0.player);
    proof {
        lemma_position_parts(*keys, before, b);
    }
    let mut hash = state.1;
    let p_out = player_zobrist(mover, keys);
    let p_in = player_zobrist(state.0.player, keys);
    proof {
        lemma_replace_part(bk0, pe, p_out, h1, h2, h3, h4, p_in);
    }
    hash = hash ^ p_out ^ p_in;
    let k_out = hand_zobrist(mover, kind, old_hand_count, bits, keys);
    let k_in = hand_zobrist(mover, kind, new_hand_count, bits, keys);
    proof {
        lemma_replace_part(bk0, pe, p_in, h1, h2, h3, h4, k_in);
        lemma_replace_part(bk0, pe, p_in, h1, k_in, h3, h4, 0);
        assert(hash ^ k_out ^ k_in == key_of_parts(bk0, pe, next_pl, n1, n2, n3, n4));
    }
    hash = hash ^ k_out ^ k_in;
    let mut t: usize = 0;
    while t < n
        invariant
            n <= 3,
            t <= n,
            touched@ == cells@.take(n as int),
            forall|u: int| 0 <= u < n ==> (#[trigger] cells@[u] as int) < before.board@.len(),
            forall|u: int, v: int| 0 <= u < v < n ==> #[trigger] cells@[u] != #[trigger] cells@[v],
            forall|u: int| 0 <= u < n ==> #[trigger] old@[u] == before.board@[cells@[u] as int],
            forall|u: int| 0 <= u < n ==> #[trigger] state.0.board@[cells@[u] as int] == sq,
            state.0.board@ == set_cells(before.board@, touched@, sq, n as int),
            state.0.board@.len() == before.board@.len(),
            b == bits as int,
            bits <= 8,
            before.board@.len() * 2 * bits <= HASHES_LEN,
            before.board@.len() <= 127,
            hash == key_of_parts(
                board_key(*keys, set_cells(before.board@, touched@, sq, t as int), b, before.board@.len() as int),
                pe,
                next_pl,
                n1,
                n2,
                n3,
                n4,
            ),
        decreases n - t,
    {
        let i = cells[t];
        proof {
            assert((i * 2 + 2) * bits <= before.board@.len() * 2 * bits) by (nonlinear_arith)
                requires
                    i < before.board@.len(),
            ;
        }
        let c_out = cell_zobrist(i, old[t].height, old[t].piece, bits, keys);
        let now = state.0.board[i];
        let c_in = cell_zobrist(i, now.height, now.piece, bits, keys);
        proof {
            let partial = set_cells(before.board@, touched@, sq, t as int);
            assert forall|u: int| 0 <= u < touched@.len() implies (#[trigger] touched@[u] as int) < before.board@.len() by {
                assert(touched@[u] == cells@[u]);
            }
            lemma_set_cells_len(before.board@, touched@, sq, t as int);
            assert(touched@[t as int] == i);
            assert forall|u: int| 0 <= u < t implies #[trigger] touched@[u] as int != i by {
                assert(touched@[u] == cells@[u]);
            }
            lemma_set_cells_other(before.board@, touched@, sq, t as int, i as int);
            assert(set_cells(before.board@, touched@, sq, t + 1) == partial.update(i as int, sq));
            lemma_board_key_update(*keys, partial, b, i as int, sq, partial.len() as int);
            let bk = board_key(*keys, partial, b, before.board@.len() as int);
            lemma_replace_part(bk, pe, next_pl, n1, n2, n3, n4, c_out ^ c_in);
            crate::bits::lemma_xor_facts(hash, c_out, c_in);
        }
        hash = hash ^ c_out ^ c_in;
        t += 1;
    }
    state.1 = hash;
    proof {
        lemma_position_parts(*keys, state.0, b);
        assert(t == n);
        assert forall|i: int| 0 <= i < before.board@.len() && !touched@.contains(i as usize) implies #[trigger] state.0.board@[i] == before.board@[i] by {
            assert forall|u: int| 0 <= u < touched@.len() implies (#[trigger] touched@[u] as int) < before.board@.len() by {
                assert(touched@[u] == cells@[u]);
            }
            assert forall|u: int| 0 <= u < n implies #[trigger] touched@[u] as int != i by {
                if touched@[u] as int == i {
                    assert(touched@.contains(i as usize));
                }
            }
            lemma_set_cells_other(before.board@, touched@, sq, n as int, i);
        }
        lemma_cache_locality(old_cache.black, before.board@, state.0.board@, size, Player::Black, touched@);
        lemma_cache_locality(old_cache.white, before.board@, state.0.board@, size, Player::White, touched@);
    }
    let mut olds: Vec<Square> = Vec::new();
    let mut u: usize = 0;
    while u < n
        invariant
            n <= 3,
            u <= n,
            olds@ == old@.take(u as int),
        decreases n - u,
    {
        olds.push(old[u]);
        proof {
            assert(olds@ =~= old@.take(u + 1));
        }
        u += 1;
    }
    proof {
        let r = restored(state.0.board@, touched@, olds@);
        crate::druid::connectivity::lemma_restored_is(state.0.board@, touched@, olds@, before.board@);
        assert(r =~= before.board@);
    }
    state.2.update(state.0.size, state.0.board.as_slice(), touched.as_slice(), olds.as_slice(), mover);
    state.3.update(&state.0, touched.as_slice());
    state
}

/// What a turn touches: its cells are distinct, on the board, hold `sq`
/// afterwards, and are the only cells that change.
proof fn lemma_touched_cells(before: State, m: PlacedPiece, cells: Seq<usize>, n: int, touched: Seq<usize>, sq: Square)
    requires
        before.wf(),
        playable(before, m),
        cells.len() == 3,
        touched == cells.take(n),
        sq == (Square { height: (before.board@[m.1 as int].height + 1) as u16, piece: Some(before.player) }),
        m.0 == Piece::Sarsen ==> n == 1 && cells[0] == m.1,
        m.0 matches Piece::Lintel(o) ==> n == 3 && forall|k: int| 0 <= k < 3 ==> #[trigger] cells[k] == lintel_cell(
            before.size,
            m.1 as int,
            o,
            k,
        ),
        forall|k: int| 0 <= k < n ==> (#[trigger] cells[k] as int) < before.board@.len(),
    ensures
        placed_board(before.board@, before.size, m, before.player) == set_cells(before.board@, touched, sq, n),
        forall|u: int, v: int| 0 <= u < v < n ==> #[trigger] cells[u] != #[trigger] cells[v],
{
    let b = before.board@;
    assert(set_cells(b, touched, sq, 0) == b);
    match m.0 {
        Piece::Sarsen => {
            assert(touched[0] == cells[0]);
            assert(set_cells(b, touched, sq, 1) == b.update(touched[0] as int, sq));
        },
        Piece::Lintel(o) => {
            let d = lintel_step(before.size, o);
            assert(d >= 1);
            assert(touched[0] == cells[0] && touched[1] == cells[1] && touched[2] == cells[2]);
            assert(cells[0] == m.1 && cells[1] == m.1 + d && cells[2] == m.1 + 2 * d);
            assert(set_cells(b, touched, sq, 1) == b.update(touched[0] as int, sq));
            assert(set_cells(b, touched, sq, 2) == set_cells(b, touched, sq, 1).update(touched[1] as int, sq));
            assert(set_cells(b, touched, sq, 3) == set_cells(b, touched, sq, 2).update(touched[2] as int, sq));
        },
    }
}

/// How a game stands.
#[derive(Clone, Copy, Debug, PartialEq, Eq)]
pub enum TerminalStatus {
    NotTerminal,
    Winner(Player),
    Draw,
}

/// The status of a position: won when a color joins its edges; drawn when
/// nobody has won and the player to move, short of one piece kind, has no
/// legal placement; otherwise still going.
pub open spec fn status_of(s: State) -> TerminalStatus {
    match winner_of(s) {
        Some(w) => TerminalStatus::Winner(w),
        None => {
            let hand = hand_of(s, s.player);
            if (hand.sarsens == 0 || hand.lintels == 0) && legal_moves(s).len() == 0 {
                TerminalStatus::Draw
            } else {
                TerminalStatus::NotTerminal
            }
        },
    }
}

/// The game rules over a position with its caches.
pub struct DruidGame;

impl DruidGame {
    /// The winner, if a color joins its edges (read from the union-finds).
    pub fn winner(state: &HashedState, keys: &DruidKeys) -> (r: Option<Player>)
        requires
            state.inv(*keys),
        ensures
            r == winner_of(state.0),
    {
        proof {
            lemma_supported_small(state.0.size);
            lemma_connectivity_winner(state.2, state.0);
        }
        state.2.winner(state.0.size)
    }

    /// The position's status (see [`status_of`]).
    pub fn terminal_status(state: &HashedState, keys: &DruidKeys) -> (r: TerminalStatus)
        requires
            state.inv(*keys),
        ensures
            r == status_of(state.0),
    {
        if let Some(winner) = Self::winner(state, keys) {
            return TerminalStatus::Winner(winner);
        }
        let hand = state.0.current_hand();
        if hand.sarsens == 0 || hand.lintels == 0 {
            let mut actions: Vec<PlacedPiece> = Vec::new();
            state.0.moves(&mut actions);
            if actions.len() == 0 {
                return TerminalStatus::Draw;
            }
        }
        TerminalStatus::NotTerminal
    }

    /// Whether the game is over.
    pub fn is_terminal(state: &HashedState, keys: &DruidKeys) -> (r: bool)
        requires
            state.inv(*keys),
        ensures
            r == (status_of(state.0) != TerminalStatus::NotTerminal),
    {
        match Self::terminal_status(state, keys) {
            TerminalStatus::NotTerminal => false,
            _ => true,
        }
    }

    /// The player to move.
    pub fn player_to_move(state: &HashedState) -> (r: Player)
        ensures
            r == state.0.player,
    {
        state.0.player
    }

    /// The position's hash.
    pub fn zobrist_hash(state: &HashedState) -> (r: u64)
        ensures
            r == state.1,
    {
        state.1
    }
}

} // verus!
