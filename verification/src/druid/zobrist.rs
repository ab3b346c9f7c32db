//! Zobrist hashing of a Druid position. Board cells, the pending
//! sub-action, the player to move and both hands' remaining counts each
//! contribute XOR'd keys. A cell contributes one key per set bit of its
//! height (for the color on top), and a hand count one key per set bit of
//! the count, so the hash of a bounded counter stays a plain XOR.

use vstd::prelude::*;
use crate::bits::bit;
use crate::druid::state::State;
use crate::druid::types::{
    bit_len, hand_sarsens, height_bits, player_index, Hand, Orientation, Pending, PieceKind, Player,
    Size, Square, HAND_HASHES_LEN, HASHES_LEN,
};

verus! {

/// The key tables a hash is drawn from: one key per (cell, color, height
/// bit), one per pending sub-action, one for White to move, and one per
/// (player, piece kind, count bit).
pub struct DruidKeys {
    pub cells: [u64; HASHES_LEN],
    pub pending: [u64; 5],
    pub player: u64,
    pub hands: [u64; HAND_HASHES_LEN],
}

/// XOR of `keys[base + b]` over the bits `b < n` set in `value`.
pub open spec fn xor_bits(keys: Seq<u64>, base: int, value: u64, n: int) -> u64
    decreases n,
{
    if n <= 0 {
        0
    } else {
        xor_bits(keys, base, value, n - 1) ^ (if bit(value, (n - 1) as u64) {
            keys[base + n - 1]
        } else {
            0u64
        })
    }
}

/// XOR of `keys[base + b]` over the bits `b < bits` set in `value`.
fn xor_key_bits(keys: &[u64], base: usize, value: u64, bits: usize) -> (r: u64)
    requires
        bits <= 64,
        base + bits <= keys@.len() <= HASHES_LEN,
    ensures
        r == xor_bits(keys@, base as int, value, bits as int),
{
    let mut hash: u64 = 0;
    let mut b: usize = 0;
    while b < bits
        invariant
            bits <= 64,
            base + bits <= keys@.len() <= HASHES_LEN,
            b <= bits,
            hash == xor_bits(keys@, base as int, value, b as int),
        decreases bits - b,
    {
        let on = (value >> (b as u64)) & 1 == 1;
        if on {
            hash = hash ^ keys[base + b];
        } else {
            proof {
                assert(hash ^ 0u64 == hash) by (bit_vector);
            }
        }
        b += 1;
    }
    hash
}

/// Key of the player to move: Black contributes nothing.
pub open spec fn player_key(keys: DruidKeys, p: Player) -> u64 {
    match p {
        Player::Black => 0,
        Player::White => keys.player,
    }
}

/// XOR contribution of the player to move.
pub fn player_zobrist(p: Player, keys: &DruidKeys) -> (r: u64)
    ensures
        r == player_key(*keys, p),
{
    match p {
        Player::Black => 0,
        Player::White => keys.player,
    }
}

/// A piece kind's slot: sarsen 0, lintel 1.
pub open spec fn kind_slot(k: PieceKind) -> int {
    match k {
        PieceKind::Sarsen => 0,
        PieceKind::Lintel => 1,
    }
}

/// A piece kind's slot: sarsen 0, lintel 1.
pub fn kind_index(k: PieceKind) -> (r: usize)
    ensures
        r == kind_slot(k),
{
    match k {
        PieceKind::Sarsen => 0,
        PieceKind::Lintel => 1,
    }
}

/// Key of one player's remaining count of one piece kind, `bits` bits per
/// count.
pub open spec fn hand_key(keys: DruidKeys, player: Player, kind: PieceKind, count: u8, bits: int) -> u64 {
    if count == 0 {
        0
    } else {
        let track = player_index(player) * 2 + kind_slot(kind);
        xor_bits(keys.hands@, track * bits, count as u64, bits)
    }
}

/// XOR contribution of one player's remaining count of `kind` pieces.
pub fn hand_zobrist(player: Player, kind: PieceKind, count: u8, bits: usize, keys: &DruidKeys) -> (r: u64)
    requires
        4 * bits <= HAND_HASHES_LEN,
    ensures
        r == hand_key(*keys, player, kind, count, bits as int),
{
    if count == 0 {
        return 0;
    }
    let track = player.index() * 2 + kind_index(kind);
    proof {
        assert(track * bits + bits <= 4 * bits) by (nonlinear_arith)
            requires
                track <= 3,
        ;
    }
    let base = track * bits;
    xor_key_bits(&keys.hands, base, count as u64, bits)
}

/// A pending sub-action's slot.
pub open spec fn pending_slot(p: Pending) -> int {
    match p {
        Pending::Idle => 0,
        Pending::Piece(PieceKind::Sarsen) => 1,
        Pending::Piece(PieceKind::Lintel) => 2,
        Pending::Oriented(Orientation::Horizontal) => 3,
        Pending::Oriented(Orientation::Vertical) => 4,
    }
}

/// A pending sub-action's slot.
pub fn pending_index(p: Pending) -> (r: usize)
    ensures
        r == pending_slot(p),
{
    match p {
        Pending::Idle => 0,
        Pending::Piece(PieceKind::Sarsen) => 1,
        Pending::Piece(PieceKind::Lintel) => 2,
        Pending::Oriented(Orientation::Horizontal) => 3,
        Pending::Oriented(Orientation::Vertical) => 4,
    }
}

/// Key of the pending sub-action: none pending contributes nothing.
pub open spec fn pending_key(keys: DruidKeys, p: Pending) -> u64 {
    match p {
        Pending::Idle => 0,
        _ => keys.pending@[pending_slot(p)],
    }
}

/// XOR contribution of the pending sub-action.
pub fn pending_zobrist(p: Pending, keys: &DruidKeys) -> (r: u64)
    ensures
        r == pending_key(*keys, p),
{
    match p {
        Pending::Idle => 0,
        _ => keys.pending[pending_index(p)],
    }
}

/// The tallest stack one cell can reach: a hand's sarsens.
pub fn max_cell_height(size: Size) -> (r: usize)
    requires
        hand_sarsens(size) <= u8::MAX,
    ensures
        r == hand_sarsens(size),
{
    Hand::new(size).sarsens as usize
}

/// Bits a cell height takes in the hash (see [`height_bits`]).
pub fn zobrist_height_bits(size: Size) -> (r: usize)
    requires
        hand_sarsens(size) <= u8::MAX,
    ensures
        r == height_bits(size),
        r <= 8,
{
    let top = max_cell_height(size);
    proof {
        lemma_bit_len_le8(top as nat);
    }
    let mut v: usize = top;
    let mut bits: usize = 0;
    while v > 0
        invariant
            v <= top <= 255,
            bits + bit_len(v as nat) == bit_len(top as nat),
            bit_len(top as nat) <= 8,
        decreases v,
    {
        proof {
            lemma_bit_len_step(v as nat);
        }
        v = v / 2;
        bits += 1;
    }
    bits
}

/// One halving step of [`bit_len`].
proof fn lemma_bit_len_step(v: nat)
    requires
        v > 0,
    ensures
        bit_len(v) == 1 + bit_len(v / 2),
{
}

/// A byte has at most 8 bits.
proof fn lemma_bit_len_le8(v: nat)
    requires
        v <= 255,
    ensures
        bit_len(v) <= 8,
{
    reveal_with_fuel(bit_len, 9);
}

/// Key of one cell with `height` pieces and `piece` on top, at index `i`.
pub open spec fn cell_key(keys: DruidKeys, i: int, height: u16, piece: Option<Player>, bits: int) -> u64 {
    if height == 0 {
        0
    } else {
        let c = match piece {
            Some(p) => player_index(p),
            None => 0,
        };
        xor_bits(keys.cells@, (i * 2 + c) * bits, height as u64, bits)
    }
}

/// XOR contribution of one cell.
pub fn cell_zobrist(i: usize, height: u16, piece: Option<Player>, bits: usize, keys: &DruidKeys) -> (r: u64)
    requires
        bits <= 64,
        height != 0 ==> i * 2 + 2 <= usize::MAX && (i * 2 + 2) * bits <= HASHES_LEN,
    ensures
        r == cell_key(*keys, i as int, height, piece, bits as int),
{
    if height == 0 {
        return 0;
    }
    let c: usize = match piece {
        Some(p) => p.index(),
        None => 0,
    };
    proof {
        assert((i * 2 + c) * bits + bits <= (i * 2 + 2) * bits) by (nonlinear_arith)
            requires
                c <= 1,
        ;
    }
    let slot = i * 2 + c;
    let base = slot * bits;
    xor_key_bits(&keys.cells, base, height as u64, bits)
}

/// XOR of the keys of the first `n` cells of a board.
pub open spec fn board_key(keys: DruidKeys, board: Seq<Square>, bits: int, n: int) -> u64
    decreases n,
{
    if n <= 0 {
        0
    } else {
        board_key(keys, board, bits, n - 1) ^ cell_key(keys, n - 1, board[n - 1].height, board[n - 1].piece, bits)
    }
}

/// The full hash of a position: board, pending sub-action, player to move
/// and all four hand counts.
pub open spec fn position_key(keys: DruidKeys, s: State, bits: int) -> u64 {
    board_key(keys, s.board@, bits, s.board@.len() as int) ^ pending_key(keys, s.pending) ^ player_key(keys, s.player)
        ^ hand_key(keys, Player::Black, PieceKind::Sarsen, s.hand_black.sarsens, bits)
        ^ hand_key(keys, Player::Black, PieceKind::Lintel, s.hand_black.lintels, bits)
        ^ hand_key(keys, Player::White, PieceKind::Sarsen, s.hand_white.sarsens, bits)
        ^ hand_key(keys, Player::White, PieceKind::Lintel, s.hand_white.lintels, bits)
}

/// From-scratch hash of the board cells.
pub fn recompute_hash(state: &State, bits: usize, keys: &DruidKeys) -> (r: u64)
    requires
        bits <= 64,
        state.board@.len() <= u8::MAX,
        state.board@.len() * 2 * bits <= HASHES_LEN,
    ensures
        r == board_key(*keys, state.board@, bits as int, state.board@.len() as int),
{
    let n = state.board.len();
    let mut hash: u64 = 0;
    let mut i: usize = 0;
    while i < n
        invariant
            n == state.board@.len(),
            n <= u8::MAX,
            bits <= 64,
            n * 2 * bits <= HASHES_LEN,
            i <= n,
            hash == board_key(*keys, state.board@, bits as int, i as int),
        decreases n - i,
    {
        proof {
            assert((i * 2 + 2) * bits <= n * 2 * bits) by (nonlinear_arith)
                requires
                    i < n,
            ;
        }
        let sq = state.board[i];
        hash = hash ^ cell_zobrist(i, sq.height, sq.piece, bits, keys);
        i += 1;
    }
    hash
}

/// Full from-scratch hash of a position.
pub fn full_hash(state: &State, bits: usize, keys: &DruidKeys) -> (r: u64)
    requires
        4 * bits <= HAND_HASHES_LEN,
        state.board@.len() <= u8::MAX,
        state.board@.len() * 2 * bits <= HASHES_LEN,
    ensures
        r == position_key(*keys, *state, bits as int),
{
    recompute_hash(state, bits, keys) ^ pending_zobrist(state.pending, keys) ^ player_zobrist(state.player, keys)
        ^ hand_zobrist(Player::Black, PieceKind::Sarsen, state.hand_black.sarsens, bits, keys)
        ^ hand_zobrist(Player::Black, PieceKind::Lintel, state.hand_black.lintels, bits, keys)
        ^ hand_zobrist(Player::White, PieceKind::Sarsen, state.hand_white.sarsens, bits, keys)
        ^ hand_zobrist(Player::White, PieceKind::Lintel, state.hand_white.lintels, bits, keys)
}

/// Changing one cell changes the board key by that cell's old and new keys.
pub proof fn lemma_board_key_update(keys: DruidKeys, board: Seq<Square>, bits: int, i: int, sq: Square, n: int)
    requires
        0 <= i < board.len(),
        0 <= n <= board.len(),
    ensures
        board_key(keys, board.update(i, sq), bits, n) == (if i < n {
            board_key(keys, board, bits, n) ^ (cell_key(keys, i, board[i].height, board[i].piece, bits) ^ cell_key(
                keys,
                i,
                sq.height,
                sq.piece,
                bits,
            ))
        } else {
            board_key(keys, board, bits, n)
        }),
    decreases n,
{
    if n > 0 {
        lemma_board_key_update(keys, board, bits, i, sq, n - 1);
        let b2 = board.update(i, sq);
        let a = board_key(keys, board, bits, n - 1);
        let o = cell_key(keys, i, board[i].height, board[i].piece, bits);
        let x = cell_key(keys, i, sq.height, sq.piece, bits);
        let c = cell_key(keys, n - 1, board[n - 1].height, board[n - 1].piece, bits);
        if i < n - 1 {
            assert(b2[n - 1] == board[n - 1]);
            crate::bits::lemma_xor_regroup(a, 0, c, o ^ x);
        } else if i == n - 1 {
            crate::bits::lemma_xor_regroup(a, o, x, 0);
        }
    }
}

/// A position's key from its parts: board, pending, player, and the four
/// hand counts (Black sarsens, Black lintels, White sarsens, White
/// lintels).
pub open spec fn key_of_parts(b: u64, pe: u64, pl: u64, h1: u64, h2: u64, h3: u64, h4: u64) -> u64 {
    b ^ pe ^ pl ^ h1 ^ h2 ^ h3 ^ h4
}

/// XOR-ing out one part and XOR-ing in its replacement replaces that part.
pub proof fn lemma_replace_part(b: u64, pe: u64, pl: u64, h1: u64, h2: u64, h3: u64, h4: u64, y: u64)
    by (bit_vector)
    ensures
        key_of_parts(b, pe, pl, h1, h2, h3, h4) ^ b ^ y == key_of_parts(y, pe, pl, h1, h2, h3, h4),
        key_of_parts(b, pe, pl, h1, h2, h3, h4) ^ pe ^ y == key_of_parts(b, y, pl, h1, h2, h3, h4),
        key_of_parts(b, pe, pl, h1, h2, h3, h4) ^ pl ^ y == key_of_parts(b, pe, y, h1, h2, h3, h4),
        key_of_parts(b, pe, pl, h1, h2, h3, h4) ^ h1 ^ y == key_of_parts(b, pe, pl, y, h2, h3, h4),
        key_of_parts(b, pe, pl, h1, h2, h3, h4) ^ h2 ^ y == key_of_parts(b, pe, pl, h1, y, h3, h4),
        key_of_parts(b, pe, pl, h1, h2, h3, h4) ^ h3 ^ y == key_of_parts(b, pe, pl, h1, h2, y, h4),
        key_of_parts(b, pe, pl, h1, h2, h3, h4) ^ h4 ^ y == key_of_parts(b, pe, pl, h1, h2, h3, y),
        key_of_parts(b, pe, pl, h1, h2, h3, h4) ^ y == key_of_parts(b ^ y, pe, pl, h1, h2, h3, h4),
{
}

/// The key of a position is the key of its parts.
pub proof fn lemma_position_parts(keys: DruidKeys, s: State, bits: int)
    ensures
        position_key(keys, s, bits) == key_of_parts(
            board_key(keys, s.board@, bits, s.board@.len() as int),
            pending_key(keys, s.pending),
            player_key(keys, s.player),
            hand_key(keys, Player::Black, PieceKind::Sarsen, s.hand_black.sarsens, bits),
            hand_key(keys, Player::Black, PieceKind::Lintel, s.hand_black.lintels, bits),
            hand_key(keys, Player::White, PieceKind::Sarsen, s.hand_white.sarsens, bits),
            hand_key(keys, Player::White, PieceKind::Lintel, s.hand_white.lintels, bits),
        ),
{
}

} // verus!
