use boardgames::druid::game::{DruidGame, HashedState, TerminalStatus};
use boardgames::druid::heuristics::heuristic_flags;
use boardgames::druid::moves::{apply_placed, Flat, Move, Split};
use boardgames::druid::types::{default_size, Orientation, Pending, Piece, PieceKind, PlacedPiece, Player, Pos, Size, Square};
use boardgames::druid::zobrist::{full_hash, max_cell_height, zobrist_height_bits, DruidKeys};
use rand::rngs::SmallRng;
use rand::{Rng, SeedableRng};
use std::collections::HashSet;

fn mix(x: &mut u64) -> u64 {
    *x = x.wrapping_add(0x9e37_79b9_7f4a_7c15);
    let mut z = *x;
    z = (z ^ (z >> 30)).wrapping_mul(0xbf58_476d_1ce4_e5b9);
    z = (z ^ (z >> 27)).wrapping_mul(0x94d0_49bb_1331_11eb);
    z ^ (z >> 31)
}

fn keys() -> DruidKeys {
    let mut x: u64 = 0x5EED_D401D;
    let mut cells = [0u64; 1600];
    for k in cells.iter_mut() {
        *k = mix(&mut x);
    }
    let mut pending = [0u64; 5];
    for k in pending.iter_mut() {
        *k = mix(&mut x);
    }
    let player = mix(&mut x);
    let mut hands = [0u64; 32];
    for k in hands.iter_mut() {
        *k = mix(&mut x);
    }
    DruidKeys { cells, pending, player, hands }
}

/// Hands the turn to `player` (re-deriving every cache) and plays `placed`.
fn play_as(state: HashedState, player: Player, placed: PlacedPiece, keys: &DruidKeys) -> HashedState {
    let mut s = state.0.clone();
    s.player = player;
    apply_placed(HashedState::from_state(s, keys), placed, keys)
}

fn place_sarsen(state: HashedState, player: Player, pos: Pos, size: Size, keys: &DruidKeys) -> HashedState {
    play_as(state, player, PlacedPiece(Piece::Sarsen, pos.index(size.w) as u8), keys)
}

/// Re-derives the hash and caches after the board was edited directly.
fn resync(state: HashedState, keys: &DruidKeys) -> HashedState {
    HashedState::from_state(state.0, keys)
}

#[test]
fn test_zobrist_no_aliasing_past_old_area_sized_bit_width() {
    let keys = keys();
    let size = default_size();
    let cell = 0u8;
    let max_height = max_cell_height(size);
    assert_eq!(max_height, 50);

    let mut state = HashedState::new(size, &keys);
    let mut hashes_by_height = std::collections::HashMap::new();
    hashes_by_height.insert(0usize, state.1);

    for h in 1..=max_height {
        state = play_as(state, Player::Black, PlacedPiece(Piece::Sarsen, cell), &keys);
        assert_eq!(state.0.board[cell as usize].height, h as u16);
        // compare positions that differ in the stack height alone
        let mut s = state.0.clone();
        s.player = Player::Black;
        hashes_by_height.insert(h, HashedState::from_state(s, &keys).1);
    }

    let mut seen = HashSet::new();
    for (&h, &hash) in &hashes_by_height {
        assert!(seen.insert(hash), "height {h} collided with another reachable height's hash");
    }

    let old_ceiling = 32usize;
    assert!(max_height > old_ceiling);
    assert_ne!(
        hashes_by_height[&1],
        hashes_by_height[&(1 + old_ceiling)],
        "height 1 and height {} alias, matching the old area-sized bug",
        1 + old_ceiling
    );
}

#[test]
fn test_is_terminal_false_when_one_hand_empty_but_other_can_move() {
    let keys = keys();
    let size = default_size();
    let mut state = HashedState::new(size, &keys);
    state.0.player = Player::Black;
    state.0.board[Pos(0, 0).index(size.w)] = Square { height: 1, piece: Some(Player::Black) };
    state.0.board[Pos(2, 0).index(size.w)] = Square { height: 1, piece: Some(Player::Black) };
    state.0.hand_black.sarsens = 0;
    state.0.hand_black.lintels = 1;
    let state = resync(state, &keys);

    assert!(state.0.connection().is_none());
    let mut actions = Vec::new();
    state.0.moves(&mut actions);
    assert!(!actions.is_empty(), "test setup should have produced a legal lintel move");

    assert!(
        !DruidGame::is_terminal(&state, &keys),
        "an empty sarsen hand must not end the game while a legal lintel move exists"
    );
    assert_eq!(
        DruidGame::terminal_status(&state, &keys),
        TerminalStatus::NotTerminal,
        "terminal_status must agree with is_terminal"
    );
}

#[test]
fn test_is_terminal_true_when_no_legal_moves_remain() {
    let keys = keys();
    let size = default_size();
    let mut state = HashedState::new(size, &keys);
    state.0.player = Player::Black;
    state.0.hand_black.sarsens = 0;
    state.0.hand_black.lintels = 0;
    let state = resync(state, &keys);

    assert!(state.0.connection().is_none());
    let mut actions = Vec::new();
    state.0.moves(&mut actions);
    assert!(actions.is_empty());

    assert!(DruidGame::is_terminal(&state, &keys), "no legal moves with no connection must be terminal");
    assert_eq!(DruidGame::winner(&state, &keys), None, "a no-legal-moves termination is a draw, not a win");
    assert_eq!(
        DruidGame::terminal_status(&state, &keys),
        TerminalStatus::Draw,
        "terminal_status must agree with is_terminal/winner"
    );
}

#[test]
fn test_incremental_hash_matches_full_recompute() {
    let keys = keys();
    for size in [Size { w: 3, h: 3 }, default_size(), Size { w: 7, h: 7 }] {
        let bits = zobrist_height_bits(size);
        let mut rng = SmallRng::seed_from_u64(size.w as u64 * 1000 + size.h as u64);

        for game in 0..20 {
            let mut state = HashedState::new(size, &keys);
            let mut actions = Vec::new();
            for ply in 0..200 {
                Split::generate_actions(&state, &mut actions);
                if actions.is_empty() {
                    break;
                }
                let m = actions[rng.gen_range(0..actions.len())];
                state = Split::apply(state, &m, &keys);
                actions.clear();

                assert_eq!(
                    state.1,
                    full_hash(&state.0, bits, &keys),
                    "incremental hash diverged from full recompute at size={size:?} game={game} ply={ply} move={m:?}"
                );
            }
        }
    }
}

#[test]
fn test_is_terminal_true_on_connection_regardless_of_hands() {
    let keys = keys();
    let size = default_size();
    let mut state = HashedState::new(size, &keys);
    for x in 0..size.w {
        let i = Pos(x, 0).index(size.w);
        state.0.board[i] = Square { height: 1, piece: Some(Player::White) };
    }
    let state = resync(state, &keys);
    assert_eq!(state.0.connection(), Some(Player::White));
    assert!(DruidGame::is_terminal(&state, &keys), "a completed connection must be terminal");
    assert_eq!(
        DruidGame::terminal_status(&state, &keys),
        TerminalStatus::Winner(Player::White),
        "terminal_status must agree with is_terminal/connection"
    );
}

#[test]
fn test_connectivity_survives_a_move_that_flips_the_bridging_cell() {
    let keys = keys();
    let size = default_size();
    let mut state = HashedState::new(size, &keys);
    let col = 2u8;
    let mid = size.h / 2;

    for y in [0, 1, size.h - 2, size.h - 1] {
        state = place_sarsen(state, Player::Black, Pos(col, y), size, &keys);
    }
    assert_eq!(state.0.connection(), None, "gapped column must not be connected yet");
    assert_eq!(DruidGame::winner(&state, &keys), None, "incremental winner must agree");

    state = place_sarsen(state, Player::Black, Pos(col, mid), size, &keys);
    assert_eq!(state.0.connection(), Some(Player::Black), "filling the gap should complete the connection");
    assert_eq!(DruidGame::winner(&state, &keys), Some(Player::Black), "incremental winner must agree");

    state = place_sarsen(state, Player::White, Pos(col - 1, mid), size, &keys);
    state = place_sarsen(state, Player::White, Pos(col + 1, mid), size, &keys);
    state = play_as(
        state,
        Player::White,
        PlacedPiece(Piece::Lintel(Orientation::Horizontal), Pos(col - 1, mid).index(size.w) as u8),
        &keys,
    );

    assert_eq!(
        state.0.connection(),
        None,
        "the lintel should have broken Black's column by repainting the bridge cell"
    );
    assert_eq!(
        DruidGame::winner(&state, &keys),
        None,
        "incremental winner() must reflect the broken bridge, not the stale pre-flip connection"
    );
}

#[test]
fn test_incremental_connectivity_matches_full_recompute() {
    let keys = keys();
    for size in [Size { w: 3, h: 3 }, default_size(), Size { w: 7, h: 7 }] {
        let mut rng = SmallRng::seed_from_u64(0xC0117 + size.w as u64 * 1000 + size.h as u64);
        for game in 0..20 {
            let mut state = HashedState::new(size, &keys);
            let mut actions = Vec::new();
            for ply in 0..200 {
                if state.0.connection().is_some() {
                    break;
                }
                state.0.moves(&mut actions);
                if actions.is_empty() {
                    break;
                }
                let m = actions[rng.gen_range(0..actions.len())];
                state = apply_placed(state, m, &keys);
                actions.clear();
                assert_eq!(
                    DruidGame::winner(&state, &keys),
                    state.0.connection(),
                    "incremental winner diverged from full recompute at size={size:?} game={game} ply={ply}"
                );
            }
        }
    }
}

fn collect_via_tree(state: &HashedState, keys: &DruidKeys) -> HashSet<PlacedPiece> {
    let mut out = HashSet::new();
    let mut piece_actions = Vec::new();
    Split::generate_actions(state, &mut piece_actions);
    for pa in piece_actions {
        match pa {
            Move::Piece(kind) => {
                let s1 = Split::apply(state.clone(), &pa, keys);
                let mut next = Vec::new();
                Split::generate_actions(&s1, &mut next);
                match kind {
                    PieceKind::Sarsen => {
                        for ca in next {
                            if let Move::Cell(idx) = ca {
                                out.insert(PlacedPiece(Piece::Sarsen, idx));
                            }
                        }
                    }
                    PieceKind::Lintel => {
                        for oa in next {
                            if let Move::Orientation(o) = oa {
                                let s2 = Split::apply(s1.clone(), &oa, keys);
                                let mut cells = Vec::new();
                                Split::generate_actions(&s2, &mut cells);
                                for ca in cells {
                                    if let Move::Cell(idx) = ca {
                                        out.insert(PlacedPiece(Piece::Lintel(o), idx));
                                    }
                                }
                            }
                        }
                    }
                }
            }
            _ => panic!("root actions must be Piece"),
        }
    }
    out
}

#[test]
fn test_generate_actions_matches_full_recompute() {
    let keys = keys();
    for size in [Size { w: 3, h: 3 }, default_size(), Size { w: 7, h: 7 }] {
        let mut rng = SmallRng::seed_from_u64(0x5EED + size.w as u64 * 1000 + size.h as u64);
        for game in 0..20 {
            let mut state = HashedState::new(size, &keys);
            let mut actions = Vec::new();
            for ply in 0..200 {
                state.0.moves(&mut actions);
                if actions.is_empty() {
                    break;
                }
                let ground: HashSet<PlacedPiece> = actions.iter().copied().collect();
                let via_tree = collect_via_tree(&state, &keys);
                assert_eq!(
                    via_tree, ground,
                    "tree-collected moves diverged from ground truth at size={size:?} game={game} ply={ply}"
                );
                let m = actions[rng.gen_range(0..actions.len())];
                state = apply_placed(state, m, &keys);
                actions.clear();
            }
        }
    }
}

#[test]
fn test_from_state_matches_incrementally_built_state() {
    let keys = keys();
    for size in [Size { w: 3, h: 3 }, default_size(), Size { w: 7, h: 7 }] {
        let mut rng = SmallRng::seed_from_u64(0xF20_5747E + size.w as u64 * 1000 + size.h as u64);
        for game in 0..20 {
            let mut incremental = HashedState::new(size, &keys);
            let mut actions = Vec::new();
            for ply in 0..200 {
                incremental.0.moves(&mut actions);
                if actions.is_empty() {
                    break;
                }
                let m = actions[rng.gen_range(0..actions.len())];
                incremental = apply_placed(incremental, m, &keys);
                actions.clear();

                let rebuilt = HashedState::from_state(incremental.state().clone(), &keys);
                assert_eq!(rebuilt.1, incremental.1, "from_state hash diverged at size={size:?} game={game} ply={ply}");
                assert_eq!(
                    DruidGame::winner(&rebuilt, &keys),
                    DruidGame::winner(&incremental, &keys),
                    "from_state winner diverged at size={size:?} game={game} ply={ply}"
                );
                assert_eq!(
                    DruidGame::is_terminal(&rebuilt, &keys),
                    DruidGame::is_terminal(&incremental, &keys),
                    "from_state terminal status diverged at size={size:?} game={game} ply={ply}"
                );
                if !DruidGame::is_terminal(&rebuilt, &keys) {
                    let mut rebuilt_actions = Vec::new();
                    Split::generate_actions(&rebuilt, &mut rebuilt_actions);
                    let mut incremental_actions = Vec::new();
                    Split::generate_actions(&incremental, &mut incremental_actions);
                    assert_eq!(
                        rebuilt_actions, incremental_actions,
                        "from_state legal moves diverged at size={size:?} game={game} ply={ply}"
                    );
                }
            }
        }
    }
}

#[test]
fn test_connect_distance_zero_iff_connected() {
    let keys = keys();
    let size = Size { w: 4, h: 4 };
    let mut state = HashedState::new(size, &keys);
    assert_eq!(
        state.0.connect_distance(Player::Black),
        size.h as u32,
        "empty board: every row costs 1, so the full height must be paid"
    );

    let col = 1u8;
    for y in 0..size.h - 1 {
        let i = Pos(col, y).index(size.w);
        state.0.board[i] = Square { height: 1, piece: Some(Player::Black) };
    }
    state = resync(state, &keys);
    assert_eq!(state.0.connection(), None, "one cell short must not be connected yet");
    assert_eq!(state.0.connect_distance(Player::Black), 1, "one cell short of a column should cost exactly 1");

    let i = Pos(col, size.h - 1).index(size.w);
    state.0.board[i] = Square { height: 1, piece: Some(Player::Black) };
    state = resync(state, &keys);
    assert_eq!(state.0.connection(), Some(Player::Black));
    assert_eq!(state.0.connect_distance(Player::Black), 0, "a completed connection must cost exactly 0");
}

fn flags_at(state: &HashedState, available: &[PlacedPiece], m: PlacedPiece) -> (bool, bool, bool) {
    let flags = heuristic_flags(state, Player::Black, available);
    let idx = available.iter().position(|x| *x == m).expect("move should be legal");
    (flags[idx].block_threat, flags[idx].defend_fork, flags[idx].threaten_connection)
}

#[test]
fn test_heuristic_scores_flags_blocking_a_lintel_threat() {
    let keys = keys();
    let size = default_size();
    let mut state = HashedState::new(size, &keys);
    state = place_sarsen(state, Player::Black, Pos(1, 2), size, &keys);
    state = place_sarsen(state, Player::White, Pos(0, 2), size, &keys);
    state = place_sarsen(state, Player::White, Pos(2, 2), size, &keys);
    let mut s = state.0.clone();
    s.player = Player::Black;
    let state = HashedState::from_state(s, &keys);

    let mut available = Vec::new();
    state.0.moves(&mut available);

    let threatened_cell = Pos(1, 2).index(size.w);
    let (block, _, _) = flags_at(&state, &available, PlacedPiece(Piece::Sarsen, threatened_cell as u8));
    assert!(block, "move touching the threatened cell should get block-threat credit");

    let unrelated = PlacedPiece(Piece::Sarsen, Pos(4, 4).index(size.w) as u8);
    assert_eq!(flags_at(&state, &available, unrelated), (false, false, false), "unrelated move should score 0");
}

#[test]
fn test_heuristic_scores_does_not_flag_a_threat_the_opponent_cannot_play() {
    let keys = keys();
    let size = default_size();
    let mut state = HashedState::new(size, &keys);
    state = place_sarsen(state, Player::Black, Pos(1, 2), size, &keys);
    state = place_sarsen(state, Player::White, Pos(0, 2), size, &keys);
    state = place_sarsen(state, Player::White, Pos(2, 2), size, &keys);
    let mut s = state.0.clone();
    s.hand_white.lintels = 0;
    s.player = Player::Black;
    let state = HashedState::from_state(s, &keys);

    let mut available = Vec::new();
    state.0.moves(&mut available);
    let threatened_cell = Pos(1, 2).index(size.w);
    let (block, _, _) = flags_at(&state, &available, PlacedPiece(Piece::Sarsen, threatened_cell as u8));
    assert!(!block, "opponent with no lintels left can't threaten, so no block credit is due");
}

#[test]
fn test_heuristic_scores_flags_a_fork_of_two_connecting_lintels() {
    let keys = keys();
    let size = default_size();
    let mut state = HashedState::new(size, &keys);
    for pos in [Pos(0, 2), Pos(0, 3), Pos(2, 2), Pos(2, 3)] {
        state = place_sarsen(state, Player::Black, pos, size, &keys);
    }
    state = place_sarsen(state, Player::Black, Pos(2, 0), size, &keys);
    state = place_sarsen(state, Player::Black, Pos(4, 0), size, &keys);
    let mut s = state.0.clone();
    s.player = Player::Black;
    let state = HashedState::from_state(s, &keys);

    let mut available = Vec::new();
    state.0.moves(&mut available);

    for anchor in [Pos(0, 2), Pos(0, 3)] {
        let fork_move = PlacedPiece(Piece::Lintel(Orientation::Horizontal), anchor.index(size.w) as u8);
        let (_, fork, _) = flags_at(&state, &available, fork_move);
        assert!(fork, "{fork_move:?} completes the shared connection and should get fork credit");
    }

    let single_connector = PlacedPiece(Piece::Lintel(Orientation::Horizontal), Pos(2, 0).index(size.w) as u8);
    let (_, fork, _) = flags_at(&state, &available, single_connector);
    assert!(!fork, "a connecting move with no alternate way to complete the same connection isn't a fork");
}

#[test]
fn test_heuristic_scores_flags_extending_toward_the_far_border_and_opponent_chokepoints() {
    let keys = keys();
    let size = default_size();
    let mut state = HashedState::new(size, &keys);
    state = place_sarsen(state, Player::Black, Pos(2, 0), size, &keys);
    state = place_sarsen(state, Player::White, Pos(4, 2), size, &keys);
    state = place_sarsen(state, Player::White, Pos(4, 3), size, &keys);
    let mut s = state.0.clone();
    s.player = Player::Black;
    let state = HashedState::from_state(s, &keys);

    let mut available = Vec::new();
    state.0.moves(&mut available);

    let extend = PlacedPiece(Piece::Sarsen, Pos(2, 1).index(size.w) as u8);
    let (_, _, threaten) = flags_at(&state, &available, extend);
    assert!(threaten, "a move extending toward the far border should get threaten-connection credit");

    let backward = PlacedPiece(Piece::Sarsen, Pos(0, 0).index(size.w) as u8);
    let (_, _, threaten) = flags_at(&state, &available, backward);
    assert!(!threaten, "an unrelated move away from both the frontier and the opponent shouldn't get credit");
}

#[test]
fn test_terminal_status_false_when_pending_not_none() {
    let keys = keys();
    let size = Size { w: 3, h: 3 };
    let mut state = HashedState::new(size, &keys);
    state = Split::apply(state, &Move::Piece(PieceKind::Sarsen), &keys);
    assert_ne!(state.0.pending, Pending::Idle);

    assert!(!DruidGame::is_terminal(&state, &keys), "mid-turn state must not be terminal");
    assert_eq!(DruidGame::winner(&state, &keys), None, "mid-turn state has no winner");
    assert!(
        matches!(DruidGame::terminal_status(&state, &keys), TerminalStatus::NotTerminal),
        "terminal_status must agree with is_terminal"
    );
}

#[test]
fn flat_apply_matches_apply_placed() {
    let keys = keys();
    for size in [Size { w: 3, h: 3 }, default_size(), Size { w: 7, h: 7 }] {
        let mut rng = SmallRng::seed_from_u64(0xA9 + size.w as u64 * 1000 + size.h as u64);
        for game in 0..20 {
            let mut state = HashedState::new(size, &keys);
            let mut actions = Vec::new();
            for ply in 0..100 {
                state.0.moves(&mut actions);
                if actions.is_empty() {
                    break;
                }
                let m = actions[rng.gen_range(0..actions.len())];
                let after_flat = Flat::apply(state.clone(), &m, &keys);
                let after_split = apply_placed(state, m, &keys);
                assert_eq!(
                    *after_flat.state(),
                    *after_split.state(),
                    "flat vs split state diverged at size={size:?} game={game} ply={ply} move={m:?}"
                );
                assert_eq!(after_flat.1, after_split.1, "flat vs split hash diverged at size={size:?} game={game} ply={ply}");
                state = after_flat;
                actions.clear();
            }
        }
    }
}

#[test]
fn flat_incremental_hash_matches_full_recompute() {
    let keys = keys();
    for size in [Size { w: 3, h: 3 }, default_size(), Size { w: 7, h: 7 }] {
        let bits = zobrist_height_bits(size);
        let mut rng = SmallRng::seed_from_u64(size.w as u64 * 1000 + size.h as u64);
        for game in 0..20 {
            let mut state = HashedState::new(size, &keys);
            let mut actions = Vec::new();
            for ply in 0..200 {
                Flat::generate_actions(&state, &mut actions);
                if actions.is_empty() {
                    break;
                }
                let m = actions[rng.gen_range(0..actions.len())];
                state = Flat::apply(state, &m, &keys);
                actions.clear();
                assert_eq!(
                    state.1,
                    full_hash(&state.0, bits, &keys),
                    "flat incremental hash diverged at size={size:?} game={game} ply={ply}"
                );
            }
        }
    }
}
