use boardgames::druid::connectivity::{Connectivity, DisjointSet};
use boardgames::druid::game::{DruidGame, HashedState, TerminalStatus};
use boardgames::druid::heuristics::{advance_cells, heuristic_flags, largest_group, threatened_cells};
use boardgames::druid::moves::{apply_placed, Flat, Move, Split};
use boardgames::druid::state::State;
use boardgames::druid::types::{default_size, Hand, Orientation, Pending, Piece, PieceKind, PlacedPiece, Player, Pos, Size, Square};
use boardgames::druid::zobrist::{full_hash, max_cell_height, zobrist_height_bits, DruidKeys};

fn mix(x: &mut u64) -> u64 {
    *x = x.wrapping_add(0x9e37_79b9_7f4a_7c15);
    let mut z = *x;
    z = (z ^ (z >> 30)).wrapping_mul(0xbf58_476d_1ce4_e5b9);
    z = (z ^ (z >> 27)).wrapping_mul(0x94d0_49bb_1331_11eb);
    z ^ (z >> 31)
}

fn keys() -> DruidKeys {
    let mut x: u64 = 0xD401D;
    let mut cells = [0u64; 1600];
    for k in cells.iter_mut() {
        *k = mix(&mut x);
    }
    let mut pending = [0u64; 5];
    for k in pending.iter_mut() {
        *k = mix(&mut x);
    }
    let player = mix(&mut x);
    let mut hands = [0u64; 32];
    for k in hands.iter_mut() {
        *k = mix(&mut x);
    }
    DruidKeys { cells, pending, player, hands }
}

#[test]
fn test_max_cell_height_matches_hand_sarsens() {
    for size in [Size { w: 3, h: 3 }, default_size(), Size { w: 7, h: 7 }, Size { w: 9, h: 9 }, Size { w: 10, h: 10 }] {
        assert_eq!(max_cell_height(size), Hand::new(size).sarsens as usize);
    }
}

#[test]
fn test_is_supported_accepts_default_and_common_sizes() {
    for size in [Size { w: 3, h: 3 }, default_size(), Size { w: 7, h: 7 }, Size { w: 9, h: 9 }, Size { w: 10, h: 10 }] {
        assert!(size.is_supported(), "{size:?} should be supported under the corrected bit width");
    }
}

#[test]
fn test_zobrist_height_encoding_is_injective_over_full_range() {
    let k = keys();
    for size in [Size { w: 3, h: 3 }, default_size(), Size { w: 7, h: 7 }, Size { w: 9, h: 9 }, Size { w: 10, h: 10 }] {
        let bits = zobrist_height_bits(size);
        assert!((1usize << bits) > max_cell_height(size));
        let mut seen = std::collections::HashSet::new();
        for h in 0..(1usize << bits) {
            let mut hash = 0u64;
            for b in 0..bits {
                if h & (1 << b) != 0 {
                    hash ^= k.cells[b];
                }
            }
            assert!(seen.insert(hash), "height {h} collided for size {size:?} (bits={bits})");
        }
    }
}

// Own tests.

#[test]
fn unsupported_sizes_are_refused() {
    assert!(!Size { w: 2, h: 9 }.is_supported());
    assert!(!Size { w: 11, h: 11 }.is_supported());
    assert_eq!(zobrist_height_bits(Size { w: 10, h: 10 }), 8);
    assert_eq!(zobrist_height_bits(default_size()), 6);
}

#[test]
fn positions_and_pieces() {
    let size = default_size();
    assert_eq!(Pos::from(7, size), Pos(2, 1));
    assert_eq!(Pos(2, 1).index(size.w), 7);
    assert_eq!(Pos(0, 0).adjacent(size), vec![Pos(1, 0), Pos(0, 1)]);
    assert_eq!(Pos(2, 2).adjacent(size), vec![Pos(1, 2), Pos(3, 2), Pos(2, 1), Pos(2, 3)]);
    assert_eq!(Piece::Lintel(Orientation::Vertical).kind(), PieceKind::Lintel);
    assert_eq!(Orientation::Vertical.delta(), (0, 1));
    assert_eq!(Hand::new(size), Hand { sarsens: 50, lintels: 25 });
    assert_eq!(Pending::default(), Pending::Idle);
    let mut p = Player::Black;
    p.next();
    assert_eq!(p, Player::White);
}

fn place(state: HashedState, player: Player, pos: Pos, keys: &DruidKeys) -> HashedState {
    let mut state = state;
    if state.0.player != player {
        // hand the turn over by re-hashing from scratch
        let mut s = state.0.clone();
        s.player = player;
        state = HashedState::from_state(s, keys);
    }
    let idx = pos.index(state.0.size.w) as u8;
    apply_placed(state, PlacedPiece(Piece::Sarsen, idx), keys)
}

#[test]
fn black_column_connects_top_to_bottom() {
    let keys = keys();
    let size = Size { w: 3, h: 3 };
    let mut state = HashedState::new(size, &keys);
    assert_eq!(state.0.connection(), None);
    for y in 0..3 {
        state = place(state, Player::Black, Pos(1, y), &keys);
    }
    assert_eq!(state.0.connection(), Some(Player::Black));
    assert_eq!(state.0.connect_distance(Player::Black), 0);
    assert!(state.0.connect_distance(Player::White) >= 1);
}

#[test]
fn connect_distance_counts_missing_cells() {
    let size = default_size();
    let mut s = State::new(size);
    assert_eq!(s.connect_distance(Player::Black), 5);
    assert_eq!(s.connect_distance(Player::White), 5);
    s.board[Pos(2, 0).index(size.w)] = Square { height: 1, piece: Some(Player::Black) };
    s.board[Pos(2, 1).index(size.w)] = Square { height: 1, piece: Some(Player::Black) };
    assert_eq!(s.connect_distance(Player::Black), 3);
    let goals: Vec<Pos> = (0..size.w).map(|x| Pos(x, 1)).collect();
    let starts: Vec<Pos> = (0..size.w).map(|x| Pos(x, 0)).collect();
    assert!(s.check_connection(starts, goals, Player::Black));
}

#[test]
fn flat_generate_actions_matches_state_moves() {
    let keys = keys();
    let mut state = HashedState::new(Size { w: 3, h: 3 }, &keys);
    for ply in 0..12 {
        let mut truth = Vec::new();
        state.0.moves(&mut truth);
        if truth.is_empty() {
            break;
        }
        let mut via_flat = Vec::new();
        Flat::generate_actions(&state, &mut via_flat);
        assert_eq!(via_flat, truth, "ply {ply}");
        let m = truth[(ply * 7) % truth.len()];
        state = Flat::apply(state, &m, &keys);
        let bits = zobrist_height_bits(state.0.size);
        assert_eq!(state.1, full_hash(&state.0, bits, &keys));
    }
}

#[test]
fn split_sub_actions_walk_a_turn() {
    let keys = keys();
    let state = HashedState::new(Size { w: 3, h: 3 }, &keys);
    let mut actions = Vec::new();
    Split::generate_actions(&state, &mut actions);
    assert_eq!(actions, vec![Move::Piece(PieceKind::Sarsen)]);
    let state = Split::apply(state, &Move::Piece(PieceKind::Sarsen), &keys);
    assert_eq!(state.0.pending, Pending::Piece(PieceKind::Sarsen));
    let mut cells = Vec::new();
    Split::generate_actions(&state, &mut cells);
    assert_eq!(cells.len(), 9);
    let state = Split::apply(state, &Move::Cell(4), &keys);
    assert_eq!(state.0.pending, Pending::Idle);
    assert_eq!(state.0.player, Player::White);
    assert_eq!(state.0.board[4], Square { height: 1, piece: Some(Player::Black) });
    let bits = zobrist_height_bits(state.0.size);
    assert_eq!(state.1, full_hash(&state.0, bits, &keys));
}

#[test]
fn game_winner_agrees_with_search() {
    let keys = keys();
    let size = Size { w: 3, h: 3 };
    let mut state = HashedState::new(size, &keys);
    assert_eq!(DruidGame::winner(&state, &keys), None);
    assert_eq!(DruidGame::terminal_status(&state, &keys), TerminalStatus::NotTerminal);
    assert!(!DruidGame::is_terminal(&state, &keys));
    for y in 0..3 {
        state = place(state, Player::Black, Pos(1, y), &keys);
        assert_eq!(DruidGame::winner(&state, &keys), state.0.connection());
    }
    assert_eq!(DruidGame::winner(&state, &keys), Some(Player::Black));
    assert_eq!(DruidGame::terminal_status(&state, &keys), TerminalStatus::Winner(Player::Black));
    assert!(DruidGame::is_terminal(&state, &keys));
    assert_eq!(DruidGame::player_to_move(&state), state.0.player);
    assert_eq!(DruidGame::zobrist_hash(&state), state.1);
}

#[test]
fn white_row_wins_left_to_right() {
    let keys = keys();
    let size = Size { w: 3, h: 3 };
    let mut state = HashedState::new(size, &keys);
    for x in 0..3 {
        state = place(state, Player::White, Pos(x, 2), &keys);
    }
    assert_eq!(DruidGame::winner(&state, &keys), Some(Player::White));
    assert_eq!(state.0.connection(), Some(Player::White));
}

#[test]
fn empty_hands_without_moves_draw() {
    let keys = keys();
    let size = Size { w: 3, h: 3 };
    let mut s = State::new(size);
    s.hand_black = Hand { sarsens: 0, lintels: 0 };
    let state = HashedState::from_state(s, &keys);
    assert_eq!(DruidGame::terminal_status(&state, &keys), TerminalStatus::Draw);
    assert!(DruidGame::is_terminal(&state, &keys));
    let mut s = State::new(size);
    s.hand_black = Hand { sarsens: 0, lintels: 3 };
    let state = HashedState::from_state(s, &keys);
    // lintels need two own supports: none yet, so no move remains
    assert_eq!(DruidGame::terminal_status(&state, &keys), TerminalStatus::Draw);
    let mut s = State::new(size);
    s.hand_black = Hand { sarsens: 1, lintels: 0 };
    let state = HashedState::from_state(s, &keys);
    assert_eq!(DruidGame::terminal_status(&state, &keys), TerminalStatus::NotTerminal);
}

#[test]
fn disjoint_set_unions_and_resets() {
    let mut d = DisjointSet::new(6);
    assert!(!d.connected(0, 1));
    d.union(0, 1);
    d.union(2, 3);
    assert!(d.connected(0, 1));
    assert!(d.connected(2, 3));
    assert!(!d.connected(1, 2));
    d.union(1, 3);
    assert!(d.connected(0, 2));
    assert_eq!(d.find(0), d.find(3));
    assert!(!d.connected(4, 5));
    d.reset();
    assert!(!d.connected(0, 1));
    for i in 0..6 {
        assert_eq!(d.find(i), i);
    }
}

#[test]
fn connectivity_rebuild_matches_incremental() {
    let keys = keys();
    let size = Size { w: 3, h: 3 };
    let mut state = HashedState::new(size, &keys);
    for y in 0..3 {
        state = place(state, Player::Black, Pos(0, y), &keys);
    }
    let mut fresh = Connectivity::new(size);
    fresh.rebuild(size, &state.0.board, Player::Black);
    fresh.rebuild(size, &state.0.board, Player::White);
    assert_eq!(fresh.winner(size), Some(Player::Black));
    assert_eq!(state.2.winner(size), Some(Player::Black));
    for a in 0..11 {
        for b in 0..11 {
            assert_eq!(
                fresh.set(Player::Black).connected(a, b),
                state.2.set(Player::Black).connected(a, b)
            );
        }
    }
}

fn hashed_with(squares: &[(u8, u8, u16, Player)], keys: &DruidKeys) -> HashedState {
    let size = Size { w: 5, h: 5 };
    let mut s = State::new(size);
    for &(x, y, height, p) in squares {
        s.board[Pos(x, y).index(size.w)] = Square { height, piece: Some(p) };
    }
    HashedState::from_state(s, keys)
}

#[test]
fn heuristic_blocks_a_lintel_threat() {
    let keys = keys();
    // White could lay a lintel over Black's (1,0) between its two stones.
    let hs = hashed_with(&[(0, 0, 1, Player::White), (1, 0, 1, Player::Black), (2, 0, 1, Player::White)], &keys);
    let threats = threatened_cells(&hs.0, Player::Black);
    assert!(threats.contains(&1));
    assert_eq!(threats.len(), 1);
    let available = [
        PlacedPiece(Piece::Sarsen, 1),
        PlacedPiece(Piece::Sarsen, 12),
        PlacedPiece(Piece::Sarsen, 6),
    ];
    let flags = heuristic_flags(&hs, Player::Black, &available);
    assert_eq!(flags.len(), 3);
    assert!(flags[0].block_threat);
    assert!(!flags[1].block_threat);
    assert!(!flags[2].block_threat);
    // (1,1) lies one row beyond Black's only group
    assert!(flags[2].threaten_connection);
    assert!(!flags[1].threaten_connection);
    assert!(flags.iter().all(|f| !f.defend_fork));
}

#[test]
fn heuristic_defends_a_fork() {
    let keys = keys();
    // two separate Black stones that a horizontal lintel at (0,2) would join
    let hs = hashed_with(&[(0, 2, 1, Player::Black), (2, 2, 1, Player::Black)], &keys);
    let join = PlacedPiece(Piece::Lintel(Orientation::Horizontal), 10);
    let flags = heuristic_flags(&hs, Player::Black, &[join, join, PlacedPiece(Piece::Sarsen, 7)]);
    assert!(flags[0].defend_fork);
    assert!(flags[1].defend_fork);
    assert!(!flags[2].defend_fork);
    let alone = heuristic_flags(&hs, Player::Black, &[join]);
    assert!(!alone[0].defend_fork);
}

#[test]
fn largest_group_and_its_reach() {
    let keys = keys();
    let hs = hashed_with(
        &[(0, 0, 1, Player::Black), (0, 1, 1, Player::Black), (0, 2, 1, Player::Black), (4, 4, 1, Player::Black)],
        &keys,
    );
    let g = largest_group(&hs.0, hs.2.set(Player::Black), Player::Black);
    let members: Vec<usize> = (0..25).filter(|i| g.members.contains(i)).collect();
    assert_eq!(members, vec![0, 5, 10]);
    assert_eq!(g.reach, 2);
    let none = largest_group(&hs.0, hs.2.set(Player::White), Player::White);
    assert!(none.members.is_empty());
    assert_eq!(none.reach, 0);
    let adv = advance_cells(&hs.0, Player::Black, &g);
    let cells: Vec<usize> = (0..25).filter(|i| adv.contains(i)).collect();
    assert_eq!(cells, vec![15]);
}

#[test]
fn split_sub_actions_stand_for_their_placements() {
    let keys = keys();
    let hs = HashedState::new(Size { w: 3, h: 3 }, &keys);
    let groups = Split::scored_placements(&hs, Player::Black, &Move::Piece(PieceKind::Sarsen));
    assert_eq!(groups.len(), 1);
    assert_eq!(groups[0].len(), 9);
    assert_eq!(groups[0][4], PlacedPiece(Piece::Sarsen, 4));
    let lintels = Split::scored_placements(&hs, Player::Black, &Move::Piece(PieceKind::Lintel));
    assert_eq!(lintels.len(), 2);
    assert!(lintels[0].is_empty() && lintels[1].is_empty());
    let cell = Split::scored_placements(&hs, Player::Black, &Move::Cell(3));
    assert_eq!(cell, vec![vec![PlacedPiece(Piece::Sarsen, 3)]]);
}

#[test]
fn sizes_too_large_to_hash_are_not_supported() {
    assert!(!Size { w: 16, h: 16 }.is_supported());
    assert!(!Size { w: 255, h: 255 }.is_supported());
    assert!(!Size { w: 3, h: 200 }.is_supported());
    assert!(Size { w: 5, h: 5 }.is_supported());
}
