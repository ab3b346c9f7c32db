use boardgames::congo::game::Congo;
use boardgames::congo::state::State;
use boardgames::congo::{idx, in_castle, rc, Move, Piece, Player, TerminalStatus, NUM_SQUARES};
use rand::rngs::SmallRng;
use rand::{Rng, SeedableRng};

fn custom(pieces: &[(usize, Player, Piece)], turn: Player) -> State {
    let mut cells = [None; NUM_SQUARES];
    for &(sq, p, pc) in pieces {
        cells[sq] = Some((p, pc));
    }
    State::from_parts(cells, [0; NUM_SQUARES], turn)
}

fn moves_from(state: &State, from: usize) -> Vec<Move> {
    let mut actions = Vec::new();
    state.generate_moves(&mut actions);
    actions.into_iter().filter(|m| m.from as usize == from).collect()
}

#[test]
fn test_congo_random_play() {
    let mut rng = SmallRng::seed_from_u64(0xC0960);
    for _game in 0..20 {
        let mut state = State::initial();
        for _ply in 0..300 {
            if Congo::is_terminal(&state) {
                break;
            }
            let mut actions = Vec::new();
            Congo::generate_actions(&state, &mut actions);
            assert!(!actions.is_empty(), "a non-terminal position has a legal move");
            let m = actions[rng.gen_range(0..actions.len())];
            let mover = Congo::player_to_move(&state);
            state = Congo::apply(state, &m);
            assert_eq!(Congo::player_to_move(&state), mover.next());
            for sq in 0..NUM_SQUARES {
                assert!(state.river_since(sq) <= 1);
            }
        }
    }
}

#[test]
fn test_initial_setup() {
    let s = State::initial();
    assert_eq!(s.get(idx(0, 3)), Some((Player::Black, Piece::Lion)));
    assert_eq!(s.get(idx(6, 3)), Some((Player::White, Piece::Lion)));
    assert_eq!(s.get(idx(0, 5)), Some((Player::Black, Piece::Crocodile)));
    assert_eq!(s.get(idx(1, 0)), Some((Player::Black, Piece::Pawn)));
    assert_eq!(s.get(idx(5, 6)), Some((Player::White, Piece::Pawn)));
    assert_eq!(s.get(idx(3, 0)), None);
    assert_eq!(s.turn(), Player::Black);
    assert_eq!(Congo::player_to_move(&s), Player::Black);
}

#[test]
fn test_lion_confined_to_castle() {
    let lion = idx(1, 3);
    let s = custom(&[(lion, Player::Black, Piece::Lion), (idx(6, 0), Player::White, Piece::Lion)], Player::Black);
    let moves = moves_from(&s, lion);
    assert_eq!(moves.len(), 8, "center castle square has 8 free neighbors");
    for m in &moves {
        let (r, c) = rc(m.to as usize);
        assert!(in_castle(Player::Black, r, c), "lion left its castle");
    }
}

#[test]
fn test_lion_cannot_step_out_of_castle_edge() {
    let lion = idx(2, 3);
    let s = custom(&[(lion, Player::Black, Piece::Lion), (idx(6, 0), Player::White, Piece::Lion)], Player::Black);
    let moves = moves_from(&s, lion);
    for m in &moves {
        assert_ne!(rc(m.to as usize).0, 3);
    }
}

#[test]
fn test_lion_ranged_capture_file() {
    let black_lion = idx(2, 3);
    let white_lion = idx(4, 3);
    let s = custom(&[(black_lion, Player::Black, Piece::Lion), (white_lion, Player::White, Piece::Lion)], Player::Black);
    let moves = moves_from(&s, black_lion);
    assert!(moves.iter().any(|m| m.to as usize == white_lion && m.captures() == [white_lion as u8]));
}

#[test]
fn test_lion_ranged_capture_blocked_by_intervening_piece() {
    let black_lion = idx(2, 3);
    let white_lion = idx(4, 3);
    let s = custom(
        &[
            (black_lion, Player::Black, Piece::Lion),
            (white_lion, Player::White, Piece::Lion),
            (idx(3, 3), Player::White, Piece::Pawn),
        ],
        Player::Black,
    );
    let moves = moves_from(&s, black_lion);
    assert!(!moves.iter().any(|m| m.to as usize == white_lion));
}

#[test]
fn test_lion_ranged_capture_diagonal() {
    let black_lion = idx(0, 2);
    let white_lion = idx(4, 6);
    let s = custom(&[(black_lion, Player::Black, Piece::Lion), (white_lion, Player::White, Piece::Lion)], Player::Black);
    let moves = moves_from(&s, black_lion);
    assert!(moves.iter().any(|m| m.to as usize == white_lion && m.captures() == [white_lion as u8]));
}

#[test]
fn test_monkey_simple_step_only_to_empty() {
    let m = idx(3, 3);
    let s = custom(
        &[
            (m, Player::Black, Piece::Monkey),
            (idx(3, 4), Player::White, Piece::Pawn),
            (idx(0, 0), Player::Black, Piece::Lion),
            (idx(6, 0), Player::White, Piece::Lion),
        ],
        Player::Black,
    );
    let moves = moves_from(&s, m);
    let simple: Vec<_> = moves.iter().filter(|mv| !mv.is_capture()).collect();
    assert_eq!(simple.len(), 7);
    assert!(simple.iter().all(|mv| s.get(mv.to as usize).is_none()));
}

#[test]
fn test_monkey_single_jump_capture() {
    let m = idx(3, 3);
    let enemy = idx(3, 4);
    let landing = idx(3, 5);
    let s = custom(&[(m, Player::Black, Piece::Monkey), (enemy, Player::White, Piece::Pawn)], Player::Black);
    let moves = moves_from(&s, m);
    assert!(moves.iter().any(|mv| mv.to as usize == landing && mv.captures() == [enemy as u8]));
}

#[test]
fn test_monkey_jump_blocked_by_occupied_landing() {
    let m = idx(3, 3);
    let enemy = idx(3, 4);
    let landing = idx(3, 5);
    let s = custom(
        &[
            (m, Player::Black, Piece::Monkey),
            (enemy, Player::White, Piece::Pawn),
            (landing, Player::White, Piece::Zebra),
        ],
        Player::Black,
    );
    let moves = moves_from(&s, m);
    assert!(!moves.iter().any(|mv| mv.captures().contains(&(enemy as u8))));
}

#[test]
fn test_monkey_chain_capture_changes_direction() {
    let m = idx(0, 0);
    let e1 = idx(0, 1);
    let mid = idx(0, 2);
    let e2 = idx(1, 2);
    let end = idx(2, 2);
    let s = custom(
        &[(m, Player::Black, Piece::Monkey), (e1, Player::White, Piece::Pawn), (e2, Player::White, Piece::Pawn)],
        Player::Black,
    );
    let moves = moves_from(&s, m);
    assert!(moves.iter().any(|mv| mv.to as usize == mid && mv.captures() == [e1 as u8]));
    let mut expected_full = [e1 as u8, e2 as u8];
    expected_full.sort_unstable();
    assert!(moves.iter().any(|mv| mv.to as usize == end && mv.captures() == expected_full));
}

#[test]
fn test_monkey_cannot_jump_same_piece_twice() {
    let m = idx(3, 1);
    let e1 = idx(3, 2);
    let land = idx(3, 3);
    let s = custom(&[(m, Player::Black, Piece::Monkey), (e1, Player::White, Piece::Pawn)], Player::Black);
    let moves = moves_from(&s, m);
    assert!(moves.iter().all(|mv| mv.num_captures <= 1));
    assert!(moves.iter().any(|mv| mv.to as usize == land && mv.captures() == [e1 as u8]));
}

#[test]
fn test_crocodile_slides_toward_river_and_stops_there() {
    let croc = idx(0, 3);
    let s = custom(&[(croc, Player::Black, Piece::Crocodile)], Player::Black);
    let moves = moves_from(&s, croc);
    let slide_targets: Vec<usize> = [1, 2, 3]
        .iter()
        .map(|&r| idx(r, 3))
        .filter(|&t| moves.iter().any(|mv| mv.to as usize == t && !mv.is_capture()))
        .collect();
    assert_eq!(slide_targets.len(), 3, "should reach every empty square up to and including the river");
    assert!(!moves.iter().any(|mv| mv.to as usize == idx(4, 3)), "must not slide past the river");
}

#[test]
fn test_crocodile_slide_blocked_and_captures() {
    let croc = idx(0, 3);
    let blocker = idx(2, 3);
    let s = custom(&[(croc, Player::Black, Piece::Crocodile), (blocker, Player::White, Piece::Pawn)], Player::Black);
    let moves = moves_from(&s, croc);
    assert!(moves.iter().any(|mv| mv.to as usize == idx(1, 3) && !mv.is_capture()));
    assert!(moves.iter().any(|mv| mv.to as usize == blocker && mv.captures() == [blocker as u8]));
    assert!(!moves.iter().any(|mv| mv.to as usize == idx(3, 3)));
}

#[test]
fn test_crocodile_in_river_slides_along_rank() {
    let croc = idx(3, 3);
    let s = custom(&[(croc, Player::Black, Piece::Crocodile)], Player::Black);
    let moves = moves_from(&s, croc);
    for c in 0..7 {
        if c == 3 {
            continue;
        }
        assert!(
            moves.iter().any(|mv| mv.to as usize == idx(3, c)),
            "should slide the full river rank, including column {c}"
        );
    }
}

#[test]
fn test_pawn_no_retreat_before_river() {
    let p = idx(1, 3);
    let s = custom(&[(p, Player::Black, Piece::Pawn)], Player::Black);
    let moves = moves_from(&s, p);
    assert!(moves.iter().all(|mv| rc(mv.to as usize).0 == 2));
}

#[test]
fn test_pawn_retreat_past_river_blocked_at_two_squares() {
    let p = idx(4, 3);
    let blocker = idx(2, 3);
    let s = custom(&[(p, Player::Black, Piece::Pawn), (blocker, Player::Black, Piece::Pawn)], Player::Black);
    let moves = moves_from(&s, p);
    assert!(moves.iter().any(|mv| mv.to as usize == idx(3, 3) && !mv.is_capture()));
    assert!(!moves.iter().any(|mv| mv.to as usize == idx(2, 3)));
}

#[test]
fn test_pawn_retreat_past_river_both_squares_clear() {
    let p = idx(4, 3);
    let s = custom(&[(p, Player::Black, Piece::Pawn)], Player::Black);
    let moves = moves_from(&s, p);
    assert!(moves.iter().any(|mv| mv.to as usize == idx(3, 3)));
    assert!(moves.iter().any(|mv| mv.to as usize == idx(2, 3)));
}

#[test]
fn test_promotion_to_superpawn() {
    let p = idx(5, 3);
    let s = custom(&[(p, Player::Black, Piece::Pawn)], Player::Black);
    let mv = Move::simple(p, idx(6, 3), None);
    let next = s.apply(&mv);
    assert_eq!(next.get(idx(6, 3)), Some((Player::Black, Piece::Superpawn)));
}

#[test]
fn test_superpawn_sideways_and_diagonal_retreat() {
    let sp = idx(4, 3);
    let s = custom(&[(sp, Player::Black, Piece::Superpawn)], Player::Black);
    let moves = moves_from(&s, sp);
    assert!(moves.iter().any(|mv| mv.to as usize == idx(4, 2)));
    assert!(moves.iter().any(|mv| mv.to as usize == idx(4, 4)));
    assert!(moves.iter().any(|mv| mv.to as usize == idx(2, 1)));
}

#[test]
fn test_superpawn_diagonal_retreat_blocked_by_intervening_square() {
    let sp = idx(4, 3);
    let blocker = idx(3, 2);
    let s = custom(&[(sp, Player::Black, Piece::Superpawn), (blocker, Player::Black, Piece::Pawn)], Player::Black);
    let moves = moves_from(&s, sp);
    assert!(!moves.iter().any(|mv| mv.to as usize == idx(2, 1)));
}

#[test]
fn test_piece_freshly_entering_river_does_not_drown() {
    let p = idx(4, 3);
    let s = custom(
        &[
            (p, Player::Black, Piece::Pawn),
            (idx(0, 0), Player::Black, Piece::Lion),
            (idx(6, 0), Player::White, Piece::Lion),
        ],
        Player::Black,
    );
    let mv = Move::simple(p, idx(3, 3), None);
    let next = s.apply(&mv);
    assert_eq!(next.get(idx(3, 3)), Some((Player::Black, Piece::Pawn)));
    assert_eq!(next.river_since(idx(3, 3)), 1);
}

#[test]
fn test_piece_drowns_after_second_consecutive_turn_in_river() {
    let stuck = idx(3, 3);
    let lion = idx(1, 3);
    let mut cells = [None; NUM_SQUARES];
    cells[stuck] = Some((Player::Black, Piece::Pawn));
    cells[lion] = Some((Player::Black, Piece::Lion));
    cells[idx(6, 0)] = Some((Player::White, Piece::Lion));
    let mut river_since = [0u8; NUM_SQUARES];
    river_since[stuck] = 1;
    let s = State::from_parts(cells, river_since, Player::Black);

    let mv = Move::simple(lion, idx(1, 2), None);
    let next = s.apply(&mv);
    assert_eq!(next.get(stuck), None, "pawn should have drowned");
}

#[test]
fn test_crocodile_never_drowns() {
    let stuck = idx(3, 3);
    let lion = idx(1, 3);
    let mut cells = [None; NUM_SQUARES];
    cells[stuck] = Some((Player::Black, Piece::Crocodile));
    cells[lion] = Some((Player::Black, Piece::Lion));
    cells[idx(6, 0)] = Some((Player::White, Piece::Lion));
    let mut river_since = [0u8; NUM_SQUARES];
    river_since[stuck] = 1;
    let s = State::from_parts(cells, river_since, Player::Black);
    let mv = Move::simple(lion, idx(1, 2), None);
    let next = s.apply(&mv);
    assert_eq!(next.get(stuck), Some((Player::Black, Piece::Crocodile)));
}

#[test]
fn test_lion_capture_ends_the_game() {
    let black_lion = idx(2, 3);
    let white_lion = idx(4, 3);
    let s = custom(&[(black_lion, Player::Black, Piece::Lion), (white_lion, Player::White, Piece::Lion)], Player::Black);
    let mv = Move::simple(black_lion, white_lion, Some(white_lion));
    let next = s.apply(&mv);
    assert_eq!(next.terminal_status(), TerminalStatus::Winner(Player::Black));
}

#[test]
fn test_bare_lion_draw_when_neither_can_capture() {
    let s = custom(&[(idx(1, 2), Player::Black, Piece::Lion), (idx(5, 4), Player::White, Piece::Lion)], Player::Black);
    assert_eq!(s.terminal_status(), TerminalStatus::Draw);
}

#[test]
fn test_bare_lion_not_a_draw_when_capture_available() {
    let s = custom(&[(idx(1, 3), Player::Black, Piece::Lion), (idx(5, 3), Player::White, Piece::Lion)], Player::Black);
    assert_eq!(s.terminal_status(), TerminalStatus::NotTerminal);
}

#[test]
fn test_no_legal_moves_is_a_loss_not_a_draw() {
    let s = custom(
        &[
            (idx(3, 3), Player::Black, Piece::Lion),
            (idx(6, 1), Player::White, Piece::Lion),
            (idx(5, 0), Player::White, Piece::Pawn),
        ],
        Player::Black,
    );
    assert_eq!(s.terminal_status(), TerminalStatus::Winner(Player::White));
}

// Own tests.

#[test]
fn initial_position_has_the_expected_moves() {
    let s = State::initial();
    let mut actions = Vec::new();
    s.generate_moves(&mut actions);
    assert!(!actions.is_empty());
    assert!(actions.iter().all(|m| s.get(m.from as usize).map(|(p, _)| p) == Some(Player::Black)));
    assert_eq!(s.terminal_status(), TerminalStatus::NotTerminal);
    assert_eq!(Congo::winner(&s), None);
    assert_eq!(Congo::num_players(), 2);
    assert_eq!(Player::default(), Player::Black);
    assert_eq!(State::default(), State::initial());
}

#[test]
fn monkey_triple_chain_lists_captures_in_ascending_order() {
    // Monkey at (6,6) jumps (5,5) to (4,4), then (3,3) to (2,2), then (1,1) to (0,0).
    let m = idx(6, 6);
    let e = [idx(5, 5), idx(3, 3), idx(1, 1)];
    let s = custom(
        &[
            (m, Player::Black, Piece::Monkey),
            (e[0], Player::White, Piece::Pawn),
            (e[1], Player::White, Piece::Pawn),
            (e[2], Player::White, Piece::Pawn),
        ],
        Player::Black,
    );
    let moves = moves_from(&s, m);
    let full = moves.iter().find(|mv| mv.to as usize == idx(0, 0)).expect("full chain is legal");
    assert_eq!(full.captures(), vec![idx(1, 1) as u8, idx(3, 3) as u8, idx(5, 5) as u8]);
    assert_eq!(full.num_captures, 3);
    assert!(full.captures[3..].iter().all(|&c| c == 0));
    // applying it removes all three pieces
    let next = s.apply(full);
    for sq in e {
        assert_eq!(next.get(sq), None);
    }
    assert_eq!(next.get(idx(0, 0)), Some((Player::Black, Piece::Monkey)));
    assert_eq!(next.turn(), Player::White);
}

#[test]
fn capturing_the_lion_with_another_piece_wins() {
    let s = custom(
        &[
            (idx(0, 3), Player::Black, Piece::Lion),
            (idx(5, 3), Player::White, Piece::Lion),
            (idx(3, 3), Player::Black, Piece::Zebra),
        ],
        Player::Black,
    );
    let moves = moves_from(&s, idx(3, 3));
    let mv = moves.iter().find(|m| m.to as usize == idx(5, 4)).copied();
    assert!(mv.is_some());
    let capture = Move::simple(idx(3, 3), idx(5, 3), None);
    assert!(!moves.contains(&capture));
    let elephant = custom(
        &[
            (idx(0, 3), Player::Black, Piece::Lion),
            (idx(5, 3), Player::White, Piece::Lion),
            (idx(3, 3), Player::Black, Piece::Elephant),
        ],
        Player::Black,
    );
    let moves = moves_from(&elephant, idx(3, 3));
    let take = moves.iter().find(|m| m.to as usize == idx(5, 3)).copied().expect("two-square elephant capture");
    assert_eq!(take.captures(), vec![idx(5, 3) as u8]);
    let next = elephant.apply(&take);
    assert_eq!(Congo::winner(&next), Some(Player::Black));
    assert!(Congo::is_terminal(&next));
}

#[test]
fn white_pawns_advance_downward_and_promote_on_row_zero() {
    let p = idx(1, 3);
    let s = custom(
        &[(p, Player::White, Piece::Pawn), (idx(0, 0), Player::Black, Piece::Lion), (idx(6, 6), Player::White, Piece::Lion)],
        Player::White,
    );
    let moves = moves_from(&s, p);
    // three forward onto the last rank, and (having crossed the river) one
    // or two squares straight back
    assert_eq!(moves.len(), 5);
    assert_eq!(moves.iter().filter(|m| rc(m.to as usize).0 == 0).count(), 3);
    assert!(moves.iter().any(|m| m.to as usize == idx(2, 3)));
    assert!(moves.iter().any(|m| m.to as usize == idx(3, 3)));
    let next = s.apply(&Move::simple(p, idx(0, 3), None));
    assert_eq!(next.get(idx(0, 3)), Some((Player::White, Piece::Superpawn)));
}

#[test]
fn giraffe_steps_only_to_empty_and_leaps_two() {
    let g = idx(3, 3);
    let s = custom(
        &[
            (g, Player::Black, Piece::Giraffe),
            (idx(3, 4), Player::White, Piece::Pawn),
            (idx(3, 5), Player::White, Piece::Pawn),
            (idx(1, 1), Player::Black, Piece::Pawn),
        ],
        Player::Black,
    );
    let moves = moves_from(&s, g);
    assert!(!moves.iter().any(|m| m.to as usize == idx(3, 4)));
    assert!(moves.iter().any(|m| m.to as usize == idx(3, 5) && m.captures() == [idx(3, 5) as u8]));
    assert!(!moves.iter().any(|m| m.to as usize == idx(1, 1)));
    assert!(moves.iter().any(|m| m.to as usize == idx(2, 2) && !m.is_capture()));
    assert_eq!(moves.len(), 7 + 7);
}
