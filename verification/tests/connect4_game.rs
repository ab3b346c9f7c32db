use boardgames::connect4::game::{mirror_board, Connect4, Connect4Negamax, State};
use boardgames::connect4::{Move, Player};
use rand::rngs::SmallRng;
use rand::{Rng, SeedableRng};

type Standard = Connect4<6, 7>;

fn black_at(state: &State<6, 7>, row: usize, col: usize) -> bool {
    state.black() >> (row * 7 + col) & 1 == 1
}

#[test]
fn test_connect4() {
    let mut rng = SmallRng::seed_from_u64(0xC4);
    for _ in 0..50 {
        let mut state = State::<6, 7>::default();
        let mut plies = 0;
        while !Standard::is_terminal(&state) {
            let mut actions = Vec::new();
            Standard::generate_actions(&state, &mut actions);
            assert!(!actions.is_empty());
            let action = actions[rng.gen_range(0..actions.len())];
            state = Standard::apply(state, &action);
            plies += 1;
            assert!(plies <= 42);
            assert_eq!(state.black() & state.white(), 0);
        }
    }
}

#[test]
fn test_vertical_win() {
    let mut state = State::<6, 7>::default();
    for &col in &[0u8, 1, 0, 1, 0, 1, 0] {
        if Standard::is_terminal(&state) {
            break;
        }
        state = Standard::apply(state, &Move(col));
    }
    assert!(state.has_winner());
    assert_eq!(Standard::winner(&state), Some(Player::Black));
}

#[test]
fn test_horizontal_win() {
    let mut state = State::<6, 7>::default();
    for &col in &[0u8, 4, 1, 4, 2, 4, 3] {
        if Standard::is_terminal(&state) {
            break;
        }
        state = Standard::apply(state, &Move(col));
    }
    assert!(state.has_winner());
    assert_eq!(Standard::winner(&state), Some(Player::Black));
}

#[test]
fn test_diagonal_win() {
    let mut state = State::<6, 7>::default();
    let columns: &[u8] = &[0, 1, 1, 2, 6, 2, 2, 3, 6, 3, 6, 3, 3];
    for &col in columns {
        assert!(!Standard::is_terminal(&state), "won before the scripted diagonal completed");
        state = Standard::apply(state, &Move(col));
    }
    assert!(state.has_winner());
    assert_eq!(Standard::winner(&state), Some(Player::Black));
    for (row, col) in [(0, 0), (1, 1), (2, 2), (3, 3)] {
        assert!(black_at(&state, row, col), "expected Black at ({row},{col})");
    }
}

#[test]
fn test_draw() {
    type Small = Connect4<4, 5>;
    for seed in 0..2000u64 {
        let mut rng = SmallRng::seed_from_u64(seed);
        let mut state = State::<4, 5>::default();
        while !Small::is_terminal(&state) {
            let mut actions = Vec::new();
            Small::generate_actions(&state, &mut actions);
            let action = actions[rng.gen_range(0..actions.len())];
            state = Small::apply(state, &action);
        }
        if !state.has_winner() {
            assert_eq!(Small::winner(&state), None);
            return;
        }
    }
    panic!("no drawn game found in 2000 random seeds on a 4x5 board");
}

#[test]
fn lib_test_action_transform_round_trip() {
    for col in 0..7u8 {
        for sym in 0..2 {
            let action = Move(col);
            let transformed = Standard::apply_to_action(action, sym);
            let back = Standard::invert_action(transformed, sym);
            assert_eq!(back, action);
        }
    }
}

fn check_canonical_representation_invariant(seed: u64) {
    let mut rng = SmallRng::seed_from_u64(seed);
    let mut state = State::<6, 7>::default();
    let mut reachable = vec![state];
    for _ in 0..20 {
        if Standard::is_terminal(&state) {
            break;
        }
        let mut actions = Vec::new();
        Standard::generate_actions(&state, &mut actions);
        let action = actions[rng.gen_range(0..actions.len())];
        state = Standard::apply(state, &action);
        reachable.push(state);
    }

    for state in reachable {
        let (canon, _sym) = Standard::canonical_representation(state);
        let images = [
            (state.black(), state.white()),
            (mirror_board::<6, 7>(state.black()), mirror_board::<6, 7>(state.white())),
        ];
        for &(black, white) in images.iter() {
            let variant = State::<6, 7>::from_parts(black, white, state.turn(), state.has_winner());
            let (canon2, _) = Standard::canonical_representation(variant);
            assert_eq!(
                (canon2.black(), canon2.white(), canon2.turn()),
                (canon.black(), canon.white(), canon.turn()),
                "canonical_representation disagreed across symmetric images (seed={seed})"
            );
        }
    }
}

#[test]
fn lib_test_canonical_representation_invariant_under_symmetry() {
    for seed in 0..50 {
        check_canonical_representation_invariant(seed);
    }
}

fn check_invert_action_legal_along_random_game(seed: u64) {
    let mut rng = SmallRng::seed_from_u64(seed);
    let mut state = State::<6, 7>::default();
    for _ in 0..20 {
        if Standard::is_terminal(&state) {
            return;
        }
        let mut real_actions = Vec::new();
        Standard::generate_actions(&state, &mut real_actions);
        let (canon, sym) = Standard::canonical_representation(state);
        let mut canon_actions = Vec::new();
        Standard::generate_actions(&canon, &mut canon_actions);
        for &canon_action in &canon_actions {
            let translated = Standard::invert_action(canon_action, sym);
            assert!(
                real_actions.contains(&translated),
                "seed {seed}: invert_action produced {translated:?}, not present in generate_actions {real_actions:?}"
            );
        }
        let action = real_actions[rng.gen_range(0..real_actions.len())];
        state = Standard::apply(state, &action);
    }
}

#[test]
fn lib_test_invert_action_produces_legal_real_actions() {
    for seed in 0..100 {
        check_invert_action_legal_along_random_game(seed);
    }
}

// Own tests.

#[test]
fn drops_stack_from_the_bottom() {
    let mut state = State::<6, 7>::default();
    state = Standard::apply(state, &Move(3));
    state = Standard::apply(state, &Move(3));
    assert_eq!(state.black(), 1 << 3);
    assert_eq!(state.white(), 1 << 10);
    assert_eq!(state.height(3), 2);
    assert_eq!(Standard::player_to_move(&state), Player::Black);
    let mut actions = Vec::new();
    Standard::generate_actions(&state, &mut actions);
    assert_eq!(actions.len(), 7);
    assert_eq!(Standard::num_players(), 2);
}

#[test]
fn full_column_is_not_offered() {
    let mut state = State::<6, 7>::default();
    for _ in 0..6 {
        state = Standard::apply(state, &Move(0));
    }
    let mut actions = Vec::new();
    Standard::generate_actions(&state, &mut actions);
    assert_eq!(actions, (1..7).map(Move).collect::<Vec<_>>());
}

#[test]
fn mirror_sends_columns_across() {
    let b: u64 = 1 << 0 | 1 << (7 + 2);
    let m = mirror_board::<6, 7>(b);
    assert_eq!(m, 1 << 6 | 1 << (7 + 4));
    assert_eq!(mirror_board::<6, 7>(m), b);
    // the canonical image prefers the smaller key
    let (canon, sym) = Standard::canonical_representation(State::from_parts(1 << 6, 0, Player::White, false));
    assert_eq!(sym, 1);
    assert_eq!(canon.black(), 1);
    assert_eq!(Standard::apply_to_action(Move(0), 1), Move(6));
}

#[test]
fn negamax_view_reports_the_loser_to_move_at_a_won_position() {
    let mut state = State::<6, 7>::default();
    for &col in &[0u8, 1, 0, 1, 0, 1] {
        state = Connect4Negamax::apply(state, &Move(col));
        assert_eq!(Connect4Negamax::player_to_move(&state), Standard::player_to_move(&state));
    }
    let mut actions = Vec::new();
    Connect4Negamax::generate_actions(&state, &mut actions);
    assert_eq!(actions.len(), 7);
    state = Connect4Negamax::apply(state, &Move(0));
    assert!(Connect4Negamax::is_terminal(&state));
    assert_eq!(Connect4Negamax::winner(&state), Some(Player::Black));
    assert_eq!(Standard::player_to_move(&state), Player::Black);
    assert_eq!(Connect4Negamax::player_to_move(&state), Player::White);
    let mut none = Vec::new();
    Connect4Negamax::generate_actions(&state, &mut none);
    assert!(none.is_empty());
}
