use boardgames::atarigo::{no_move, symmetry_ply_limit, AtariGo, Move, Player, State, DEFAULT_SIZE, USE_SYMMETRY};
use boardgames::bigbitboard::BigBitBoard;
use rand::rngs::SmallRng;
use rand::{Rng, SeedableRng};
use std::collections::{HashSet, VecDeque};

type Six = State<6, 1, 36>;
type Nine = State<9, 2, 81>;
type Three = State<3, 1, 9>;

fn seeded_random_play_6(seed: u64) {
    let n = 6;
    let mut rng = SmallRng::seed_from_u64(seed);
    let mut state = Six::new();
    let max_plies = n * n + 2;
    for _ in 0..max_plies {
        if AtariGo::is_terminal(&state) {
            assert!(
                AtariGo::winner(&state).is_some(),
                "a terminal AtariGo state must have a winner (draws are not possible)"
            );
            return;
        }
        let mut actions = Vec::new();
        AtariGo::generate_actions(&state, &mut actions);
        assert!(!actions.is_empty(), "generate_actions must never be empty for a non-terminal state");
        let action = actions[rng.gen_range(0..actions.len())];
        state = AtariGo::apply(state, &action);
    }
    panic!("AtariGo(n={n}) (seed {seed}) did not terminate within {max_plies} plies");
}

fn seeded_random_play_9(seed: u64) {
    let n = 9;
    let mut rng = SmallRng::seed_from_u64(seed);
    let mut state = Nine::new();
    let max_plies = n * n + 2;
    for _ in 0..max_plies {
        if AtariGo::is_terminal(&state) {
            assert!(
                AtariGo::winner(&state).is_some(),
                "a terminal AtariGo state must have a winner (draws are not possible)"
            );
            return;
        }
        let mut actions = Vec::new();
        AtariGo::generate_actions(&state, &mut actions);
        assert!(!actions.is_empty(), "generate_actions must never be empty for a non-terminal state");
        let action = actions[rng.gen_range(0..actions.len())];
        state = AtariGo::apply(state, &action);
    }
    panic!("AtariGo(n={n}) (seed {seed}) did not terminate within {max_plies} plies");
}

#[test]
fn test_atarigo_seeded_playouts_terminate() {
    for seed in 0..200 {
        seeded_random_play_6(seed);
    }
}

#[test]
fn test_atarigo_9x9_seeded_playouts_terminate() {
    for seed in 0..50 {
        seeded_random_play_9(seed);
    }
}

type Key = (BigBitBoard<3, 3, 1>, BigBitBoard<3, 3, 1>, Player, bool);

fn key(s: &Three) -> Key {
    (s.black(), s.white(), s.turn(), s.has_winner())
}

#[test]
fn test_atarigo_3x3_all_lines_terminate_with_a_winner() {
    let start = Three::new();
    let mut seen: HashSet<Key> = HashSet::new();
    let mut queue: VecDeque<Three> = VecDeque::new();
    seen.insert(key(&start));
    queue.push_back(start);

    let mut explored = 0usize;
    while let Some(state) = queue.pop_front() {
        explored += 1;
        assert!(explored <= 200_000, "reachable-state graph is unexpectedly large -- possible non-termination");

        if AtariGo::is_terminal(&state) {
            assert!(
                AtariGo::winner(&state).is_some(),
                "a terminal AtariGo state must have a winner (draws are not possible)"
            );
            continue;
        }

        let mut actions = Vec::new();
        AtariGo::generate_actions(&state, &mut actions);
        assert!(!actions.is_empty(), "generate_actions must never be empty for a non-terminal state");

        for action in actions {
            let next = AtariGo::apply(state.clone(), &action);
            if seen.insert(key(&next)) {
                queue.push_back(next);
            }
        }
    }
}

// Own tests.

#[test]
fn symmetry_limit_is_a_third_of_the_cells() {
    assert_eq!(symmetry_ply_limit(9), 27);
    assert_eq!(symmetry_ply_limit(19), 120);
    assert_eq!(symmetry_ply_limit(3), 3);
    assert_eq!(AtariGo::symmetry_ply_limit(&Three::new()), 3);
    assert_eq!(DEFAULT_SIZE, 9);
    assert!(USE_SYMMETRY);
}

#[test]
fn empty_board_offers_every_cell_in_order() {
    let s = Three::new();
    let mut actions = Vec::new();
    AtariGo::generate_actions(&s, &mut actions);
    let cells: Vec<u16> = actions.iter().map(|m| m.0).collect();
    assert_eq!(cells, (0..9).collect::<Vec<u16>>());
    assert!(actions.iter().all(|m| m.1 == [0u64; 6] && m.2 == 3));
    assert_eq!(AtariGo::player_to_move(&s), Player::Black);
    assert_eq!(AtariGo::num_players(), 2);
}

#[test]
fn the_first_capture_wins_for_the_capturer() {
    // White stone in the corner (0), Black on 1; Black plays 3 and captures it.
    let white = BigBitBoard::<3, 3, 1>::new([1 << 0]);
    let black = BigBitBoard::<3, 3, 1>::new([1 << 1]);
    let s = Three::from_boards(black, white, Player::Black, false);
    let mut actions = Vec::new();
    AtariGo::generate_actions(&s, &mut actions);
    let capture = actions.iter().copied().find(|m| m.0 == 3).expect("placing on 3 is legal");
    assert_eq!(capture.1[0], 1, "placing on 3 captures the stone on 0");
    let quiet = actions.iter().copied().find(|m| m.0 == 8).unwrap();
    assert_eq!(quiet.1[0], 0);
    let after = AtariGo::apply(s.clone(), &capture);
    assert!(AtariGo::is_terminal(&after));
    assert_eq!(AtariGo::winner(&after), Some(Player::Black));
    assert!(!after.white().get(0));
    let calm = AtariGo::apply(s, &quiet);
    assert!(!AtariGo::is_terminal(&calm));
    assert_eq!(calm.turn(), Player::White);
}

#[test]
fn suicide_is_not_offered_and_no_placement_loses() {
    // White to move on a board where every empty cell is suicide: Black
    // fills everything but corner 0 and cell 4... keep it simple: one empty
    // cell surrounded by Black with a Black group that has other liberties.
    let black = BigBitBoard::<3, 3, 1>::new([0b1_1111_1110]);
    let white = BigBitBoard::<3, 3, 1>::new([0]);
    let s = Three::from_boards(black, white, Player::White, false);
    let mut actions = Vec::new();
    AtariGo::generate_actions(&s, &mut actions);
    // placing on 0 captures all of Black (the group's last liberty), so it is legal
    assert_eq!(actions.len(), 1);
    assert_eq!(actions[0].0, 0);
    assert_eq!(actions[0].1[0], 0b1_1111_1110);

    // a full board leaves no placement: the move admits it and loses
    let full_black = BigBitBoard::<3, 3, 1>::new([0b1_0101_0101]);
    let full_white = BigBitBoard::<3, 3, 1>::new([0b0_1010_1010]);
    let s = Three::from_boards(full_black, full_white, Player::Black, false);
    let mut actions = Vec::new();
    AtariGo::generate_actions(&s, &mut actions);
    assert_eq!(actions, vec![no_move()]);
    let after = AtariGo::apply(s, &actions[0]);
    assert!(after.has_winner());
    assert_eq!(AtariGo::winner(&after), Some(Player::White));
    let m: Move = no_move();
    assert_eq!(m.0, u16::MAX);
}

fn mask_words(n: usize, cells: &[usize]) -> [u64; 6] {
    let mut words = [0u64; 6];
    for &c in cells {
        assert!(c < n * n);
        words[c / 64] |= 1u64 << (c % 64);
    }
    words
}

#[test]
fn test_action_transform_round_trip() {
    let n = 9usize;
    for idx in 0..(n * n) {
        let mask = mask_words(n, &[(idx + 1) % (n * n), (idx + 2) % (n * n)]);
        for sym in 0..8usize {
            let action = Move(idx as u16, mask, n as u16);
            let transformed = AtariGo::apply_to_action(action, sym);
            let back = AtariGo::invert_action(transformed, sym);
            assert_eq!(back, action);
        }
    }
    for sym in 0..8usize {
        assert_eq!(AtariGo::apply_to_action(no_move(), sym).0, no_move().0);
        assert_eq!(AtariGo::invert_action(no_move(), sym).0, no_move().0);
    }
}

fn check_canonical_representation_invariant<const N: usize, const W: usize, const C: usize>(seed: u64) {
    let mut rng = SmallRng::seed_from_u64(seed);
    let mut state = State::<N, W, C>::new();
    let mut reachable = vec![state.clone()];
    let limit = symmetry_ply_limit(N);
    for _ in 0..limit {
        if AtariGo::is_terminal(&state) {
            break;
        }
        let mut actions = Vec::new();
        AtariGo::generate_actions(&state, &mut actions);
        let action = actions[rng.gen_range(0..actions.len())];
        state = AtariGo::apply(state, &action);
        reachable.push(state.clone());
    }

    for state in reachable {
        let (canon, _canon_sym) = AtariGo::canonical_representation(state.clone());
        for (i, &(black, white)) in State::<N, W, C>::board_symmetries(state.black(), state.white())
            .iter()
            .enumerate()
        {
            let variant = State::<N, W, C>::from_boards(black, white, state.turn(), state.has_winner());
            let (canon2, _) = AtariGo::canonical_representation(variant);
            assert_eq!(
                (canon2.black(), canon2.white(), canon2.turn()),
                (canon.black(), canon.white(), canon.turn()),
                "canonical_representation disagreed across symmetric images (n={N}, seed={seed}, i={i})"
            );
        }
    }
}

#[test]
fn test_canonical_representation_invariant_under_symmetry() {
    for seed in 0..50 {
        check_canonical_representation_invariant::<5, 1, 25>(seed);
    }
    for seed in 0..20 {
        check_canonical_representation_invariant::<9, 2, 81>(seed);
    }
}

#[test]
fn test_canonical_representation_respects_symmetry_ply_limit() {
    let n = 9usize;
    let limit = symmetry_ply_limit(n);
    assert_eq!(AtariGo::symmetry_ply_limit(&Nine::new()), limit);

    let mut black = BigBitBoard::<9, 9, 2>::empty();
    for i in 0..=limit {
        black.set(n * n - 1 - i);
    }
    let state = Nine::from_boards(black, BigBitBoard::<9, 9, 2>::empty(), Player::Black, false);
    assert_ne!(
        Nine::canonical_symmetry(state.black(), state.white()),
        0,
        "test setup: state should not already be its own canonical image"
    );

    let (canon, sym) = AtariGo::canonical_representation(state.clone());
    assert_eq!(sym, 0);
    assert_eq!(canon.black(), state.black());
    assert_eq!(canon.white(), state.white());
}

fn check_invert_action_legal_along_random_game<const N: usize, const W: usize, const C: usize>(seed: u64) {
    let mut rng = SmallRng::seed_from_u64(seed);
    let mut state = State::<N, W, C>::new();
    let max_plies = N * N + 2;

    for _ in 0..max_plies {
        if AtariGo::is_terminal(&state) {
            return;
        }
        let mut real_actions = Vec::new();
        AtariGo::generate_actions(&state, &mut real_actions);

        let (canon, sym) = AtariGo::canonical_representation(state.clone());
        let mut canon_actions = Vec::new();
        AtariGo::generate_actions(&canon, &mut canon_actions);

        for &canon_action in &canon_actions {
            let translated = AtariGo::invert_action(canon_action, sym);
            assert!(
                real_actions.contains(&translated),
                "seed {seed}, n={N}: invert_action produced {translated:?} (from canonical {canon_action:?}, sym {sym}), not present in real generate_actions {real_actions:?}"
            );
        }

        let action = real_actions[rng.gen_range(0..real_actions.len())];
        state = AtariGo::apply(state, &action);
    }
}

#[test]
fn test_invert_action_produces_legal_real_actions() {
    for seed in 0..100 {
        check_invert_action_legal_along_random_game::<5, 1, 25>(seed);
    }
    for seed in 0..30 {
        check_invert_action_legal_along_random_game::<9, 2, 81>(seed);
    }
}

#[test]
fn canonical_form_of_a_corner_stone_moves_it_to_the_smallest_image() {
    // A single Black stone in the bottom-right corner of a 3x3 board: its
    // images cover the four corners; the smallest words put it on cell 0.
    let black = BigBitBoard::<3, 3, 1>::new([1 << 8]);
    let s = Three::from_boards(black, BigBitBoard::<3, 3, 1>::empty(), Player::White, false);
    let (canon, sym) = AtariGo::canonical_representation(s.clone());
    assert_eq!(canon.black().words(), [1u64]);
    assert_eq!(canon.turn(), Player::White);
    assert!(sym < 8 && sym != 0);
    let mv = Move(8, [0; 6], 3);
    assert_eq!(AtariGo::apply_to_action(mv, sym).0, 0);
}
