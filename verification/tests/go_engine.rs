use boardgames::bigbitboard::BigBitBoard;
use boardgames::go_engine::GoEngine;
use std::mem::size_of;

fn idx<const N: usize, const WORDS: usize>(row: usize, col: usize) -> usize {
    BigBitBoard::<N, N, WORDS>::to_index(row, col)
}

#[test]
fn check_cells_matches_n_times_n() {
    let _ = GoEngine::<3, 1, 9>::new();
    let _ = GoEngine::<9, 2, 81>::new();
    let _ = GoEngine::<19, 6, 361>::new();
}

#[test]
fn state_size_at_supported_board_sizes() {
    assert_eq!(size_of::<GoEngine<9, 2, 81>>(), 536);
    assert_eq!(size_of::<GoEngine<13, 3, 169>>(), 1088);
    assert_eq!(size_of::<GoEngine<19, 6, 361>>(), 2312);
}

#[test]
fn empty_board_every_move_legal_and_captures_nothing() {
    type E = GoEngine<5, 1, 25>;
    let engine = E::new();
    for cell in 0..25 {
        let (legal, captured) = engine.check(true, cell);
        assert!(legal);
        assert!(captured.is_empty());
    }
}

#[test]
fn single_stone_surrounded_is_suicide() {
    type E = GoEngine<3, 1, 9>;
    let mut engine = E::new();
    for (r, c) in [(0, 1), (2, 1), (1, 0), (1, 2)] {
        let i = idx::<3, 1>(r, c);
        engine.play(false, i).unwrap();
    }
    let center = idx::<3, 1>(1, 1);
    let (legal, captured) = engine.check(true, center);
    assert!(!legal);
    assert!(captured.is_empty());
}

#[test]
fn capturing_a_single_stone() {
    type E = GoEngine<3, 1, 9>;
    let mut engine = E::new();
    let white_center = idx::<3, 1>(1, 1);
    engine.play(false, white_center).unwrap();
    for (r, c) in [(0, 1), (1, 0), (1, 2)] {
        engine.play(true, idx::<3, 1>(r, c)).unwrap();
    }
    let last = idx::<3, 1>(2, 1);
    let captured = engine.play(true, last).unwrap();
    assert_eq!(captured.count_ones(), 1);
    assert!(captured.get(white_center));
    assert!(!engine.white().get(white_center));
    assert!(!engine.black().get(white_center));
}

#[test]
fn illegal_play_changes_nothing() {
    type E = GoEngine<3, 1, 9>;
    let mut engine = E::new();
    for (r, c) in [(0, 1), (2, 1), (1, 0), (1, 2)] {
        engine.play(false, idx::<3, 1>(r, c)).unwrap();
    }
    let before = engine;
    assert!(engine.play(true, idx::<3, 1>(1, 1)).is_none());
    assert!(engine == before);
    assert_eq!(engine.black(), before.black());
    assert_eq!(engine.white(), before.white());
}

#[test]
fn liberties_track_merges_and_captures() {
    type E = GoEngine<5, 1, 25>;
    let mut engine = E::new();
    // a lone stone in the middle has four liberties, on an edge three, in a corner two
    engine.play(true, idx::<5, 1>(2, 2)).unwrap();
    assert_eq!(engine.liberties_at(idx::<5, 1>(2, 2)), Some(4));
    engine.play(true, idx::<5, 1>(0, 2)).unwrap();
    assert_eq!(engine.liberties_at(idx::<5, 1>(0, 2)), Some(3));
    engine.play(true, idx::<5, 1>(0, 0)).unwrap();
    assert_eq!(engine.liberties_at(idx::<5, 1>(0, 0)), Some(2));
    assert_eq!(engine.liberties_at(idx::<5, 1>(4, 4)), None);
    // joining (2,2) and (0,2) through (1,2): one group of three with seven liberties
    engine.play(true, idx::<5, 1>(1, 2)).unwrap();
    assert_eq!(engine.liberties_at(idx::<5, 1>(2, 2)), Some(7));
    assert_eq!(engine.liberties_at(idx::<5, 1>(0, 2)), Some(7));
    // a white stone next to the group takes one liberty from it
    engine.play(false, idx::<5, 1>(2, 3)).unwrap();
    assert_eq!(engine.liberties_at(idx::<5, 1>(1, 2)), Some(6));
    assert_eq!(engine.liberties_at(idx::<5, 1>(2, 3)), Some(3));
}

#[test]
fn capture_frees_liberties_of_the_capturer() {
    type E = GoEngine<3, 1, 9>;
    let mut engine = E::new();
    // white in the corner, black takes both its liberties
    engine.play(false, idx::<3, 1>(0, 0)).unwrap();
    engine.play(true, idx::<3, 1>(0, 1)).unwrap();
    assert_eq!(engine.liberties_at(idx::<3, 1>(0, 1)), Some(2));
    let captured = engine.play(true, idx::<3, 1>(1, 0)).unwrap();
    assert!(captured.get(idx::<3, 1>(0, 0)));
    assert_eq!(captured.count_ones(), 1);
    // each black stone regains the corner as a liberty
    assert_eq!(engine.liberties_at(idx::<3, 1>(0, 1)), Some(3));
    assert_eq!(engine.liberties_at(idx::<3, 1>(1, 0)), Some(3));
    assert_eq!(engine.liberties_at(idx::<3, 1>(0, 0)), None);
}

#[test]
fn capturing_a_group_of_two() {
    type E = GoEngine<4, 1, 16>;
    let mut engine = E::new();
    engine.play(false, idx::<4, 1>(0, 0)).unwrap();
    engine.play(false, idx::<4, 1>(0, 1)).unwrap();
    engine.play(true, idx::<4, 1>(1, 0)).unwrap();
    engine.play(true, idx::<4, 1>(1, 1)).unwrap();
    let (legal, captured) = engine.check(true, idx::<4, 1>(0, 2));
    assert!(legal);
    assert_eq!(captured.count_ones(), 2);
    let played = engine.play(true, idx::<4, 1>(0, 2)).unwrap();
    assert_eq!(played, captured);
    assert!(engine.white().is_empty());
}

fn next_rand(state: &mut u64) -> u64 {
    *state = state.wrapping_mul(6364136223846793005).wrapping_add(1442695040888963407);
    *state >> 33
}

fn replay_against_rebuild<const N: usize, const WORDS: usize, const CELLS: usize>(seed: u64, moves: usize) {
    let mut rng = seed;
    let mut engine = GoEngine::<N, WORDS, CELLS>::new();
    for _ in 0..moves {
        let index = (next_rand(&mut rng) as usize) % CELLS;
        let black = next_rand(&mut rng) % 2 == 0;
        if engine.black().get(index) || engine.white().get(index) {
            continue;
        }
        let (legal, capture) = engine.check(black, index);
        let played = engine.play(black, index);
        assert_eq!(played.is_some(), legal);
        if let Some(c) = played {
            assert_eq!(c, capture);
        }
        let rebuilt = GoEngine::<N, WORDS, CELLS>::from_boards(engine.black(), engine.white());
        assert!(rebuilt == engine);
        for cell in 0..CELLS {
            assert_eq!(engine.liberties_at(cell), rebuilt.liberties_at(cell));
        }
        for cell in 0..CELLS {
            if engine.black().get(cell) || engine.white().get(cell) {
                continue;
            }
            assert_eq!(engine.check(true, cell), rebuilt.check(true, cell));
            assert_eq!(engine.check(false, cell), rebuilt.check(false, cell));
        }
    }
}

#[test]
fn incremental_play_matches_a_fresh_rebuild() {
    for seed in 0..8 {
        replay_against_rebuild::<3, 1, 9>(seed, 40);
        replay_against_rebuild::<5, 1, 25>(seed, 80);
        replay_against_rebuild::<9, 2, 81>(seed, 150);
    }
}

#[test]
fn default_is_the_empty_board() {
    let engine = GoEngine::<9, 2, 81>::default();
    assert!(engine.black().is_empty());
    assert!(engine.white().is_empty());
    assert!(engine == GoEngine::<9, 2, 81>::new());
}

#[test]
fn no_group_without_a_liberty_survives_play() {
    type E = GoEngine<5, 1, 25>;
    let mut x: u64 = 99;
    for _game in 0..30 {
        let mut engine = E::new();
        let mut black = true;
        for _ in 0..200 {
            x = x.wrapping_mul(6364136223846793005).wrapping_add(1442695040888963407);
            let cell = (x >> 33) as usize % 25;
            if engine.liberties_at(cell).is_some() {
                continue;
            }
            if engine.play(black, cell).is_some() {
                black = !black;
            }
            for c in 0..25 {
                let occupied = engine.black().get(c) || engine.white().get(c);
                let libs = engine.liberties_at(c);
                assert_eq!(libs.is_none(), !occupied);
                assert_ne!(libs, Some(0));
            }
        }
    }
}
