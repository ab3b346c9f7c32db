use boardgames::breakthrough::{Heuristic, Player};

const LIMIT: i32 = 1_000_000;

/// The standard 8x8 start: Black on rows 0 and 1, White on rows 6 and 7.
fn start() -> (u64, u64) {
    (0x0000_0000_0000_FFFF, 0xFFFF_0000_0000_0000)
}

fn cell(row: u32, col: u32) -> u64 {
    1u64 << (row * 8 + col)
}

#[test]
fn start_position_is_symmetric() {
    let (black, white) = start();
    assert_eq!(Heuristic.evaluate::<8, 8>(black, white, Player::Black, LIMIT), 0);
    assert_eq!(Heuristic.evaluate::<8, 8>(black, white, Player::White, LIMIT), 0);
}

#[test]
fn material_deficit_is_worse_for_its_owner() {
    let (black, white) = start();
    let removed = white.trailing_zeros();
    let thin_white = white & !(1u64 << removed);
    // White to move and down a piece: worse for the mover than the start.
    assert!(
        Heuristic.evaluate::<8, 8>(black, thin_white, Player::White, LIMIT)
            < Heuristic.evaluate::<8, 8>(black, white, Player::White, LIMIT)
    );
}

#[test]
fn advanced_piece_is_worth_more_than_a_piece_at_home() {
    let advanced = Heuristic.evaluate::<8, 8>(cell(6, 0), 0, Player::Black, LIMIT);
    let at_home = Heuristic.evaluate::<8, 8>(cell(1, 0), 0, Player::Black, LIMIT);
    assert!(advanced > at_home);
}

// Own tests.

#[test]
fn evaluation_exact_values() {
    // one Black piece on row 6: 100 material + 36 advancement
    assert_eq!(Heuristic.evaluate::<8, 8>(cell(6, 3), 0, Player::Black, LIMIT), 136);
    assert_eq!(Heuristic.evaluate::<8, 8>(cell(6, 3), 0, Player::White, LIMIT), -136);
    // one White piece on row 1 has travelled 6 rows
    assert_eq!(Heuristic.evaluate::<8, 8>(0, cell(1, 5), Player::Black, LIMIT), -136);
    // the start position: material and advancement both balance
    let (black, white) = start();
    assert_eq!(Heuristic.evaluate::<8, 8>(black, white, Player::Black, LIMIT), 0);
    // clamping
    assert_eq!(Heuristic.evaluate::<8, 8>(cell(6, 3), 0, Player::Black, 50), 50);
    assert_eq!(Heuristic.evaluate::<8, 8>(cell(6, 3), 0, Player::White, 50), -50);
}

#[test]
fn smaller_boards_measure_rows_of_their_own_size() {
    // 5x5: a White piece on row 0 has travelled 4 rows: 100 + 16
    let white = 1u64 << 2;
    assert_eq!(Heuristic.evaluate::<5, 5>(0, white, Player::White, LIMIT), 116);
}
