use boardgames::focus::rules::Focus;
use boardgames::focus::cells::{build_valid, cell_color_at, cell_height, cell_top_color, make_cell, merge};
use boardgames::focus::game::{Move, Player, State, TerminalStatus};
use boardgames::focus::play::HASHES_LEN;
use boardgames::focus::wire::{cell_stack, state_from_wire, FocusAdapter, WireError};

fn keys() -> [u64; HASHES_LEN] {
    let mut out = [0u64; HASHES_LEN];
    let mut x: u64 = 0xF0C5;
    for k in out.iter_mut() {
        x = x.wrapping_add(0x9e37_79b9_7f4a_7c15);
        let mut z = x;
        z = (z ^ (z >> 30)).wrapping_mul(0xbf58_476d_1ce4_e5b9);
        z = (z ^ (z >> 27)).wrapping_mul(0x94d0_49bb_1331_11eb);
        *k = z ^ (z >> 31);
    }
    out
}

fn piece_counts<const P: usize>() -> [u32; P] {
    let s = State::<P>::initial(&keys());
    let mut counts = [0u32; P];
    for &w in s.cells.iter() {
        if w != 0 {
            counts[cell_top_color(w) as usize] += 1;
        }
    }
    counts
}

#[test]
fn starting_layout_piece_counts() {
    assert_eq!(piece_counts::<2>(), [18, 18]);
    assert_eq!(piece_counts::<3>(), [12, 12, 12]);
    assert_eq!(piece_counts::<4>(), [13, 13, 13, 13]);
}

#[test]
fn valid_cell_count_is_52() {
    assert_eq!(build_valid().iter().filter(|&&v| v).count(), 52);
}

#[test]
fn overflow_returns_own_color_and_captures_other_colors() {
    let mut reserve = 0u8;
    let dest = make_cell(0b00_00_00_01_01, 5);
    let result = merge(dest, &[0, 0], 0, &mut reserve);
    assert_eq!(reserve, 0);
    assert_eq!(cell_height(result), 5);
    for j in 0..5 {
        assert_eq!(cell_color_at(result, j), 0);
    }

    let mut reserve1 = 0u8;
    let dest2 = make_cell(0, 5);
    let result2 = merge(dest2, &[1, 1], 1, &mut reserve1);
    assert_eq!(reserve1, 0, "buried pieces are color 0, not mover's color 1");
    assert_eq!(cell_height(result2), 5);

    let mut reserve2 = 0u8;
    let dest3 = make_cell(0, 5);
    let result3 = merge(dest3, &[0, 0], 0, &mut reserve2);
    assert_eq!(reserve2, 2, "both buried pieces are the mover's own color");
    assert_eq!(cell_height(result3), 5);
}

#[test]
fn kind_and_label_are_distinct_per_player_count() {
    assert_eq!(FocusAdapter::<2>::kind_str(), "focus-2p");
    assert_eq!(FocusAdapter::<3>::kind_str(), "focus-3p");
    assert_eq!(FocusAdapter::<4>::kind_str(), "focus-4p");
}

/// The parts of the host round trip that the library answers: a new game
/// has 64 cells and one reserve per player, player 0 has moves, a move
/// applies, and the fresh game is not over. (Choosing an AI move needs the
/// search engine, which is not part of this library.)
fn round_trips_for<const P: usize>() {
    let keys = keys();
    let s = State::<P>::initial(&keys);
    assert_eq!(s.cells.len(), 64);
    assert_eq!(s.reserves.len(), P);

    let mut moves = Vec::new();
    s.moves(&mut moves);
    assert!(!moves.is_empty());
    let mut next = s;
    next.apply(&moves[0], &keys);
    assert_eq!(next.cells.len(), 64);
    assert_ne!(next, s);
    assert_eq!(next.hash, next.recompute_hash(&keys));

    assert_eq!(s.turn, Player(0));
    assert_eq!(s.terminal_status(), TerminalStatus::NotTerminal);
}

#[test]
fn new_state_legal_moves_apply_view_and_ai_move_round_trip_2p() {
    round_trips_for::<2>();
}

#[test]
fn new_state_legal_moves_apply_view_and_ai_move_round_trip_3p() {
    round_trips_for::<3>();
}

#[test]
fn new_state_legal_moves_apply_view_and_ai_move_round_trip_4p() {
    round_trips_for::<4>();
}

fn cleared<const P: usize>(keys: &[u64; HASHES_LEN]) -> State<P> {
    let mut s = State::<P>::initial(keys);
    for i in 0..64 {
        s.set_cell(i, 0, keys);
    }
    s
}

#[test]
fn slide_moves_stack_and_shortens_source() {
    let keys = keys();
    let mut s = cleared::<2>(&keys);
    let src = 3 * 8 + 3;
    s.set_cell(src, make_cell(0, 2), &keys);
    let dest = 3 * 8 + 5;
    let m = Move::slide(src, 1, 2);
    s.apply(&m, &keys);
    assert_eq!(s.cells[src], 0, "source is now empty");
    let w = s.cells[dest];
    assert_eq!(cell_height(w), 2);
    assert_eq!(cell_top_color(w), 0);
}

#[test]
fn split_move_leaves_remainder_at_source() {
    let keys = keys();
    let mut s = cleared::<2>(&keys);
    let src = 3 * 8 + 3;
    s.set_cell(src, make_cell(0b000000, 3), &keys);
    let m = Move::slide(src, 1, 2);
    s.apply(&m, &keys);
    let remainder = s.cells[src];
    assert_eq!(cell_height(remainder), 1);
    let dest = 3 * 8 + 5;
    assert_eq!(cell_height(s.cells[dest]), 2);
}

#[test]
fn reserve_placement_on_empty_and_overflowing_stack() {
    let keys = keys();
    let mut s = cleared::<2>(&keys);
    s.set_reserve(0, 2, &keys);
    s.set_turn(0, &keys);

    let empty_cell = 3 * 8 + 3;
    s.apply(&Move::place(empty_cell), &keys);
    assert_eq!(cell_height(s.cells[empty_cell]), 1);
    assert_eq!(s.reserves[0], 1);

    s.set_turn(0, &keys);
    let tall_cell = 3 * 8 + 4;
    s.set_cell(tall_cell, make_cell(0b01_01_01_01_01, 5), &keys);
    s.apply(&Move::place(tall_cell), &keys);
    assert_eq!(s.reserves[0], 0, "placement spent the last reserve piece");
    let w = s.cells[tall_cell];
    assert_eq!(cell_height(w), 5);
    assert_eq!(cell_top_color(w), 0, "mover's piece is on top");
}

#[test]
fn path_through_a_corner_notch_is_excluded() {
    let keys = keys();
    let mut s = cleared::<2>(&keys);
    let src = 8 + 1;
    s.set_cell(src, make_cell(0, 1), &keys);
    s.set_turn(0, &keys);
    let mut actions = Vec::new();
    s.moves(&mut actions);
    assert!(!actions.iter().any(|m| m.is_slide() && m.dir() == 0), "north slide off the notched corner should be illegal");
    assert!(actions.iter().any(|m| m.is_slide() && m.dir() == 1));
}

#[test]
fn stuck_player_is_skipped_and_lone_capable_player_wins() {
    let keys = keys();
    let mut s = cleared::<3>(&keys);
    s.set_reserve(0, 0, &keys);
    s.set_reserve(1, 0, &keys);
    s.set_reserve(2, 1, &keys);
    s.set_turn(0, &keys);
    assert_eq!(s.terminal_status(), TerminalStatus::Winner(Player(2)));

    let cell = 3 * 8 + 3;
    s.set_cell(cell, make_cell(1, 1), &keys);
    assert_eq!(s.terminal_status(), TerminalStatus::NotTerminal);
    s.set_turn(2, &keys);
    s.apply(&Move::place(4 * 8 + 4), &keys);
    assert_eq!(s.turn, Player(1), "player 0 has no move and is skipped");
}

#[test]
fn incremental_hash_matches_recompute_across_move_sequences() {
    let keys = keys();
    let mut a = State::<2>::initial(&keys);
    let mut b = State::<2>::initial(&keys);
    let m1 = {
        let mut actions = Vec::new();
        a.moves(&mut actions);
        actions[0]
    };
    a.apply(&m1, &keys);
    let m2 = {
        let mut actions = Vec::new();
        a.moves(&mut actions);
        actions[0]
    };
    a.apply(&m2, &keys);
    assert_eq!(a.hash, a.recompute_hash(&keys));

    b.apply(&m1, &keys);
    b.apply(&m2, &keys);
    assert_eq!(a.hash, b.hash);
    assert_eq!(a, b);
}

// Own tests.

#[test]
fn move_encoding_round_trips() {
    let m = Move::slide(27, 3, 4);
    assert!(m.is_slide());
    assert_eq!((m.cell(), m.dir(), m.count()), (27, 3, 4));
    let p = Move::place(42);
    assert!(!p.is_slide());
    assert_eq!(p.cell(), 42);
}

#[test]
fn cell_words_pack_colors_bottom_to_top() {
    let w = make_cell(0b11_10_01, 3);
    assert_eq!(cell_height(w), 3);
    assert_eq!(cell_stack(w), vec![1, 2, 3]);
    assert_eq!(cell_top_color(w), 3);
    assert_eq!(cell_stack(0), Vec::<u8>::new());
}

#[test]
fn wire_lengths_are_checked() {
    let cells = vec![0u16; 63];
    let reserves = vec![0u8; 2];
    assert_eq!(state_from_wire::<2>(&cells, &reserves, 0, 0), Err(WireError::CellsLength(63)));
    let cells = vec![0u16; 64];
    assert_eq!(state_from_wire::<2>(&cells, &vec![0u8; 3], 0, 0), Err(WireError::ReservesLength(3)));
    let s = state_from_wire::<2>(&cells, &reserves, 1, 7).unwrap();
    assert_eq!(s.turn, Player(1));
    assert_eq!(s.hash, 7);
}

#[test]
fn focus_rules_play_a_game_to_its_end_with_a_mover_who_can_move() {
    let k = keys();
    let mut s = State::<3>::initial(&k);
    let mut x: u64 = 17;
    for _ in 0..300 {
        if Focus::<3>::is_terminal(&s) {
            assert!(Focus::<3>::winner(&s).is_some() || Focus::<3>::terminal_status(&s) == TerminalStatus::Draw);
            return;
        }
        let mut moves = Vec::new();
        Focus::<3>::generate_actions(&s, &mut moves);
        assert!(!moves.is_empty());
        x = x.wrapping_mul(6364136223846793005).wrapping_add(1442695040888963407);
        let m = moves[(x >> 33) as usize % moves.len()];
        s = Focus::<3>::apply(s, &m, &k);
        assert_eq!(Focus::<3>::player_to_move(&s), s.turn);
        assert_eq!(Focus::<3>::zobrist_hash(&s), s.recompute_hash(&k));
        let mut next = Vec::new();
        s.moves(&mut next);
        assert!(!next.is_empty(), "the player handed the turn can move");
    }
    assert_eq!(Focus::<3>::num_players(), 3);
}

#[test]
fn move_bits_round_trip() {
    let m = Move::slide(10, 2, 3);
    assert_eq!(Move::from_bits(m.bits()), m);
    let p = Move::place(20);
    assert_eq!(p.bits(), 40);
    assert_eq!(Move::from_bits(40), p);
}
