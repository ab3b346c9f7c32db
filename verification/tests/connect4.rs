use boardgames::connect4::reference::{
    canonical_key, classify_score, mirror_bits, ply_band, proven_outcome_class_from, resolution_schedule,
    searched_reference_label_from, select_optimal_moves,
    split_for_group, validate_record, OracleSkip, RecordError, ReferenceLabel, Split,
    BOUNDED_DEPTH_SCHEDULE, EXACT_SEARCH_REMAINING_CAP,
};
use boardgames::connect4::heuristic::{black_relative_value, center_score, window_score, Heuristic};
use boardgames::connect4::windows::{build_windows, NT_WEIGHTS, N_WINDOWS};
use boardgames::connect4::game::State;
use boardgames::connect4::{Move, Player};
use boardgames::connect4::codec::{
    decode, encode, encode_v2, state_from_record, DecodeError, DiagnosticRecord, HEADER_BYTES, MAGIC,
    MAGIC_PREFIX, MAGIC_V2, RECORD_BYTES, VERSION, VERSION_V2,
};

#[test]
fn ply_bands_and_depth_schedule() {
    assert_eq!(ply_band(0), 0);
    assert_eq!(ply_band(14), 0);
    assert_eq!(ply_band(15), 1);
    assert_eq!(ply_band(22), 1);
    assert_eq!(ply_band(23), 2);
    assert_eq!(ply_band(41), 2);
    assert!(BOUNDED_DEPTH_SCHEDULE.windows(2).all(|w| w[0] < w[1]));
    assert!(BOUNDED_DEPTH_SCHEDULE[0] > 0);
    assert!(*BOUNDED_DEPTH_SCHEDULE.last().unwrap() >= EXACT_SEARCH_REMAINING_CAP);
}

#[test]
fn split_and_mirror() {
    assert_eq!(split_for_group(4, 9), split_for_group(4, 9));
    assert_eq!(canonical_key(1, 2, 0), canonical_key(mirror_bits(1), mirror_bits(2), 0));
    let mut train = std::collections::HashSet::new();
    let mut validation = std::collections::HashSet::new();
    for group in 0..100 {
        match split_for_group(group, 9) {
            Split::Train => assert!(train.insert(group)),
            Split::Validation => assert!(validation.insert(group)),
        }
    }
    assert!(train.is_disjoint(&validation));
}

#[test]
fn score_classification_distinguishes_draws_from_cutoffs() {
    assert_eq!(classify_score(0, true), ReferenceLabel::ExactDraw);
    assert_eq!(classify_score(0, false), ReferenceLabel::Unresolved);
    assert_eq!(classify_score(7, true), ReferenceLabel::ExactWin);
    assert_eq!(classify_score(-7, true), ReferenceLabel::ExactLoss);
    assert_eq!(classify_score(7, false), ReferenceLabel::BoundedWin);
    assert_eq!(classify_score(-7, false), ReferenceLabel::BoundedLoss);
}

#[test]
fn window_set_is_complete_and_well_formed() {
    let windows = build_windows();
    assert_eq!(windows.len(), N_WINDOWS);
    assert_eq!(NT_WEIGHTS, 5590);
    for win in &windows {
        for &c in win {
            assert!(c < 6 * 7);
        }
        for pair in win.windows(2) {
            assert!(pair[0] < pair[1]);
        }
    }
    let mut seen = std::collections::HashSet::new();
    for win in &windows {
        assert!(seen.insert(*win), "duplicate window {win:?}");
    }
}

#[test]
fn labels_keep_sign_and_exactness_separate() {
    assert_eq!(ReferenceLabel::ExactDraw.outcome(), Some(0));
    assert!(ReferenceLabel::ExactDraw.exact());
    assert_eq!(ReferenceLabel::BoundedLoss.outcome(), Some(-1));
    assert!(!ReferenceLabel::BoundedLoss.exact());
    assert_eq!(ReferenceLabel::Unresolved.outcome(), None);
}

fn rec() -> DiagnosticRecord {
    DiagnosticRecord {
        black: 1,
        white: 1 << 1,
        side: 0,
        ply: 2,
        group: 7,
        split: Split::Train,
        source_outcome_bits: 1.0f32.to_bits(),
        label: ReferenceLabel::BoundedWin,
        proof_depth: 3,
        max_depth: 6,
    }
}

#[test]
fn codec_and_magic() {
    let b = encode(&[rec()]);
    assert_eq!(decode(&b).unwrap(), vec![rec()]);
    let mut b = b;
    b[0] = 0;
    assert!(decode(&b).is_err());
    let mut b = encode(&[rec()]);
    b[8] = 2;
    assert!(decode(&b).is_err());
}

#[test]
fn codec_v2_round_trip_and_header_rules() {
    let b = encode_v2(&[rec()]);
    assert_eq!(&b[..8], &MAGIC_V2);
    assert_eq!(u32::from_le_bytes(b[8..12].try_into().unwrap()), VERSION_V2);
    assert_eq!(decode(&b).unwrap(), vec![rec()]);
    // both magics remain decodable so old artifacts keep working
    assert_eq!(decode(&encode(&[rec()])).unwrap(), vec![rec()]);
    // v2 magic with a v1 version is rejected
    let mut wrong = encode_v2(&[rec()]);
    wrong[8] = VERSION as u8;
    assert!(decode(&wrong).is_err());
    assert!(b.starts_with(&MAGIC_PREFIX));
}

#[test]
fn invalid_boards_rejected() {
    let mut r = rec();
    r.white = 1;
    assert!(state_from_record(&r).is_err());
    r = rec();
    r.black = 1 << 7;
    assert!(state_from_record(&r).is_err());
    r = rec();
    r.black = 0b1111;
    r.white = (1 << 7) | (1 << 8) | (1 << 9);
    r.ply = 7;
    r.side = 1;
    assert!(state_from_record(&r).is_err());
}

#[test]
fn source_outcome_is_from_the_recorded_mover() {
    let black_to_move = rec();
    assert_eq!(f32::from_bits(black_to_move.source_outcome_bits), 1.);
    let mut white_to_move = black_to_move;
    white_to_move.side = 1;
    white_to_move.black = (1 << 0) | (1 << 1);
    white_to_move.white = 1 << 7;
    white_to_move.ply = 3;
    white_to_move.source_outcome_bits = (-1.0f32).to_bits();
    assert!(state_from_record(&white_to_move).is_ok());
    assert_eq!(
        -f32::from_bits(black_to_move.source_outcome_bits),
        f32::from_bits(white_to_move.source_outcome_bits)
    );
}

// Own tests.

#[test]
fn record_checks_come_in_order() {
    assert_eq!(validate_record(1, 1 << 1, 0, 2, true), Ok(Player::Black));
    assert_eq!(validate_record(1 << 42, 0, 0, 1, true), Err(RecordError::OutsideBoard));
    assert_eq!(validate_record(1, 1, 0, 1, true), Err(RecordError::Overlap));
    assert_eq!(validate_record(1, 2, 0, 3, true), Err(RecordError::PlyMismatch));
    assert_eq!(validate_record(1, 2, 2, 2, true), Err(RecordError::InvalidScalar));
    assert_eq!(validate_record(1, 2, 0, 2, false), Err(RecordError::InvalidScalar));
    assert_eq!(validate_record(0b111, 0, 0, 3, true), Err(RecordError::ColorCounts));
    assert_eq!(validate_record(1, 2, 1, 2, true), Err(RecordError::SideMismatch));
    assert_eq!(validate_record(1 << 7, 1 << 1, 0, 2, true), Err(RecordError::Gravity));
    let black = 0b1111u64;
    let white = (1 << 7) | (1 << 8) | (1 << 9);
    assert_eq!(validate_record(black, white, 1, 7, true), Err(RecordError::Terminal));
    assert_eq!(validate_record(0b101, 0b010, 1, 3, true), Ok(Player::White));
    assert_eq!(RecordError::Gravity.message(), "gravity-invalid board");
}

#[test]
fn mirror_flips_columns_and_is_an_involution() {
    assert_eq!(mirror_bits(1), 1 << 6);
    assert_eq!(mirror_bits(1 << 7), 1 << 13);
    assert_eq!(mirror_bits(1 << 50), 0);
    let b = 0x2_0F0F_1234u64;
    assert_eq!(mirror_bits(mirror_bits(b)), b);
    assert_eq!(canonical_key(1 << 6, 0, 1), (1, 0, 1));
}

#[test]
fn schedule_by_ply() {
    assert_eq!(resolution_schedule(35), vec![(7, true)]);
    assert_eq!(resolution_schedule(42), vec![(1, true)]);
    assert_eq!(resolution_schedule(0), vec![(6, false), (8, false), (10, false), (12, false)]);
    assert_eq!(resolution_schedule(20), vec![(6, false), (8, false), (10, false), (12, false), (14, false)]);
    assert_eq!(resolution_schedule(28), vec![(6, false), (8, false), (10, false), (12, false), (14, true)]);
}

#[test]
fn split_codes_round_trip() {
    assert_eq!(Split::from_code(Split::Validation.code()), Some(Split::Validation));
    assert_eq!(Split::from_code(2), None);
    assert_eq!(ReferenceLabel::from_code(ReferenceLabel::BoundedLoss.code()), Some(ReferenceLabel::BoundedLoss));
    assert_eq!(ReferenceLabel::from_code(6), None);
}

#[test]
fn optimal_moves_follow_the_best_class() {
    let win = vec![(0u8, Some(-1)), (3, Some(1)), (4, None), (5, Some(1))];
    assert_eq!(select_optimal_moves(&win), Ok(vec![3, 5]));
    let draws = vec![(0u8, Some(0)), (1, Some(-1)), (2, Some(0))];
    assert_eq!(select_optimal_moves(&draws), Ok(vec![0, 2]));
    let lost = vec![(0u8, Some(-1)), (1, Some(-1))];
    assert_eq!(select_optimal_moves(&lost), Ok(vec![0, 1]));
    let ambiguous = vec![(0u8, Some(0)), (1, None)];
    assert_eq!(select_optimal_moves(&ambiguous), Err(OracleSkip::AmbiguousUnresolvedChild));
    let none = vec![(0u8, None)];
    assert_eq!(select_optimal_moves(&none), Err(OracleSkip::NoChildResolved));
}

#[test]
fn move_column_and_next_player() {
    assert_eq!(Move(5).col(), 5);
    assert_eq!(Player::Black.next(), Player::White);
    assert_eq!(Player::White.next(), Player::Black);
}

const LIMIT: i32 = 1_000_000;

fn cell(row: u64, col: u64) -> u64 {
    1u64 << (row * 7 + col)
}

#[test]
fn empty_board_is_symmetric() {
    let empty = State::<6, 7>::from_parts(0, 0, Player::Black, false);
    assert_eq!(Heuristic.evaluate(&empty, LIMIT), 0);
    let empty = State::<6, 7>::from_parts(0, 0, Player::White, false);
    assert_eq!(Heuristic.evaluate(&empty, LIMIT), 0);
}

#[test]
fn three_in_a_row_with_an_open_end_favors_its_owner() {
    let empty = State::<6, 7>::from_parts(0, 0, Player::Black, false);
    let black = cell(0, 0) | cell(0, 1) | cell(0, 2);
    let state = State::<6, 7>::from_parts(black, 0, Player::Black, false);
    assert!(Heuristic.evaluate(&state, LIMIT) > Heuristic.evaluate(&empty, LIMIT));
    // the windows (0,0..3) score 50, (0,1..4) scores 10, (0,2..5) scores 1,
    // and each disc starts up to three vertical and diagonal windows
    assert!(window_score::<6, 7>(black, 0) > 60);
}

#[test]
fn center_column_piece_is_worth_more_than_an_edge_piece() {
    let center = State::<6, 7>::from_parts(cell(0, 3), 0, Player::White, false);
    let edge = State::<6, 7>::from_parts(cell(0, 0), 0, Player::White, false);
    assert!(Heuristic.evaluate(&center, LIMIT) < Heuristic.evaluate(&edge, LIMIT));
}

#[test]
fn window_scores_exact_values() {
    // a lone corner disc lies in one horizontal, one vertical and one diagonal window
    assert_eq!(window_score::<6, 7>(cell(0, 0), 0), 3);
    assert_eq!(center_score::<6, 7>(cell(0, 3) | cell(1, 3), cell(2, 3)), 1);
    // a contested window scores nothing: the bottom-left horizontal window
    // holds one of each color
    assert_eq!(window_score::<6, 7>(cell(0, 0), cell(0, 1)), 1 + 1 - 1 - 1 - 1);
    let lone = State::<6, 7>::from_parts(cell(0, 3), 0, Player::Black, false);
    assert_eq!(black_relative_value(&lone), window_score::<6, 7>(cell(0, 3), 0) + 1);
    // the clamp holds the value inside the range
    let four = cell(0, 0) | cell(0, 1) | cell(0, 2) | cell(0, 3);
    assert_eq!(Heuristic.evaluate(&State::<6, 7>::from_parts(four, 0, Player::Black, false), 1000), 1000);
    assert_eq!(Heuristic.evaluate(&State::<6, 7>::from_parts(four, 0, Player::White, false), 1000), -1000);
}

#[test]
fn heuristic_on_other_board_sizes() {
    // on a 4 x 4 board a corner disc lies in one window of each kind but
    // the up-and-left diagonal, and the center column is column 2
    let corner: u64 = 1;
    assert_eq!(window_score::<4, 4>(corner, 0), 3);
    assert_eq!(center_score::<4, 4>(1 << 2, 0), 1);
    // White to move sees Black's corner windows against it
    let state = State::<4, 4>::from_parts(corner, 0, Player::White, false);
    assert_eq!(Heuristic.evaluate(&state, LIMIT), -3);
}

#[test]
fn decode_reports_each_refusal() {
    assert_eq!(decode(&[0u8; 5]), Err(DecodeError::MagicMismatch));
    let good = encode(&[rec(), rec()]);
    assert_eq!(good.len(), HEADER_BYTES + 2 * RECORD_BYTES);
    assert_eq!(&good[..8], &MAGIC);
    assert_eq!(decode(&good).unwrap(), vec![rec(), rec()]);
    let mut v = good.clone();
    v[16] = 0;
    assert_eq!(decode(&v), Err(DecodeError::BadSentinel));
    let mut v = good.clone();
    v.push(0);
    assert_eq!(decode(&v), Err(DecodeError::LengthMismatch));
    let mut v = good.clone();
    v[8] = 2;
    assert_eq!(decode(&v), Err(DecodeError::UnsupportedVersion));
    let mut v = good.clone();
    v[HEADER_BYTES + RECORD_BYTES + 22] = 2;
    assert_eq!(decode(&v), Err(DecodeError::InvalidSplit));
    let mut v = good.clone();
    v[HEADER_BYTES + 23] = 6;
    assert_eq!(decode(&v), Err(DecodeError::InvalidLabel));
    let mut v = good.clone();
    v[HEADER_BYTES + 26..HEADER_BYTES + 30].copy_from_slice(&0.5f32.to_le_bytes());
    assert_eq!(decode(&v), Err(DecodeError::Record(RecordError::InvalidScalar)));
    assert_eq!(DecodeError::Record(RecordError::Overlap).message(), "board colors overlap");
    assert_eq!(DecodeError::LengthMismatch.message(), "diagnostic length does not match header count");
}

#[test]
fn record_layout_is_little_endian() {
    let mut r = rec();
    r.black = 0x0102_0304_0506_0708 & ((1u64 << 42) - 1);
    let bytes = encode(&[r]);
    assert_eq!(&bytes[8..12], &1u32.to_le_bytes());
    assert_eq!(&bytes[12..16], &1u32.to_le_bytes());
    assert_eq!(&bytes[17..23], &[0u8; 6]);
    assert_eq!(&bytes[23..31], &r.black.to_le_bytes());
    assert_eq!(bytes[23 + 18], 7);
    assert_eq!(bytes[23 + 23], 3);
    assert_eq!(&bytes[23 + 26..23 + 30], &1.0f32.to_le_bytes());
    let empty = encode_v2(&[]);
    assert_eq!(empty.len(), HEADER_BYTES);
    assert_eq!(decode(&empty).unwrap(), vec![]);
}

#[test]
fn searched_label_walks_the_schedule() {
    assert_eq!(resolution_schedule(36), vec![(6, true)]);
    assert_eq!(searched_reference_label_from(36, &vec![0]), (ReferenceLabel::ExactDraw, 6, 6));
    assert_eq!(searched_reference_label_from(36, &vec![5]), (ReferenceLabel::ExactWin, 6, 6));
    assert_eq!(searched_reference_label_from(0, &vec![0, 0, 5, 0]), (ReferenceLabel::BoundedWin, 10, 10));
    assert_eq!(searched_reference_label_from(0, &vec![0, -2, 5, 0]), (ReferenceLabel::BoundedLoss, 8, 8));
    assert_eq!(searched_reference_label_from(0, &vec![0, 0, 0, 0]), (ReferenceLabel::Unresolved, 0, 12));
    assert_eq!(searched_reference_label_from(20, &vec![0, 0, 0, 0, 0]), (ReferenceLabel::Unresolved, 0, 14));
    assert_eq!(searched_reference_label_from(29, &vec![0, 0, 0, 0, -3]), (ReferenceLabel::ExactLoss, 13, 13));
}

#[test]
fn proven_class_takes_the_first_resolution() {
    assert_eq!(proven_outcome_class_from(0, &vec![0, 0, 0, 0]), None);
    assert_eq!(proven_outcome_class_from(0, &vec![0, 7, -7, 0]), Some(1));
    assert_eq!(proven_outcome_class_from(29, &vec![0, 0, 0, 0, -3]), Some(-1));
    assert_eq!(proven_outcome_class_from(29, &vec![0, 0, 0, 0, 0]), Some(0));
    assert_eq!(proven_outcome_class_from(36, &vec![0]), Some(0));
}
