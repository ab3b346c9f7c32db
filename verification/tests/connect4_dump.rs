use boardgames::connect4::dump::{
    finish_game, record_for, Record, MINUS_ONE_BITS, ONE_BITS, POLICY_ENTRY_BYTES, RECORD_HEAD_BYTES,
};
use boardgames::connect4::game::{Connect4, State};
use boardgames::connect4::{Move, Player};

type Standard = Connect4<6, 7>;

fn sample_states() -> Vec<State<6, 7>> {
    let mut a = State::<6, 7>::default();
    let b = Standard::apply(a, &Move(3));
    let mut c = b;
    for col in [3u8, 2, 2, 4, 0] {
        c = Standard::apply(c, &Move(col));
    }
    a = Standard::apply(a, &Move(0));
    vec![State::<6, 7>::default(), a, b, c]
}

fn policy(entries: &[(u8, f32)]) -> Vec<(u8, u32)> {
    entries.iter().map(|&(c, p)| (c, p.to_bits())).collect()
}

#[test]
fn records_round_trip_through_encode_decode() {
    let policies: Vec<Vec<(u8, u32)>> = vec![
        Vec::new(),
        policy(&[(3, 1.0)]),
        policy(&[(0, 0.25), (3, 0.5), (6, 0.25)]),
    ];
    for state in sample_states() {
        for policy in &policies {
            let mut rec = record_for(&state, policy.clone());
            rec.value_bits = (-1.0f32).to_bits();
            let mut buf = Vec::new();
            rec.encode(&mut buf);
            assert_eq!(buf.len(), RECORD_HEAD_BYTES + policy.len() * POLICY_ENTRY_BYTES);
            let (back, consumed) = Record::decode(&buf).unwrap();
            assert_eq!(consumed, buf.len());
            assert_eq!(back, rec);
        }
    }
}

#[test]
fn decode_walks_a_concatenated_stream() {
    let recs: Vec<Record> = sample_states()
        .iter()
        .map(|s| {
            let mut r = record_for(s, policy(&[(3, 1.0)]));
            r.value_bits = 1.0f32.to_bits();
            r
        })
        .collect();
    let mut buf = Vec::new();
    for r in &recs {
        r.encode(&mut buf);
    }
    let mut cursor = &buf[..];
    let mut decoded = Vec::new();
    while let Some((rec, n)) = Record::decode(cursor) {
        decoded.push(rec);
        cursor = &cursor[n..];
    }
    assert!(cursor.is_empty());
    assert_eq!(decoded, recs);
}

#[test]
fn decode_rejects_a_truncated_record() {
    let mut buf = Vec::new();
    record_for(&State::<6, 7>::default(), policy(&[(3, 1.0)])).encode(&mut buf);
    buf.pop();
    assert!(Record::decode(&buf).is_none());
}

#[test]
fn value_and_side_track_the_perspective() {
    let after_black = Standard::apply(State::<6, 7>::default(), &Move(3));
    let mut recs = vec![
        record_for(&State::<6, 7>::default(), Vec::new()),
        record_for(&after_black, Vec::new()),
    ];
    assert_eq!(recs[0].side, 0);
    assert_eq!(recs[0].ply, 0);
    assert_eq!(recs[1].side, 1);
    assert_eq!(recs[1].ply, 1);
    finish_game(&mut recs, 0, Some(Player::Black));
    assert_eq!(f32::from_bits(recs[0].value_bits), 1.0);
    assert_eq!(f32::from_bits(recs[1].value_bits), -1.0);
}

// Own tests.

#[test]
fn head_layout_and_short_input() {
    let state = sample_states()[3];
    let mut rec = record_for(&state, policy(&[(6, 0.5)]));
    rec.value_bits = 0.0f32.to_bits();
    let mut buf = vec![0xaa];
    rec.encode(&mut buf);
    let body = &buf[1..];
    assert_eq!(&body[0..8], &state.black().to_le_bytes());
    assert_eq!(&body[8..16], &state.white().to_le_bytes());
    assert_eq!(body[16], 0);
    assert_eq!(body[17], 6);
    assert_eq!(body[22], 1);
    assert_eq!(body[23], 6);
    assert_eq!(&body[24..28], &0.5f32.to_le_bytes());
    assert!(Record::decode(&body[..22]).is_none());
}

#[test]
fn finish_game_fills_only_the_later_records() {
    let states = sample_states();
    let mut recs: Vec<Record> = states.iter().map(|s| record_for(s, Vec::new())).collect();
    finish_game(&mut recs, 2, Some(Player::White));
    assert_eq!(recs[0].value_bits, 0);
    assert_eq!(recs[1].value_bits, 0);
    // states[2] has White to move, states[3] Black to move
    assert_eq!(recs[2].value_bits, ONE_BITS);
    assert_eq!(recs[3].value_bits, MINUS_ONE_BITS);
    finish_game(&mut recs, 0, None);
    assert!(recs.iter().all(|r| r.value_bits == 0));
}
