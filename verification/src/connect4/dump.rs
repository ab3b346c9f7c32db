//! Self-play position records: a fixed 23-byte little-endian head (both
//! bitboards, the side to move, the disc count, the value target and the
//! length of the policy tail) followed by five bytes per policy entry (a
//! column and its probability). Floats travel as the bits of their 32-bit
//! representation.

use vstd::prelude::*;
use crate::bits::{count_ones, ones};
use crate::connect4::Player;
use crate::connect4::codec::{byte_of, le_bytes, lemma_read_le_4, lemma_read_le_8, read_le};
use crate::connect4::game::State;

verus! {

/// Size of a record's fixed head, up to and including the policy count.
pub const RECORD_HEAD_BYTES: usize = 23;

/// Size of one policy entry: a column and a 32-bit probability.
pub const POLICY_ENTRY_BYTES: usize = 5;

/// Bits of the float `1.0`.
pub const ONE_BITS: u32 = 0x3f80_0000;

/// Bits of the float `-1.0`.
pub const MINUS_ONE_BITS: u32 = 0xbf80_0000;

/// One dumped position: the board, the side to move (`0` Black, `1`
/// White), the disc count, the value target from the side to move's
/// perspective and the `(column, probability)` policy target, the floats
/// held as their bits.
#[derive(Clone, Debug, PartialEq, Eq)]
pub struct Record {
    pub black: u64,
    pub white: u64,
    pub side: u8,
    pub ply: u8,
    pub value_bits: u32,
    pub policy: Vec<(u8, u32)>,
}

/// A record as plain values.
pub type RecordView = (u64, u64, u8, u8, u32, Seq<(u8, u32)>);

impl View for Record {
    type V = RecordView;

    open spec fn view(&self) -> RecordView {
        (self.black, self.white, self.side, self.ply, self.value_bits, self.policy@)
    }
}

/// The bytes of a policy tail.
pub open spec fn policy_bytes(p: Seq<(u8, u32)>) -> Seq<u8>
    decreases p.len(),
{
    if p.len() == 0 {
        Seq::empty()
    } else {
        policy_bytes(p.drop_last()) + seq![p.last().0] + le_bytes(p.last().1 as u64, 4)
    }
}

/// The bytes of a record.
pub open spec fn record_image(v: RecordView) -> Seq<u8> {
    le_bytes(v.0, 8) + le_bytes(v.1, 8) + seq![v.2, v.3] + le_bytes(v.4 as u64, 4) + seq![v.5.len() as u8]
        + policy_bytes(v.5)
}

/// The record at the front of `b` and the number of bytes it takes, or
/// none when `b` is too short to hold its head and its tail.
pub open spec fn record_decoding(b: Seq<u8>) -> Option<(RecordView, nat)> {
    if b.len() < 23 || b.len() < 23 + 5 * b[22] {
        None
    } else {
        Some(
            (
                (
                    read_le(b, 0, 8),
                    read_le(b, 8, 8),
                    b[16],
                    b[17],
                    read_le(b, 18, 4) as u32,
                    Seq::new(b[22] as nat, |i: int| (b[23 + 5 * i], read_le(b, 24 + 5 * i, 4) as u32)),
                ),
                (23 + 5 * b[22]) as nat,
            ),
        )
    }
}

/// Appends the `k` low bytes of `x`, least significant first.
fn push_bytes(out: &mut Vec<u8>, x: u64, k: usize)
    requires
        k <= 8,
    ensures
        final(out)@ == old(out)@ + le_bytes(x, k as nat),
{
    let mut i: usize = 0;
    while i < k
        invariant
            i <= k <= 8,
            out@ == old(out)@ + le_bytes(x, i as nat),
        decreases k - i,
    {
        let shift: u64 = (8 * i) as u64;
        let byte: u8 = ((x >> shift) & 0xff) as u8;
        let ghost before = out@;
        out.push(byte);
        proof {
            assert(out@ =~= old(out)@ + le_bytes(x, (i + 1) as nat)) by {
                assert(before =~= old(out)@ + le_bytes(x, i as nat));
            }
        }
        i += 1;
    }
}

/// The little-endian number in `bytes[off..off + k]`.
fn read_bytes(bytes: &[u8], off: usize, k: usize) -> (r: u64)
    requires
        k <= 8,
        off + k <= bytes.len(),
    ensures
        r == read_le(bytes@, off as int, k as nat),
{
    let mut acc: u64 = 0;
    let mut i: usize = 0;
    while i < k
        invariant
            i <= k <= 8,
            off + k <= bytes.len(),
            acc == read_le(bytes@, off as int, i as nat),
        decreases k - i,
    {
        let shift: u64 = (8 * i) as u64;
        acc = acc | ((bytes[off + i] as u64) << shift);
        i += 1;
    }
    acc
}

/// Four bytes read as a little-endian number fit in 32 bits.
proof fn lemma_read_four_fits(s: Seq<u8>, off: int)
    ensures
        read_le(s, off, 4) <= u32::MAX,
{
    reveal_with_fuel(read_le, 5);
    let b0 = s[off];
    let b1 = s[off + 1];
    let b2 = s[off + 2];
    let b3 = s[off + 3];
    assert(((0u64 | ((b0 as u64) << 0u64)) | ((b1 as u64) << 8u64) | ((b2 as u64) << 16u64) | ((b3 as u64) << 24u64))
        <= 0xffff_ffffu64) by (bit_vector);
}

impl Record {
    /// Appends this record's bytes to `buf` (the policy tail holds at most
    /// 255 entries).
    pub fn encode(&self, buf: &mut Vec<u8>)
        requires
            self.policy@.len() <= 255,
        ensures
            final(buf)@ == old(buf)@ + record_image(self@),
    {
        push_bytes(buf, self.black, 8);
        push_bytes(buf, self.white, 8);
        buf.push(self.side);
        buf.push(self.ply);
        push_bytes(buf, self.value_bits as u64, 4);
        let n: u8 = self.policy.len() as u8;
        buf.push(n);
        let ghost head = buf@;
        proof {
            assert(self.policy@.take(0) =~= Seq::<(u8, u32)>::empty());
        }
        let mut i: usize = 0;
        while i < self.policy.len()
            invariant
                i <= self.policy@.len(),
                buf@ == head + policy_bytes(self.policy@.take(i as int)),
            decreases self.policy@.len() - i,
        {
            let (col, prob) = self.policy[i];
            buf.push(col);
            push_bytes(buf, prob as u64, 4);
            proof {
                let p = self.policy@.take(i + 1);
                assert(p.drop_last() =~= self.policy@.take(i as int));
                assert(p.last() == self.policy@[i as int]);
                assert(buf@ =~= head + policy_bytes(p));
            }
            i += 1;
        }
        proof {
            assert(self.policy@.take(self.policy@.len() as int) =~= self.policy@);
            assert(buf@ =~= old(buf)@ + record_image(self@));
        }
    }

    /// The record at the front of `bytes` and the number of bytes it took,
    /// or none when `bytes` is too short to hold a whole record.
    pub fn decode(bytes: &[u8]) -> (r: Option<(Record, usize)>)
        ensures
            match record_decoding(bytes@) {
                None => r is None,
                Some((v, n)) => r matches Some((rec, k)) && rec@ == v && k == n,
            },
    {
        if bytes.len() < RECORD_HEAD_BYTES {
            return None;
        }
        let black = read_bytes(bytes, 0, 8);
        let white = read_bytes(bytes, 8, 8);
        let side = bytes[16];
        let ply = bytes[17];
        proof {
            lemma_read_four_fits(bytes@, 18);
        }
        let value_bits = read_bytes(bytes, 18, 4) as u32;
        let n_policy = bytes[22] as usize;
        let total = RECORD_HEAD_BYTES + n_policy * POLICY_ENTRY_BYTES;
        if bytes.len() < total {
            return None;
        }
        let mut policy: Vec<(u8, u32)> = Vec::new();
        let mut i: usize = 0;
        while i < n_policy
            invariant
                i <= n_policy,
                n_policy == bytes@[22],
                total == 23 + 5 * n_policy,
                total <= bytes.len(),
                policy@ == Seq::new(i as nat, |j: int| (bytes@[23 + 5 * j], read_le(bytes@, 24 + 5 * j, 4) as u32)),
            decreases n_policy - i,
        {
            let off = RECORD_HEAD_BYTES + i * POLICY_ENTRY_BYTES;
            let col = bytes[off];
            proof {
                lemma_read_four_fits(bytes@, off + 1);
            }
            let prob = read_bytes(bytes, off + 1, 4) as u32;
            let ghost before = policy@;
            policy.push((col, prob));
            proof {
                assert(policy@ =~= Seq::new(
                    (i + 1) as nat,
                    |j: int| (bytes@[23 + 5 * j], read_le(bytes@, 24 + 5 * j, 4) as u32),
                ));
            }
            i += 1;
        }
        Some((Record { black, white, side, ply, value_bits, policy }, total))
    }
}

/// Byte `j` of a policy tail: entry `j / 5`'s column, then its
/// probability's bytes.
proof fn lemma_policy_at(p: Seq<(u8, u32)>, i: int)
    requires
        0 <= i < p.len(),
    ensures
        policy_bytes(p).len() == 5 * p.len(),
        policy_bytes(p)[5 * i] == p[i].0,
        forall|j: int| 0 <= j < 4 ==> #[trigger] policy_bytes(p)[5 * i + 1 + j] == byte_of(p[i].1 as u64, j),
    decreases p.len(),
{
    let init = p.drop_last();
    lemma_policy_len(init);
    if i < p.len() - 1 {
        lemma_policy_at(init, i);
        assert forall|j: int| 0 <= j < 4 implies #[trigger] policy_bytes(p)[5 * i + 1 + j] == byte_of(p[i].1 as u64, j) by {
            assert(policy_bytes(p)[5 * i + 1 + j] == policy_bytes(init)[5 * i + 1 + j]);
        }
    } else {
        assert forall|j: int| 0 <= j < 4 implies #[trigger] policy_bytes(p)[5 * i + 1 + j] == byte_of(p[i].1 as u64, j) by {
            assert(5 * i + 1 + j - policy_bytes(init).len() == 1 + j);
        }
    }
}

/// A policy tail takes five bytes per entry.
proof fn lemma_policy_len(p: Seq<(u8, u32)>)
    ensures
        policy_bytes(p).len() == 5 * p.len(),
    decreases p.len(),
{
    if p.len() > 0 {
        lemma_policy_len(p.drop_last());
    }
}

/// Decoding the bytes a record is written as, with anything after them,
/// gives the record back and the number of bytes it was written in.
pub proof fn lemma_record_round_trip(v: RecordView, rest: Seq<u8>)
    requires
        v.5.len() <= 255,
    ensures
        record_decoding(record_image(v) + rest) == Some((v, record_image(v).len())),
{
    let img = record_image(v);
    let b = img + rest;
    let n = v.5.len();
    lemma_policy_len(v.5);
    assert(img.len() == 23 + 5 * n);
    assert(b[22] == n as u8);
    assert forall|j: int| 0 <= j < 8 implies #[trigger] b[0 + j] == byte_of(v.0, j) by {
        assert(b[j] == img[j]);
    }
    assert forall|j: int| 0 <= j < 8 implies #[trigger] b[8 + j] == byte_of(v.1, j) by {
        assert(b[8 + j] == img[8 + j]);
    }
    assert forall|j: int| 0 <= j < 4 implies #[trigger] b[18 + j] == byte_of(v.4 as u64, j) by {
        assert(b[18 + j] == img[18 + j]);
    }
    assert(b[16] == img[16]);
    assert(b[17] == img[17]);
    lemma_read_le_8(b, 0, v.0);
    lemma_read_le_8(b, 8, v.1);
    lemma_read_le_4(b, 18, v.4 as u64);
    let decoded = Seq::new(b[22] as nat, |i: int| (b[23 + 5 * i], read_le(b, 24 + 5 * i, 4) as u32));
    assert forall|i: int| 0 <= i < n implies #[trigger] decoded[i] == v.5[i] by {
        lemma_policy_at(v.5, i);
        assert(5 * i + 5 <= 5 * n);
        assert(b[23 + 5 * i] == policy_bytes(v.5)[5 * i]);
        assert forall|j: int| 0 <= j < 4 implies #[trigger] b[(24 + 5 * i) + j] == byte_of(v.5[i].1 as u64, j) by {
            assert(b[23 + (5 * i + 1 + j)] == policy_bytes(v.5)[5 * i + 1 + j]);
        }
        lemma_read_le_4(b, 24 + 5 * i, v.5[i].1 as u64);
    }
    assert(decoded =~= v.5);
}

/// `0` for Black, `1` for White.
fn side_of(p: Player) -> (r: u8)
    ensures
        r == (if p == Player::Black { 0u8 } else { 1u8 }),
{
    match p {
        Player::Black => 0,
        Player::White => 1,
    }
}

/// The record of a position with the given policy target, its value left
/// at `0.0` until the game's outcome is known.
pub fn record_for(state: &State<6, 7>, policy: Vec<(u8, u32)>) -> (r: Record)
    ensures
        r.black == state.black_bits(),
        r.white == state.white_bits(),
        r.side == (if state.mover() == Player::Black { 0u8 } else { 1u8 }),
        r.ply == ones(state.black_bits()) + ones(state.white_bits()),
        r.value_bits == 0,
        r.policy@ == policy@,
{
    let ply = (count_ones(state.black()) + count_ones(state.white())) as u8;
    Record { black: state.black(), white: state.white(), side: side_of(state.turn()), ply, value_bits: 0, policy }
}

/// The value target of a record whose side to move is `side`, once the
/// game is over: `1.0` when that side won, `-1.0` when the other side
/// won, `0.0` for a draw.
pub open spec fn outcome_value(side: u8, winner: Option<Player>) -> u32 {
    match winner {
        None => 0,
        Some(w) => if w == (if side == 0 { Player::Black } else { Player::White }) {
            ONE_BITS
        } else {
            MINUS_ONE_BITS
        },
    }
}

/// Fills in the value target of every record from `first` on, from each
/// record's own side to move; the records before `first` are left alone.
pub fn finish_game(records: &mut Vec<Record>, first: usize, winner: Option<Player>)
    ensures
        final(records)@.len() == old(records)@.len(),
        forall|i: int|
            0 <= i < old(records)@.len() ==> {
                let a = old(records)@[i];
                let b = #[trigger] final(records)@[i];
                &&& b.black == a.black
                &&& b.white == a.white
                &&& b.side == a.side
                &&& b.ply == a.ply
                &&& b.policy@ == a.policy@
                &&& b.value_bits == if i < first {
                    a.value_bits
                } else {
                    outcome_value(a.side, winner)
                }
            },
{
    let mut i: usize = first;
    while i < records.len()
        invariant
            first <= i,
            records@.len() == old(records)@.len(),
            forall|k: int|
                0 <= k < old(records)@.len() ==> {
                    let a = old(records)@[k];
                    let b = #[trigger] records@[k];
                    &&& b.black == a.black
                    &&& b.white == a.white
                    &&& b.side == a.side
                    &&& b.ply == a.ply
                    &&& b.policy@ == a.policy@
                    &&& b.value_bits == if k < first || k >= i {
                        a.value_bits
                    } else {
                        outcome_value(a.side, winner)
                    }
                },
        decreases records@.len() - i,
    {
        let black_to_move = records[i].side == 0;
        let value: u32 = match winner {
            None => 0,
            Some(Player::Black) => if black_to_move {
                ONE_BITS
            } else {
                MINUS_ONE_BITS
            },
            Some(Player::White) => if black_to_move {
                MINUS_ONE_BITS
            } else {
                ONE_BITS
            },
        };
        records[i].value_bits = value;
        i += 1;
    }
}

} // verus!
