//! The byte layout of reference-diagnostic artifacts: a 23-byte header
//! (eight magic bytes, the version and the record count as little-endian
//! 32-bit numbers, a `0xff` sentinel and six zero bytes) followed by one
//! 30-byte little-endian record per position.

use vstd::prelude::*;
use crate::connect4::Player;
use crate::connect4::game::State;
use crate::connect4::reference::{record_error_text, label_code, label_of, record_verdict, validate_record, RecordError, ReferenceLabel, Split};

verus! {

/// Magic bytes of the original artifact, `C4REFD01`.
pub const MAGIC: [u8; 8] = [0x43, 0x34, 0x52, 0x45, 0x46, 0x44, 0x30, 0x31];

/// Version written after [`MAGIC`].
pub const VERSION: u32 = 1;

/// Magic bytes of the expanded-corpus artifact, `C4REFD02`.
pub const MAGIC_V2: [u8; 8] = [0x43, 0x34, 0x52, 0x45, 0x46, 0x44, 0x30, 0x32];

/// Version written after [`MAGIC_V2`].
pub const VERSION_V2: u32 = 2;

/// Prefix shared by every reference-diagnostic magic, `C4REFD`.
pub const MAGIC_PREFIX: [u8; 6] = [0x43, 0x34, 0x52, 0x45, 0x46, 0x44];

/// Length of the header.
pub const HEADER_BYTES: usize = 23;

/// Length of one record.
pub const RECORD_BYTES: usize = 30;

/// One diagnostic position: the board, the side to move (`0` Black, `1`
/// White), the disc count, the game group and its split, the outcome of
/// the source game from the recorded mover's side (the bits of a 32-bit
/// float), the searched label and the depths at which it was proved.
#[derive(Clone, Copy, Debug, PartialEq, Eq)]
pub struct DiagnosticRecord {
    pub black: u64,
    pub white: u64,
    pub side: u8,
    pub ply: u8,
    pub group: u32,
    pub split: Split,
    pub source_outcome_bits: u32,
    pub label: ReferenceLabel,
    pub proof_depth: u8,
    pub max_depth: u8,
}

/// Byte `i` of `x`, least significant first.
pub open spec fn byte_of(x: u64, i: int) -> u8 {
    ((x >> ((8 * i) as u64)) & 0xff) as u8
}

/// The `k` low bytes of `x`, least significant first.
pub open spec fn le_bytes(x: u64, k: nat) -> Seq<u8> {
    Seq::new(k, |i: int| byte_of(x, i))
}

/// The little-endian number held in the `k` bytes of `s` from `off` on.
pub open spec fn read_le(s: Seq<u8>, off: int, k: nat) -> u64
    decreases k,
{
    if k == 0 {
        0
    } else {
        read_le(s, off, (k - 1) as nat) | ((s[off + k - 1] as u64) << ((8 * (k - 1)) as u64))
    }
}

/// The byte that stands for a split in a record.
pub open spec fn split_code(s: Split) -> u8 {
    if s == Split::Train {
        0
    } else {
        1
    }
}

/// The bits of a 32-bit float that is `-1`, `0` (of either sign) or `1`.
pub open spec fn outcome_bits_ok(bits: u32) -> bool {
    bits == 0 || bits == 0x8000_0000 || bits == 0x3f80_0000 || bits == 0xbf80_0000
}

/// The verdict on a record's position.
pub open spec fn record_check(r: DiagnosticRecord) -> Result<Player, RecordError> {
    record_verdict(r.black, r.white, r.side, r.ply, outcome_bits_ok(r.source_outcome_bits))
}

/// The 30 bytes of a record.
pub open spec fn record_bytes(r: DiagnosticRecord) -> Seq<u8> {
    le_bytes(r.black, 8) + le_bytes(r.white, 8) + seq![r.side, r.ply] + le_bytes(r.group as u64, 4) + seq![
        split_code(r.split),
        label_code(r.label),
        r.proof_depth,
        r.max_depth,
    ] + le_bytes(r.source_outcome_bits as u64, 4)
}

/// The 23 bytes of a header.
pub open spec fn header_bytes(magic: Seq<u8>, version: u32, count: u32) -> Seq<u8> {
    magic + le_bytes(version as u64, 4) + le_bytes(count as u64, 4) + seq![0xffu8] + seq![0u8, 0u8, 0u8, 0u8, 0u8, 0u8]
}

/// The records' bytes, one after another.
pub open spec fn body_bytes(rs: Seq<DiagnosticRecord>) -> Seq<u8>
    decreases rs.len(),
{
    if rs.len() == 0 {
        Seq::empty()
    } else {
        body_bytes(rs.drop_last()) + record_bytes(rs.last())
    }
}

/// A whole artifact: the header for `rs` followed by its records.
pub open spec fn encoding(rs: Seq<DiagnosticRecord>, magic: Seq<u8>, version: u32) -> Seq<u8> {
    header_bytes(magic, version, rs.len() as u32) + body_bytes(rs)
}

/// Why an artifact was refused.
#[derive(Clone, Copy, Debug, PartialEq, Eq)]
pub enum DecodeError {
    /// Too short for a header, or a magic that is neither known one.
    MagicMismatch,
    /// A known magic with a version that does not belong to it.
    UnsupportedVersion,
    /// The header's sentinel byte is not `0xff`.
    BadSentinel,
    /// The length is not the header's count of records.
    LengthMismatch,
    /// A record's split byte is neither `0` nor `1`.
    InvalidSplit,
    /// A record's label byte is past `5`.
    InvalidLabel,
    /// A record's position was refused.
    Record(RecordError),
}

/// A short description of an artifact refusal.
pub open spec fn decode_error_text(e: DecodeError) -> Seq<char> {
    match e {
        DecodeError::MagicMismatch => "reference diagnostic magic mismatch"@,
        DecodeError::UnsupportedVersion => "unsupported reference diagnostic version"@,
        DecodeError::BadSentinel => "invalid diagnostic header sentinel"@,
        DecodeError::LengthMismatch => "diagnostic length does not match header count"@,
        DecodeError::InvalidSplit => "invalid split"@,
        DecodeError::InvalidLabel => "invalid reference label"@,
        DecodeError::Record(r) => record_error_text(r),
    }
}

impl DecodeError {
    /// A short description of the refusal.
    pub fn message(self) -> (r: &'static str)
        ensures
            r@ == decode_error_text(self),
    {
        match self {
            DecodeError::MagicMismatch => "reference diagnostic magic mismatch",
            DecodeError::UnsupportedVersion => "unsupported reference diagnostic version",
            DecodeError::BadSentinel => "invalid diagnostic header sentinel",
            DecodeError::LengthMismatch => "diagnostic length does not match header count",
            DecodeError::InvalidSplit => "invalid split",
            DecodeError::InvalidLabel => "invalid reference label",
            DecodeError::Record(e) => e.message(),
        }
    }
}

/// The record whose 30 bytes start at `base`, or why it is refused: the
/// split byte is checked first, then the label byte, then the position.
pub open spec fn parse_record(b: Seq<u8>, base: int) -> Result<DiagnosticRecord, DecodeError> {
    if b[base + 22] > 1 {
        Err(DecodeError::InvalidSplit)
    } else if b[base + 23] > 5 {
        Err(DecodeError::InvalidLabel)
    } else {
        let r = DiagnosticRecord {
            black: read_le(b, base, 8),
            white: read_le(b, base + 8, 8),
            side: b[base + 16],
            ply: b[base + 17],
            group: read_le(b, base + 18, 4) as u32,
            split: if b[base + 22] == 0 {
                Split::Train
            } else {
                Split::Validation
            },
            source_outcome_bits: read_le(b, base + 26, 4) as u32,
            label: label_of(b[base + 23]),
            proof_depth: b[base + 24],
            max_depth: b[base + 25],
        };
        match record_check(r) {
            Ok(_) => Ok(r),
            Err(e) => Err(DecodeError::Record(e)),
        }
    }
}

/// The first `k` records of `b`, or the refusal of the first bad one.
pub open spec fn records_verdict(b: Seq<u8>, k: nat) -> Result<Seq<DiagnosticRecord>, DecodeError>
    decreases k,
{
    if k == 0 {
        Ok(Seq::empty())
    } else {
        match records_verdict(b, (k - 1) as nat) {
            Err(e) => Err(e),
            Ok(prev) => match parse_record(b, 23 + 30 * (k - 1)) {
                Err(e) => Err(e),
                Ok(r) => Ok(prev.push(r)),
            },
        }
    }
}

/// The verdict on an artifact, in the order the checks are made: header
/// length and magic, the version that belongs to the magic, the sentinel,
/// the length against the count, then each record in turn.
pub open spec fn decode_verdict(b: Seq<u8>) -> Result<Seq<DiagnosticRecord>, DecodeError> {
    if b.len() < 23 {
        Err(DecodeError::MagicMismatch)
    } else {
        let magic = b.take(8);
        let version = read_le(b, 8, 4);
        let count = read_le(b, 12, 4);
        if magic != MAGIC@ && magic != MAGIC_V2@ {
            Err(DecodeError::MagicMismatch)
        } else if version != (if magic == MAGIC@ {
            VERSION
        } else {
            VERSION_V2
        }) as u64 {
            Err(DecodeError::UnsupportedVersion)
        } else if b[16] != 0xff {
            Err(DecodeError::BadSentinel)
        } else if b.len() != 23 + 30 * count {
            Err(DecodeError::LengthMismatch)
        } else {
            records_verdict(b, count as nat)
        }
    }
}

/// Appends the `k` low bytes of `x`, least significant first.
fn push_le(out: &mut Vec<u8>, x: u64, k: usize)
    requires
        k <= 8,
    ensures
        final(out)@ == old(out)@ + le_bytes(x, k as nat),
{
    let mut i: usize = 0;
    while i < k
        invariant
            i <= k <= 8,
            out@ == old(out)@ + le_bytes(x, i as nat),
        decreases k - i,
    {
        let shift: u64 = (8 * i) as u64;
        let byte: u8 = ((x >> shift) & 0xff) as u8;
        let ghost before = out@;
        out.push(byte);
        proof {
            assert(out@ =~= old(out)@ + le_bytes(x, (i + 1) as nat)) by {
                assert(before =~= old(out)@ + le_bytes(x, i as nat));
            }
        }
        i += 1;
    }
}

/// Appends a record's 30 bytes.
fn push_record(out: &mut Vec<u8>, r: &DiagnosticRecord)
    ensures
        final(out)@ == old(out)@ + record_bytes(*r),
{
    push_le(out, r.black, 8);
    push_le(out, r.white, 8);
    out.push(r.side);
    out.push(r.ply);
    push_le(out, r.group as u64, 4);
    out.push(r.split.code());
    out.push(r.label.code());
    out.push(r.proof_depth);
    out.push(r.max_depth);
    push_le(out, r.source_outcome_bits as u64, 4);
    proof {
        assert(out@ =~= old(out)@ + record_bytes(*r));
    }
}

/// The artifact holding `records` under the given magic and version.
fn encode_with(records: &[DiagnosticRecord], magic: &[u8; 8], version: u32) -> (r: Vec<u8>)
    requires
        records@.len() <= u32::MAX,
    ensures
        r@ == encoding(records@, magic@, version),
{
    let mut out: Vec<u8> = Vec::new();
    let mut k: usize = 0;
    while k < 8
        invariant
            k <= 8,
            magic@.len() == 8,
            out@ == magic@.take(k as int),
        decreases 8 - k,
    {
        out.push(magic[k]);
        proof {
            assert(out@ =~= magic@.take(k + 1));
        }
        k += 1;
    }
    proof {
        assert(magic@.take(8) =~= magic@);
    }
    push_le(&mut out, version as u64, 4);
    push_le(&mut out, records.len() as u64, 4);
    out.push(0xff);
    let mut z: usize = 0;
    while z < 6
        invariant
            z <= 6,
            out@ == magic@ + le_bytes(version as u64, 4) + le_bytes(records@.len() as u64, 4) + seq![0xffu8]
                + Seq::new(z as nat, |i: int| 0u8),
        decreases 6 - z,
    {
        let ghost before = out@;
        out.push(0);
        proof {
            assert(out@ =~= magic@ + le_bytes(version as u64, 4) + le_bytes(records@.len() as u64, 4) + seq![0xffu8]
                + Seq::new((z + 1) as nat, |i: int| 0u8));
        }
        z += 1;
    }
    proof {
        assert(Seq::new(6, |i: int| 0u8) =~= seq![0u8, 0u8, 0u8, 0u8, 0u8, 0u8]);
        assert((records@.len() as u32) as u64 == records@.len() as u64);
        assert(out@ =~= header_bytes(magic@, version, records@.len() as u32));
        assert(records@.take(0) =~= Seq::<DiagnosticRecord>::empty());
    }
    let ghost header = out@;
    let mut i: usize = 0;
    while i < records.len()
        invariant
            i <= records@.len(),
            out@ == header + body_bytes(records@.take(i as int)),
        decreases records@.len() - i,
    {
        push_record(&mut out, &records[i]);
        proof {
            assert(records@.take(i + 1).drop_last() =~= records@.take(i as int));
            assert(records@.take(i + 1).last() == records@[i as int]);
            assert(out@ =~= header + body_bytes(records@.take(i + 1)));
        }
        i += 1;
    }
    proof {
        assert(records@.take(records@.len() as int) =~= records@);
    }
    out
}

/// The original artifact holding `records`.
pub fn encode(records: &[DiagnosticRecord]) -> (r: Vec<u8>)
    requires
        records@.len() <= u32::MAX,
    ensures
        r@ == encoding(records@, MAGIC@, VERSION),
{
    encode_with(records, &MAGIC, VERSION)
}

/// The expanded-corpus artifact holding `records`.
pub fn encode_v2(records: &[DiagnosticRecord]) -> (r: Vec<u8>)
    requires
        records@.len() <= u32::MAX,
    ensures
        r@ == encoding(records@, MAGIC_V2@, VERSION_V2),
{
    encode_with(records, &MAGIC_V2, VERSION_V2)
}

/// The little-endian number in `bytes[off..off + k]`.
fn read_le_exec(bytes: &[u8], off: usize, k: usize) -> (r: u64)
    requires
        k <= 8,
        off + k <= bytes.len(),
    ensures
        r == read_le(bytes@, off as int, k as nat),
{
    let mut acc: u64 = 0;
    let mut i: usize = 0;
    while i < k
        invariant
            i <= k <= 8,
            off + k <= bytes.len(),
            acc == read_le(bytes@, off as int, i as nat),
        decreases k - i,
    {
        let shift: u64 = (8 * i) as u64;
        acc = acc | ((bytes[off + i] as u64) << shift);
        i += 1;
    }
    acc
}

/// Whether the float with bits `bits` is `-1`, `0` or `1`.
fn outcome_bits_valid(bits: u32) -> (r: bool)
    ensures
        r == outcome_bits_ok(bits),
{
    bits == 0 || bits == 0x8000_0000 || bits == 0x3f80_0000 || bits == 0xbf80_0000
}

/// The position a record holds, once its board, side, ply and source
/// outcome pass every check of [`validate_record`]; the outcome must be
/// `-1`, `0` or `1`.
pub fn state_from_record(record: &DiagnosticRecord) -> (r: Result<State<6, 7>, RecordError>)
    ensures
        match record_check(*record) {
            Ok(p) => r matches Ok(s) && s.black_bits() == record.black && s.white_bits() == record.white
                && s.mover() == p && !s.won(),
            Err(e) => r == Err::<State<6, 7>, RecordError>(e),
        },
{
    let outcome_ok = outcome_bits_valid(record.source_outcome_bits);
    match validate_record(record.black, record.white, record.side, record.ply, outcome_ok) {
        Ok(p) => Ok(State::from_parts(record.black, record.white, p, false)),
        Err(e) => Err(e),
    }
}

/// Whether the eight bytes at the front of `bytes` are `magic`.
fn starts_with_magic(bytes: &[u8], magic: &[u8; 8]) -> (r: bool)
    requires
        bytes@.len() >= 8,
    ensures
        r == (bytes@.take(8) == magic@),
{
    let mut k: usize = 0;
    while k < 8
        invariant
            k <= 8 <= bytes@.len(),
            magic@.len() == 8,
            forall|j: int| 0 <= j < k ==> bytes@[j] == magic@[j],
        decreases 8 - k,
    {
        if bytes[k] != magic[k] {
            proof {
                assert(bytes@.take(8)[k as int] != magic@[k as int]);
            }
            return false;
        }
        k += 1;
    }
    proof {
        assert(bytes@.take(8) =~= magic@);
    }
    true
}

/// The record whose 30 bytes start at `base`.
fn parse_record_exec(bytes: &[u8], base: usize) -> (r: Result<DiagnosticRecord, DecodeError>)
    requires
        base + 30 <= bytes.len(),
    ensures
        r == parse_record(bytes@, base as int),
{
    proof {
        lemma_read_le_bound(bytes@, base + 18, 4);
        lemma_read_le_bound(bytes@, base + 26, 4);
    }
    let split = match Split::from_code(bytes[base + 22]) {
        Some(s) => s,
        None => return Err(DecodeError::InvalidSplit),
    };
    let label = match ReferenceLabel::from_code(bytes[base + 23]) {
        Some(l) => l,
        None => return Err(DecodeError::InvalidLabel),
    };
    let r = DiagnosticRecord {
        black: read_le_exec(bytes, base, 8),
        white: read_le_exec(bytes, base + 8, 8),
        side: bytes[base + 16],
        ply: bytes[base + 17],
        group: read_le_exec(bytes, base + 18, 4) as u32,
        split,
        source_outcome_bits: read_le_exec(bytes, base + 26, 4) as u32,
        label,
        proof_depth: bytes[base + 24],
        max_depth: bytes[base + 25],
    };
    match state_from_record(&r) {
        Ok(_) => Ok(r),
        Err(e) => Err(DecodeError::Record(e)),
    }
}

/// The records of an artifact of either version, or why it is refused.
pub fn decode(bytes: &[u8]) -> (r: Result<Vec<DiagnosticRecord>, DecodeError>)
    ensures
        match decode_verdict(bytes@) {
            Ok(rs) => r matches Ok(v) && v@ == rs,
            Err(e) => r == Err::<Vec<DiagnosticRecord>, DecodeError>(e),
        },
{
    if bytes.len() < HEADER_BYTES {
        return Err(DecodeError::MagicMismatch);
    }
    let version = read_le_exec(bytes, 8, 4);
    let is_v1 = starts_with_magic(bytes, &MAGIC);
    let is_v2 = starts_with_magic(bytes, &MAGIC_V2);
    if !is_v1 && !is_v2 {
        return Err(DecodeError::MagicMismatch);
    }
    let magic_ok = if is_v1 {
        version == VERSION as u64
    } else {
        version == VERSION_V2 as u64
    };
    if !magic_ok {
        return Err(DecodeError::UnsupportedVersion);
    }
    if bytes[16] != 0xff {
        return Err(DecodeError::BadSentinel);
    }
    let count = read_le_exec(bytes, 12, 4);
    proof {
        lemma_read_le_bound(bytes@, 12, 4);
    }
    if bytes.len() as u64 != 23 + 30 * count {
        return Err(DecodeError::LengthMismatch);
    }
    let n = count as usize;
    proof {
        assert(decode_verdict(bytes@) == records_verdict(bytes@, n as nat));
    }
    let mut out: Vec<DiagnosticRecord> = Vec::new();
    let mut i: usize = 0;
    while i < n
        invariant
            i <= n,
            n == count,
            bytes.len() == 23 + 30 * n,
            decode_verdict(bytes@) == records_verdict(bytes@, n as nat),
            records_verdict(bytes@, i as nat) == Ok::<Seq<DiagnosticRecord>, DecodeError>(out@),
        decreases n - i,
    {
        proof {
            assert(23 + 30 * i + 30 <= 23 + 30 * n) by (nonlinear_arith)
                requires
                    i < n,
            ;
        }
        let base = 23 + 30 * i;
        match parse_record_exec(bytes, base) {
            Ok(rec) => {
                out.push(rec);
            },
            Err(e) => {
                proof {
                    assert(records_verdict(bytes@, (i + 1) as nat) == Err::<Seq<DiagnosticRecord>, DecodeError>(e));
                    lemma_records_verdict_stays_err(bytes@, (i + 1) as nat, n as nat);
                }
                return Err(e);
            },
        }
        i += 1;
    }
    Ok(out)
}

/// A little-endian number of `k` bytes is below `2^(8k)`; for four bytes,
/// below `2^32`.
proof fn lemma_read_le_bound(s: Seq<u8>, off: int, k: nat)
    requires
        k == 4,
    ensures
        read_le(s, off, k) <= u32::MAX,
{
    reveal_with_fuel(read_le, 5);
    let b0 = s[off];
    let b1 = s[off + 1];
    let b2 = s[off + 2];
    let b3 = s[off + 3];
    assert(((0u64 | ((b0 as u64) << 0u64)) | ((b1 as u64) << 8u64) | ((b2 as u64) << 16u64) | ((b3 as u64) << 24u64))
        <= 0xffff_ffffu64) by (bit_vector);
}

/// Once a record is refused, every longer prefix is refused the same way.
proof fn lemma_records_verdict_stays_err(b: Seq<u8>, k: nat, m: nat)
    requires
        k <= m,
        records_verdict(b, k) is Err,
    ensures
        records_verdict(b, m) == records_verdict(b, k),
    decreases m - k,
{
    if k < m {
        lemma_records_verdict_stays_err(b, k, (m - 1) as nat);
    }
}


/// Eight bytes holding `x` least significant first read back as `x`.
pub(crate) proof fn lemma_read_le_8(s: Seq<u8>, off: int, x: u64)
    requires
        forall|j: int| 0 <= j < 8 ==> #[trigger] s[off + j] == byte_of(x, j),
    ensures
        read_le(s, off, 8) == x,
{
    reveal_with_fuel(read_le, 9);
    let b0 = s[off + 0];
    let b1 = s[off + 1];
    let b2 = s[off + 2];
    let b3 = s[off + 3];
    let b4 = s[off + 4];
    let b5 = s[off + 5];
    let b6 = s[off + 6];
    let b7 = s[off + 7];
    let r1 = read_le(s, off, 1);
    let r2 = read_le(s, off, 2);
    let r3 = read_le(s, off, 3);
    let r4 = read_le(s, off, 4);
    let r5 = read_le(s, off, 5);
    let r6 = read_le(s, off, 6);
    let r7 = read_le(s, off, 7);
    let r8 = read_le(s, off, 8);
    assert(r8 == x) by (bit_vector)
        requires
            b0 == ((x >> 0u64) & 0xff) as u8,
            b1 == ((x >> 8u64) & 0xff) as u8,
            b2 == ((x >> 16u64) & 0xff) as u8,
            b3 == ((x >> 24u64) & 0xff) as u8,
            b4 == ((x >> 32u64) & 0xff) as u8,
            b5 == ((x >> 40u64) & 0xff) as u8,
            b6 == ((x >> 48u64) & 0xff) as u8,
            b7 == ((x >> 56u64) & 0xff) as u8,
            r1 == (0u64 | ((b0 as u64) << 0u64)),
            r2 == (r1 | ((b1 as u64) << 8u64)),
            r3 == (r2 | ((b2 as u64) << 16u64)),
            r4 == (r3 | ((b3 as u64) << 24u64)),
            r5 == (r4 | ((b4 as u64) << 32u64)),
            r6 == (r5 | ((b5 as u64) << 40u64)),
            r7 == (r6 | ((b6 as u64) << 48u64)),
            r8 == (r7 | ((b7 as u64) << 56u64)),
    ;
}

/// Four bytes holding a 32-bit `x` least significant first read back as `x`.
pub(crate) proof fn lemma_read_le_4(s: Seq<u8>, off: int, x: u64)
    requires
        x <= u32::MAX,
        forall|j: int| 0 <= j < 4 ==> #[trigger] s[off + j] == byte_of(x, j),
    ensures
        read_le(s, off, 4) == x,
{
    reveal_with_fuel(read_le, 5);
    let b0 = s[off + 0];
    let b1 = s[off + 1];
    let b2 = s[off + 2];
    let b3 = s[off + 3];
    let r1 = read_le(s, off, 1);
    let r2 = read_le(s, off, 2);
    let r3 = read_le(s, off, 3);
    let r4 = read_le(s, off, 4);
    assert(r4 == x) by (bit_vector)
        requires
            x <= 0xffff_ffffu64,
            b0 == ((x >> 0u64) & 0xff) as u8,
            b1 == ((x >> 8u64) & 0xff) as u8,
            b2 == ((x >> 16u64) & 0xff) as u8,
            b3 == ((x >> 24u64) & 0xff) as u8,
            r1 == (0u64 | ((b0 as u64) << 0u64)),
            r2 == (r1 | ((b1 as u64) << 8u64)),
            r3 == (r2 | ((b2 as u64) << 16u64)),
            r4 == (r3 | ((b3 as u64) << 24u64)),
    ;
}

/// The records' bytes take 30 bytes each.
proof fn lemma_body_len(rs: Seq<DiagnosticRecord>)
    ensures
        body_bytes(rs).len() == 30 * rs.len(),
    decreases rs.len(),
{
    if rs.len() > 0 {
        lemma_body_len(rs.drop_last());
    }
}

/// Byte `j` of record `i` sits at `30 * i + j` of the records' bytes.
proof fn lemma_body_at(rs: Seq<DiagnosticRecord>, i: int, j: int)
    requires
        0 <= i < rs.len(),
        0 <= j < 30,
    ensures
        body_bytes(rs)[30 * i + j] == record_bytes(rs[i])[j],
    decreases rs.len(),
{
    let init = rs.drop_last();
    lemma_body_len(init);
    if i < rs.len() - 1 {
        lemma_body_at(init, i, j);
        assert(30 * i + j < 30 * init.len());
    } else {
        assert(30 * i + j - body_bytes(init).len() == j);
    }
}

/// A label's byte reads back as the label.
proof fn lemma_label_round_trip(l: ReferenceLabel)
    ensures
        label_code(l) <= 5,
        label_of(label_code(l)) == l,
{
}

/// A valid record's 30 bytes parse back to the record.
proof fn lemma_parse_encoded(b: Seq<u8>, base: int, r: DiagnosticRecord)
    requires
        0 <= base,
        base + 30 <= b.len(),
        forall|j: int| 0 <= j < 30 ==> #[trigger] b[base + j] == record_bytes(r)[j],
        record_check(r) is Ok,
    ensures
        parse_record(b, base) == Ok::<DiagnosticRecord, DecodeError>(r),
{
    let rb = record_bytes(r);
    assert(rb.len() == 30);
    assert forall|j: int| 0 <= j < 8 implies #[trigger] b[base + j] == byte_of(r.black, j) by {
        assert(b[base + j] == rb[j]);
    }
    assert forall|j: int| 0 <= j < 8 implies #[trigger] b[(base + 8) + j] == byte_of(r.white, j) by {
        assert(b[base + (8 + j)] == rb[8 + j]);
    }
    assert forall|j: int| 0 <= j < 4 implies #[trigger] b[(base + 18) + j] == byte_of(r.group as u64, j) by {
        assert(b[base + (18 + j)] == rb[18 + j]);
    }
    assert forall|j: int| 0 <= j < 4 implies #[trigger] b[(base + 26) + j] == byte_of(r.source_outcome_bits as u64, j) by {
        assert(b[base + (26 + j)] == rb[26 + j]);
    }
    assert(b[base + 16] == rb[16]);
    assert(b[base + 17] == rb[17]);
    assert(b[base + 22] == rb[22]);
    assert(b[base + 23] == rb[23]);
    assert(b[base + 24] == rb[24]);
    assert(b[base + 25] == rb[25]);
    lemma_read_le_8(b, base, r.black);
    lemma_read_le_8(b, base + 8, r.white);
    lemma_read_le_4(b, base + 18, r.group as u64);
    lemma_read_le_4(b, base + 26, r.source_outcome_bits as u64);
    lemma_label_round_trip(r.label);
}

/// Records laid out from byte 23 on, every one valid, are read back in order.
proof fn lemma_records_encoded(rs: Seq<DiagnosticRecord>, b: Seq<u8>, k: nat)
    requires
        k <= rs.len(),
        b.len() >= 23 + 30 * rs.len(),
        forall|i: int, j: int| 0 <= i < rs.len() && 0 <= j < 30 ==> #[trigger] b[23 + 30 * i + j] == record_bytes(rs[i])[j],
        forall|i: int| 0 <= i < rs.len() ==> (#[trigger] record_check(rs[i])) is Ok,
    ensures
        records_verdict(b, k) == Ok::<Seq<DiagnosticRecord>, DecodeError>(rs.take(k as int)),
    decreases k,
{
    if k == 0 {
        assert(rs.take(0) =~= Seq::<DiagnosticRecord>::empty());
    } else {
        let i = k - 1;
        lemma_records_encoded(rs, b, (k - 1) as nat);
        assert(23 + 30 * i + 30 <= 23 + 30 * rs.len()) by (nonlinear_arith)
            requires
                0 <= i < rs.len(),
        ;
        assert forall|j: int| 0 <= j < 30 implies #[trigger] b[(23 + 30 * i) + j] == record_bytes(rs[i])[j] by {
            assert(b[23 + 30 * i + j] == record_bytes(rs[i])[j]);
        }
        assert(record_check(rs[i]) is Ok);
        lemma_parse_encoded(b, 23 + 30 * i, rs[i]);
        assert(rs.take(k - 1).push(rs[i]) =~= rs.take(k as int));
    }
}

/// Decoding an artifact that [`encode`] or [`encode_v2`] wrote gives back
/// the records it was written from, whenever every record holds a valid
/// position.
pub proof fn lemma_decode_encode(rs: Seq<DiagnosticRecord>, v2: bool)
    requires
        rs.len() <= u32::MAX,
        forall|i: int| 0 <= i < rs.len() ==> (#[trigger] record_check(rs[i])) is Ok,
    ensures
        decode_verdict(
            encoding(
                rs,
                if v2 {
                    MAGIC_V2@
                } else {
                    MAGIC@
                },
                if v2 {
                    VERSION_V2
                } else {
                    VERSION
                },
            ),
        ) == Ok::<Seq<DiagnosticRecord>, DecodeError>(rs),
{
    let magic = if v2 {
        MAGIC_V2@
    } else {
        MAGIC@
    };
    let version = if v2 {
        VERSION_V2
    } else {
        VERSION
    };
    let h = header_bytes(magic, version, rs.len() as u32);
    let b = encoding(rs, magic, version);
    lemma_body_len(rs);
    assert(magic.len() == 8);
    assert(h.len() == 23);
    assert(b.len() == 23 + 30 * rs.len());
    assert(b.take(8) =~= magic) by {
        assert forall|j: int| 0 <= j < 8 implies b[j] == magic[j] by {
            assert(b[j] == h[j]);
        }
    }
    assert(MAGIC@[7] != MAGIC_V2@[7]);
    assert forall|j: int| 0 <= j < 4 implies #[trigger] b[8 + j] == byte_of(version as u64, j) by {
        assert(b[8 + j] == h[8 + j]);
    }
    assert forall|j: int| 0 <= j < 4 implies #[trigger] b[12 + j] == byte_of((rs.len() as u32) as u64, j) by {
        assert(b[12 + j] == h[12 + j]);
    }
    lemma_read_le_4(b, 8, version as u64);
    lemma_read_le_4(b, 12, (rs.len() as u32) as u64);
    assert(b[16] == h[16]);
    assert forall|i: int, j: int| 0 <= i < rs.len() && 0 <= j < 30 implies #[trigger] b[23 + 30 * i + j] == record_bytes(rs[i])[j] by {
        lemma_body_at(rs, i, j);
        assert(30 * i + j < 30 * rs.len()) by (nonlinear_arith)
            requires
                0 <= i < rs.len(),
                0 <= j < 30,
        ;
        assert(b[23 + (30 * i + j)] == body_bytes(rs)[30 * i + j]);
    }
    lemma_records_encoded(rs, b, rs.len());
    assert(rs.take(rs.len() as int) =~= rs);
}


/// Every record of an artifact sits at a fixed place: record `i` starts at
/// byte `23 + 30 * i`, and within it the side to move is byte 16, the disc
/// count byte 17, the split byte 22 (`0` for training), the label byte 23,
/// the proof depth byte 24 and the largest attempted depth byte 25; the
/// boards, the group and the outcome bits are read little-endian from
/// bytes 0, 8, 18 and 26.
pub proof fn lemma_encoded_layout(rs: Seq<DiagnosticRecord>, magic: Seq<u8>, version: u32, i: int)
    requires
        magic.len() == 8,
        0 <= i < rs.len(),
    ensures
        ({
            let b = encoding(rs, magic, version);
            let base = 23 + 30 * i;
            &&& b.len() == 23 + 30 * rs.len()
            &&& read_le(b, base, 8) == rs[i].black
            &&& read_le(b, base + 8, 8) == rs[i].white
            &&& b[base + 16] == rs[i].side
            &&& b[base + 17] == rs[i].ply
            &&& read_le(b, base + 18, 4) == rs[i].group as u64
            &&& b[base + 22] == (if rs[i].split == Split::Train {
                0u8
            } else {
                1u8
            })
            &&& b[base + 23] == label_code(rs[i].label)
            &&& b[base + 24] == rs[i].proof_depth
            &&& b[base + 25] == rs[i].max_depth
            &&& read_le(b, base + 26, 4) == rs[i].source_outcome_bits as u64
        }),
{
    let b = encoding(rs, magic, version);
    let h = header_bytes(magic, version, rs.len() as u32);
    let base = 23 + 30 * i;
    let r = rs[i];
    lemma_body_len(rs);
    assert(h.len() == 23);
    assert forall|j: int| 0 <= j < 30 implies #[trigger] b[base + j] == record_bytes(r)[j] by {
        lemma_body_at(rs, i, j);
        assert(30 * i + j < 30 * rs.len()) by (nonlinear_arith)
            requires
                0 <= i < rs.len(),
                0 <= j < 30,
        ;
        assert(b[23 + (30 * i + j)] == body_bytes(rs)[30 * i + j]);
    }
    let rb = record_bytes(r);
    assert(b[base + 16] == rb[16]);
    assert(b[base + 17] == rb[17]);
    assert(b[base + 22] == rb[22]);
    assert(b[base + 23] == rb[23]);
    assert(b[base + 24] == rb[24]);
    assert(b[base + 25] == rb[25]);
    assert forall|j: int| 0 <= j < 8 implies #[trigger] b[base + j] == byte_of(r.black, j) by {
        assert(b[base + j] == rb[j]);
    }
    assert forall|j: int| 0 <= j < 8 implies #[trigger] b[(base + 8) + j] == byte_of(r.white, j) by {
        assert(b[base + (8 + j)] == rb[8 + j]);
    }
    assert forall|j: int| 0 <= j < 4 implies #[trigger] b[(base + 18) + j] == byte_of(r.group as u64, j) by {
        assert(b[base + (18 + j)] == rb[18 + j]);
    }
    assert forall|j: int| 0 <= j < 4 implies #[trigger] b[(base + 26) + j] == byte_of(r.source_outcome_bits as u64, j) by {
        assert(b[base + (26 + j)] == rb[26 + j]);
    }
    lemma_read_le_8(b, base, r.black);
    lemma_read_le_8(b, base + 8, r.white);
    lemma_read_le_4(b, base + 18, r.group as u64);
    lemma_read_le_4(b, base + 26, r.source_outcome_bits as u64);
}

proof fn lemma_records_verdict_at(b: Seq<u8>, k: nat)
    ensures
        records_verdict(b, k) matches Ok(rs) ==> rs.len() == k && forall|i: int|
            0 <= i < k ==> parse_record(b, 23 + 30 * i) == Ok::<DiagnosticRecord, DecodeError>(#[trigger] rs[i]),
    decreases k,
{
    if k > 0 {
        lemma_records_verdict_at(b, (k - 1) as nat);
    }
}

/// Decoding reads every record from its fixed place: when an artifact is
/// accepted, record `i` has the side to move of byte `23 + 30 * i + 16`,
/// the disc count of byte 17 after it, the proof depth of byte 24 and the
/// largest attempted depth of byte 25, its label from byte 23, its split
/// from byte 22, and its boards, group and outcome bits read little-endian
/// from bytes 0, 8, 18 and 26.
pub proof fn lemma_decoded_layout(b: Seq<u8>)
    ensures
        decode_verdict(b) matches Ok(rs) ==> b.len() == 23 + 30 * rs.len() && forall|i: int|
            0 <= i < rs.len() ==> {
                let base = 23 + 30 * i;
                let r = #[trigger] rs[i];
                &&& r.black == read_le(b, base, 8)
                &&& r.white == read_le(b, base + 8, 8)
                &&& r.side == b[base + 16]
                &&& r.ply == b[base + 17]
                &&& r.group as u64 == read_le(b, base + 18, 4) as u32 as u64
                &&& r.split == (if b[base + 22] == 0 {
                    Split::Train
                } else {
                    Split::Validation
                })
                &&& b[base + 22] <= 1
                &&& r.label == label_of(b[base + 23])
                &&& r.proof_depth == b[base + 24]
                &&& r.max_depth == b[base + 25]
                &&& r.source_outcome_bits == read_le(b, base + 26, 4) as u32
            },
{
    if b.len() >= 23 {
        let count = read_le(b, 12, 4);
        lemma_records_verdict_at(b, count as nat);
    }
}

} // verus!
