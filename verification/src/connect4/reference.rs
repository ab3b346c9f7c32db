//! The rules of the reference-diagnostic records: which search depths a
//! position is resolved at, how a search score becomes a label, how a game
//! group is assigned to the train or validation split, how a board is
//! mirrored and canonicalised, and which boards a record may hold.

use vstd::prelude::*;
use crate::bits::{bit, count_ones, lemma_bit_ops, lemma_bit_set, lemma_mask_test, ones};
use crate::connect4::Player;
use crate::connect4::windows::{line_cell, line_fits, window_cell, window_line, window_of, lemma_window_fits, lemma_windows_complete};

verus! {

/// Increasing bounded-depth schedule for positions too deep to search to
/// the end.
pub const BOUNDED_DEPTH_SCHEDULE: [u32; 5] = [6, 8, 10, 12, 14];

/// Opening-band positions cap their bounded search at this depth.
pub const OPENING_BAND_DEPTH_CAP: u32 = 12;

/// At or below this many remaining plies a position is searched to the end.
pub const EXACT_SEARCH_REMAINING_CAP: u32 = 12;

/// The band of a disc count: opening (`0`) up to 14 discs, middle (`1`)
/// up to 22, late (`2`) beyond.
pub open spec fn band_of(ply: u8) -> u8 {
    if ply <= 14 {
        0
    } else if ply <= 22 {
        1
    } else {
        2
    }
}

/// Map a disc count to its opening, middle or late band.
pub fn ply_band(ply: u8) -> (r: u8)
    ensures
        r == band_of(ply),
{
    if ply <= 14 {
        0
    } else if ply <= 22 {
        1
    } else {
        2
    }
}

/// Which half of the data a game group belongs to.
#[derive(Clone, Copy, Debug, PartialEq, Eq)]
pub enum Split {
    Train,
    Validation,
}

impl Split {
    /// The byte that stands for this split in a record.
    pub fn code(self) -> (r: u8)
        ensures
            r == (if self == Split::Train { 0u8 } else { 1u8 }),
    {
        match self {
            Split::Train => 0,
            Split::Validation => 1,
        }
    }

    /// The split a record byte stands for, if any.
    pub fn from_code(v: u8) -> (r: Option<Split>)
        ensures
            v == 0 ==> r == Some(Split::Train),
            v == 1 ==> r == Some(Split::Validation),
            v > 1 ==> r is None,
    {
        match v {
            0 => Some(Split::Train),
            1 => Some(Split::Validation),
            _ => None,
        }
    }
}

/// A searched reference label: exact results come from a search to the
/// end, bounded ones from a depth-limited search that proved a result.
#[derive(Clone, Copy, Debug, PartialEq, Eq)]
pub enum ReferenceLabel {
    ExactWin,
    ExactLoss,
    ExactDraw,
    BoundedWin,
    BoundedLoss,
    Unresolved,
}

/// The byte that stands for a label in a record.
pub open spec fn label_code(l: ReferenceLabel) -> u8 {
    match l {
        ReferenceLabel::ExactWin => 0,
        ReferenceLabel::ExactLoss => 1,
        ReferenceLabel::ExactDraw => 2,
        ReferenceLabel::BoundedWin => 3,
        ReferenceLabel::BoundedLoss => 4,
        ReferenceLabel::Unresolved => 5,
    }
}

/// The label a record byte stands for (codes past 5 read as unresolved).
pub open spec fn label_of(v: u8) -> ReferenceLabel {
    if v == 0 {
        ReferenceLabel::ExactWin
    } else if v == 1 {
        ReferenceLabel::ExactLoss
    } else if v == 2 {
        ReferenceLabel::ExactDraw
    } else if v == 3 {
        ReferenceLabel::BoundedWin
    } else if v == 4 {
        ReferenceLabel::BoundedLoss
    } else {
        ReferenceLabel::Unresolved
    }
}

/// The outcome a label stands for from the mover's side: `1` win, `-1`
/// loss, `0` draw, none for an unresolved search.
pub open spec fn label_outcome(l: ReferenceLabel) -> Option<i8> {
    match l {
        ReferenceLabel::ExactWin | ReferenceLabel::BoundedWin => Some(1i8),
        ReferenceLabel::ExactLoss | ReferenceLabel::BoundedLoss => Some(-1i8),
        ReferenceLabel::ExactDraw => Some(0i8),
        ReferenceLabel::Unresolved => None,
    }
}

impl ReferenceLabel {
    /// Whether the label comes from a search to the end of the game.
    pub fn exact(self) -> (r: bool)
        ensures
            r == (self == ReferenceLabel::ExactWin || self == ReferenceLabel::ExactLoss || self
                == ReferenceLabel::ExactDraw),
    {
        match self {
            ReferenceLabel::ExactWin | ReferenceLabel::ExactLoss | ReferenceLabel::ExactDraw => true,
            _ => false,
        }
    }

    /// The outcome the label proves (the sign of its value), if any.
    pub fn outcome(self) -> (r: Option<i8>)
        ensures
            r == label_outcome(self),
    {
        match self {
            ReferenceLabel::ExactWin | ReferenceLabel::BoundedWin => Some(1),
            ReferenceLabel::ExactLoss | ReferenceLabel::BoundedLoss => Some(-1),
            ReferenceLabel::ExactDraw => Some(0),
            ReferenceLabel::Unresolved => None,
        }
    }

    /// The byte that stands for this label in a record.
    pub fn code(self) -> (r: u8)
        ensures
            r == label_code(self),
    {
        match self {
            ReferenceLabel::ExactWin => 0,
            ReferenceLabel::ExactLoss => 1,
            ReferenceLabel::ExactDraw => 2,
            ReferenceLabel::BoundedWin => 3,
            ReferenceLabel::BoundedLoss => 4,
            ReferenceLabel::Unresolved => 5,
        }
    }

    /// The label a record byte stands for, if any.
    pub fn from_code(v: u8) -> (r: Option<ReferenceLabel>)
        ensures
            v <= 5 ==> r == Some(label_of(v)) && label_code(label_of(v)) == v,
            v > 5 ==> r is None,
    {
        match v {
            0 => Some(ReferenceLabel::ExactWin),
            1 => Some(ReferenceLabel::ExactLoss),
            2 => Some(ReferenceLabel::ExactDraw),
            3 => Some(ReferenceLabel::BoundedWin),
            4 => Some(ReferenceLabel::BoundedLoss),
            5 => Some(ReferenceLabel::Unresolved),
            _ => None,
        }
    }
}

/// The label of a negamax score: a positive score is a win, a negative one
/// a loss; a zero score is a draw only when the search reached the end.
pub open spec fn classify(score: i32, fully_searched: bool) -> ReferenceLabel {
    if score > 0 {
        if fully_searched { ReferenceLabel::ExactWin } else { ReferenceLabel::BoundedWin }
    } else if score < 0 {
        if fully_searched { ReferenceLabel::ExactLoss } else { ReferenceLabel::BoundedLoss }
    } else {
        if fully_searched { ReferenceLabel::ExactDraw } else { ReferenceLabel::Unresolved }
    }
}

/// Classify a negamax score without treating a depth-cutoff neutral score
/// as a draw.
pub fn classify_score(score: i32, fully_searched: bool) -> (r: ReferenceLabel)
    ensures
        r == classify(score, fully_searched),
{
    if score > 0 {
        if fully_searched {
            ReferenceLabel::ExactWin
        } else {
            ReferenceLabel::BoundedWin
        }
    } else if score < 0 {
        if fully_searched {
            ReferenceLabel::ExactLoss
        } else {
            ReferenceLabel::BoundedLoss
        }
    } else if fully_searched {
        ReferenceLabel::ExactDraw
    } else {
        ReferenceLabel::Unresolved
    }
}

/// Plies left in a game at disc count `ply`, never less than one.
pub open spec fn remaining_plies(ply: u8) -> u32 {
    if 42 - ply >= 1 {
        (42 - ply) as u32
    } else {
        1
    }
}

/// The scheduled depths from entry `i` on, for a position with `remaining`
/// plies left and a depth cap: each depth below the cap is tried bounded,
/// until one would reach the end, which is replaced by an exact search.
pub open spec fn schedule_from(i: int, remaining: u32, cap: u32) -> Seq<(u32, bool)>
    decreases 5 - i,
{
    if i < 0 || i >= 5 {
        Seq::empty()
    } else {
        let depth = BOUNDED_DEPTH_SCHEDULE[i];
        if depth > cap {
            Seq::empty()
        } else if depth >= remaining {
            seq![(remaining, true)]
        } else {
            seq![(depth, false)] + schedule_from(i + 1, remaining, cap)
        }
    }
}

/// The searches that resolve a position at disc count `ply`: one exact
/// search when few plies remain, else the bounded schedule (capped in the
/// opening band).
pub open spec fn schedule_of(ply: u8) -> Seq<(u32, bool)> {
    let remaining = remaining_plies(ply);
    if remaining <= EXACT_SEARCH_REMAINING_CAP {
        seq![(remaining, true)]
    } else {
        let cap = if band_of(ply) == 0 { OPENING_BAND_DEPTH_CAP } else { u32::MAX };
        schedule_from(0, remaining, cap)
    }
}

/// The `(depth, exact)` searches, in order, that resolve a position at disc
/// count `ply` (at most 42 discs fit the board).
pub fn resolution_schedule(ply: u8) -> (r: Vec<(u32, bool)>)
    requires
        ply <= 42,
    ensures
        r@ == schedule_of(ply),
{
    let diff: u32 = 42 - ply as u32;
    let remaining: u32 = if diff >= 1 { diff } else { 1 };
    if remaining <= EXACT_SEARCH_REMAINING_CAP {
        let mut v: Vec<(u32, bool)> = Vec::new();
        v.push((remaining, true));
        proof {
            assert(v@ =~= seq![(remaining, true)]);
        }
        return v;
    }
    let depth_cap: u32 = if ply_band(ply) == 0 {
        OPENING_BAND_DEPTH_CAP
    } else {
        u32::MAX
    };
    let schedule = BOUNDED_DEPTH_SCHEDULE;
    let mut out: Vec<(u32, bool)> = Vec::new();
    let mut i: usize = 0;
    while i < 5
        invariant
            i <= 5,
            schedule@ == BOUNDED_DEPTH_SCHEDULE@,
            remaining == remaining_plies(ply),
            remaining > EXACT_SEARCH_REMAINING_CAP,
            depth_cap == (if band_of(ply) == 0 { OPENING_BAND_DEPTH_CAP } else { u32::MAX }),
            out@ + schedule_from(i as int, remaining, depth_cap) == schedule_of(ply),
        decreases 5 - i,
    {
        let depth = schedule[i];
        if depth > depth_cap {
            proof {
                assert(out@ =~= out@ + Seq::<(u32, bool)>::empty());
            }
            return out;
        }
        if depth >= remaining {
            let ghost before = out@;
            out.push((remaining, true));
            proof {
                assert(out@ =~= before + seq![(remaining, true)]);
            }
            return out;
        }
        let ghost before = out@;
        out.push((depth, false));
        proof {
            assert(out@ + schedule_from(i + 1, remaining, depth_cap) =~= before + (seq![(depth, false)]
                + schedule_from(i + 1, remaining, depth_cap)));
        }
        i += 1;
    }
    proof {
        assert(out@ =~= out@ + schedule_from(5, remaining, depth_cap));
    }
    out
}

/// The split hash of a game group: a fixed mix of the group, a seed and a
/// constant.
pub open spec fn split_mix(group: u32, seed: u64) -> u64 {
    let x0 = (group as u64) ^ seed ^ 0x9e37_79b9_7f4a_7c15u64;
    let x1 = x0 ^ (x0 >> 30u64);
    let x2 = vstd::wrapping::u64_specs::wrapping_mul(x1, 0xbf58_476d_1ce4_e5b9u64);
    let x3 = x2 ^ (x2 >> 27u64);
    let x4 = vstd::wrapping::u64_specs::wrapping_mul(x3, 0x94d0_49bb_1331_11ebu64);
    x4 ^ (x4 >> 31u64)
}

/// Assign a game group to a split: a fifth of the hash space goes to
/// validation.
pub fn split_for_group(group: u32, seed: u64) -> (r: Split)
    ensures
        r == (if split_mix(group, seed) % 5 == 0 { Split::Validation } else { Split::Train }),
{
    let mut x: u64 = (group as u64) ^ seed ^ 0x9e37_79b9_7f4a_7c15u64;
    x = x ^ (x >> 30u64);
    x = x.wrapping_mul(0xbf58_476d_1ce4_e5b9u64);
    x = x ^ (x >> 27u64);
    x = x.wrapping_mul(0x94d0_49bb_1331_11ebu64);
    x = x ^ (x >> 31u64);
    if x % 5 == 0 {
        Split::Validation
    } else {
        Split::Train
    }
}


/// The mirror image of cell `i` under the left-right flip `col -> 6 - col`.
pub open spec fn mirror_cell(i: int) -> int {
    (i / 7) * 7 + 6 - i % 7
}

/// `m` holds exactly `bits`'s board cells mirrored left-right, and
/// nothing past the 42 cells.
pub open spec fn mirrors(bits: u64, m: u64) -> bool {
    forall|j: u64| #![trigger bit(m, j)] j < 64 ==> bit(m, j) == (j < 42 && bit(bits, mirror_cell(j as int) as u64))
}

/// The mirror image of the first `n` cells of a board word: each set cell
/// `i < n` sets cell `mirror_cell(i)`.
pub open spec fn mirror_acc(bits: u64, n: int) -> u64
    decreases n,
{
    if n <= 0 {
        0
    } else {
        let prev = mirror_acc(bits, n - 1);
        if bit(bits, (n - 1) as u64) {
            prev | (1u64 << (mirror_cell(n - 1) as u64))
        } else {
            prev
        }
    }
}

/// The mirror image of a board word.
pub open spec fn mirror_word(bits: u64) -> u64 {
    mirror_acc(bits, 42)
}

/// Mirroring maps the 42 cells onto themselves and undoes itself.
pub proof fn lemma_mirror_cell(i: int)
    requires
        0 <= i < 42,
    ensures
        0 <= mirror_cell(i) < 42,
        mirror_cell(i) / 7 == i / 7,
        mirror_cell(mirror_cell(i)) == i,
{
    let r = i / 7;
    let c = i % 7;
    assert(0 <= r < 6 && 0 <= c < 7);
    let m = r * 7 + 6 - c;
    assert(m / 7 == r && m % 7 == 6 - c);
}

/// Which bits the partial mirror image holds.
pub proof fn lemma_mirror_acc(bits: u64, n: int)
    requires
        0 <= n <= 42,
    ensures
        forall|j: u64| #![trigger bit(mirror_acc(bits, n), j)] j < 64 ==> bit(mirror_acc(bits, n), j) == (j
            < 42 && mirror_cell(j as int) < n && bit(bits, mirror_cell(j as int) as u64)),
    decreases n,
{
    if n == 0 {
        assert forall|j: u64| #![trigger bit(mirror_acc(bits, n), j)] j < 64 implies !bit(mirror_acc(bits, n), j) by {
            lemma_bit_ops(0u64, 0u64, j);
            if j < 42 {
                lemma_mirror_cell(j as int);
            }
        }
    } else {
        lemma_mirror_acc(bits, n - 1);
        let prev = mirror_acc(bits, n - 1);
        let t = mirror_cell(n - 1);
        lemma_mirror_cell(n - 1);
        assert forall|j: u64| #![trigger bit(mirror_acc(bits, n), j)] j < 64 implies bit(mirror_acc(bits, n), j) == (j
            < 42 && mirror_cell(j as int) < n && bit(bits, mirror_cell(j as int) as u64)) by {
            if j < 42 {
                lemma_mirror_cell(j as int);
            }
            if bit(bits, (n - 1) as u64) {
                lemma_bit_set(prev, t as u64, j);
            }
        }
    }
}

/// The mirror image holds exactly the mirrored cells.
pub proof fn lemma_mirror_word(bits: u64)
    ensures
        mirrors(bits, mirror_word(bits)),
{
    lemma_mirror_acc(bits, 42);
    assert forall|j: u64| #![trigger bit(mirror_word(bits), j)] j < 64 implies bit(mirror_word(bits), j) == (j < 42
        && bit(bits, mirror_cell(j as int) as u64)) by {
        if j < 42 {
            lemma_mirror_cell(j as int);
        }
    }
}

/// Mirror a board's bits left-right; bits past the 42 cells are dropped.
pub fn mirror_bits(bits: u64) -> (r: u64)
    ensures
        mirrors(bits, r),
        r == mirror_word(bits),
{
    let mut out: u64 = 0;
    let mut row: u64 = 0;
    proof {
        assert forall|j: u64| #![trigger bit(out, j)] j < 64 implies !bit(out, j) by {
            lemma_bit_ops(out, out, j);
        }
    }
    while row < 6
        invariant
            row <= 6,
            forall|j: u64| #![trigger bit(out, j)] j < 64 ==> bit(out, j) == (j < 42 && j / 7 < row
                && bit(bits, mirror_cell(j as int) as u64)),
        decreases 6 - row,
    {
        let mut col: u64 = 0;
        while col < 7
            invariant
                row < 6,
                col <= 7,
                forall|j: u64| #![trigger bit(out, j)] j < 64 ==> bit(out, j) == (j < 42 && (j / 7 < row
                    || (j / 7 == row && 6 - j % 7 < col)) && bit(bits, mirror_cell(j as int) as u64)),
            decreases 7 - col,
        {
            let i: u64 = row * 7 + col;
            let t: u64 = row * 7 + 6 - col;
            proof {
                lemma_mask_test(bits, i);
                assert(t / 7 == row && t % 7 == 6 - col);
                assert(mirror_cell(t as int) == i);
            }
            if bits & (1u64 << i) != 0 {
                let ghost old_out = out;
                out = out | (1u64 << t);
                proof {
                    assert forall|j: u64| #![trigger bit(out, j)] j < 64 implies bit(out, j) == (j < 42
                        && (j / 7 < row || (j / 7 == row && 6 - j % 7 < col + 1)) && bit(
                        bits,
                        mirror_cell(j as int) as u64,
                    )) by {
                        lemma_bit_set(old_out, t, j);
                    }
                }
            } else {
                proof {
                    assert forall|j: u64| #![trigger bit(out, j)] j < 64 implies bit(out, j) == (j < 42
                        && (j / 7 < row || (j / 7 == row && 6 - j % 7 < col + 1)) && bit(
                        bits,
                        mirror_cell(j as int) as u64,
                    )) by {
                        if j / 7 == row && 6 - j % 7 == col {
                            assert(j == t);
                        }
                    }
                }
            }
            col += 1;
        }
        row += 1;
    }
    proof {
        lemma_mirror_unique(bits, out);
    }
    out
}

/// A word with no bit past the 42 cells has none of those bits set.
pub proof fn lemma_high_clear(b: u64, j: u64)
    by (bit_vector)
    requires
        b >> 42u64 == 0u64,
        42 <= j < 64,
    ensures
        !bit(b, j),
{
}

/// Mirroring a board twice gives back its 42 cells (and drops any bit
/// past them).
pub proof fn lemma_mirror_twice(bits: u64)
    ensures
        forall|j: u64| #![trigger bit(mirror_word(mirror_word(bits)), j)] j < 64 ==> bit(
            mirror_word(mirror_word(bits)),
            j,
        ) == (j < 42 && bit(bits, j)),
        bits >> 42u64 == 0u64 ==> mirror_word(mirror_word(bits)) == bits,
{
    let m = mirror_word(bits);
    let mm = mirror_word(m);
    lemma_mirror_word(bits);
    lemma_mirror_word(m);
    assert forall|j: u64| #![trigger bit(mm, j)] j < 64 implies bit(mm, j) == (j < 42 && bit(bits, j)) by {
        if j < 42 {
            lemma_mirror_cell(j as int);
            let t = mirror_cell(j as int) as u64;
            assert(bit(m, t) == bit(bits, mirror_cell(t as int) as u64));
        }
    }
    if bits >> 42u64 == 0u64 {
        assert forall|j: u64| j < 64 implies #[trigger] bit(mm, j) == bit(bits, j) by {
            if j >= 42 {
                lemma_high_clear(bits, j);
            }
        }
        crate::bits::lemma_bits_ext(mm, bits);
    }
}

/// Lexicographic order on `(black, white, side)` keys.
pub open spec fn key_le(a: (u64, u64, u8), b: (u64, u64, u8)) -> bool {
    a.0 < b.0 || (a.0 == b.0 && (a.1 < b.1 || (a.1 == b.1 && a.2 <= b.2)))
}

/// The canonical key of a position: the lexicographically smaller of its
/// key and its mirror image's.
pub open spec fn canonical(black: u64, white: u64, side: u8) -> (u64, u64, u8) {
    let orig = (black, white, side);
    let mirrored = (mirror_word(black), mirror_word(white), side);
    if key_le(orig, mirrored) {
        orig
    } else {
        mirrored
    }
}

/// A position and its mirror image have the same canonical key (for
/// boards within the 42 cells).
pub proof fn lemma_canonical_key_mirror_invariant(black: u64, white: u64, side: u8)
    requires
        black >> 42u64 == 0u64,
        white >> 42u64 == 0u64,
    ensures
        canonical(black, white, side) == canonical(mirror_word(black), mirror_word(white), side),
{
    lemma_mirror_twice(black);
    lemma_mirror_twice(white);
}

/// The smaller (lexicographically) of a position's key and its mirror's.
pub fn canonical_key(black: u64, white: u64, side: u8) -> (r: (u64, u64, u8))
    ensures
        r == canonical(black, white, side),
{
    let mb = mirror_bits(black);
    let mw = mirror_bits(white);
    if black < mb || (black == mb && (white < mw || (white == mw && side <= side))) {
        (black, white, side)
    } else {
        (mb, mw, side)
    }
}

/// The mirrored word is the only word with the mirrored bits.
pub proof fn lemma_mirror_unique(bits: u64, m: u64)
    requires
        mirrors(bits, m),
    ensures
        mirror_word(bits) == m,
{
    let c = mirror_word(bits);
    lemma_mirror_word(bits);
    assert forall|j: u64| j < 64 implies #[trigger] bit(c, j) == bit(m, j) by {}
    crate::bits::lemma_bits_ext(c, m);
}


/// Whether the line starting at `(row, col)` in direction `d` fits the
/// board with all four of its cells set in `bits`.
pub open spec fn four_at(bits: u64, row: int, col: int, d: int) -> bool {
    line_fits(row, col, d) && forall|k: int| 0 <= k < 4 ==> #[trigger] bit(bits, line_cell(row, col, d, k) as u64)
}

/// Whether `bits` holds four in a row in any direction.
pub open spec fn has_four_spec(bits: u64) -> bool {
    exists|row: int, col: int, d: int| #[trigger] four_at(bits, row, col, d)
}

/// Whether the line at `(row, col)` in direction `d` is four of `bits`.
fn four_at_exec(bits: u64, row: u64, col: u64, d: u64) -> (r: bool)
    requires
        row < 6,
        col < 7,
        d < 4,
    ensures
        r == four_at(bits, row as int, col as int, d as int),
{
    let fits = if d == 0 {
        row + 3 < 6
    } else if d == 1 {
        col + 3 < 7
    } else if d == 2 {
        row + 3 < 6 && col + 3 < 7
    } else {
        row + 3 < 6 && col >= 3
    };
    if !fits {
        return false;
    }
    let mut k: u64 = 0;
    while k < 4
        invariant
            k <= 4,
            line_fits(row as int, col as int, d as int),
            forall|j: int| 0 <= j < k ==> #[trigger] bit(bits, line_cell(row as int, col as int, d as int, j) as u64),
        decreases 4 - k,
    {
        let cell: u64 = if d == 0 {
            (row + k) * 7 + col
        } else if d == 1 {
            row * 7 + col + k
        } else if d == 2 {
            (row + k) * 7 + col + k
        } else {
            (row + k) * 7 + col - k
        };
        assert(cell == line_cell(row as int, col as int, d as int, k as int));
        proof {
            lemma_mask_test(bits, cell);
        }
        if bits & (1u64 << cell) == 0 {
            return false;
        }
        k += 1;
    }
    true
}

/// Whether `bits` holds four in a row in any direction.
fn has_four(bits: u64) -> (r: bool)
    ensures
        r == has_four_spec(bits),
{
    let mut row: u64 = 0;
    while row < 6
        invariant
            row <= 6,
            forall|r0: int, c0: int, d0: int| 0 <= r0 < row ==> !#[trigger] four_at(bits, r0, c0, d0),
        decreases 6 - row,
    {
        let mut col: u64 = 0;
        while col < 7
            invariant
                row < 6,
                col <= 7,
                forall|r0: int, c0: int, d0: int|
                    (0 <= r0 < row || (r0 == row && 0 <= c0 < col)) ==> !#[trigger] four_at(bits, r0, c0, d0),
            decreases 7 - col,
        {
            let mut d: u64 = 0;
            while d < 4
                invariant
                    row < 6,
                    col < 7,
                    d <= 4,
                    forall|r0: int, c0: int, d0: int|
                        (0 <= r0 < row || (r0 == row && 0 <= c0 < col) || (r0 == row && c0 == col && 0 <= d0
                            < d)) ==> !#[trigger] four_at(bits, r0, c0, d0),
                decreases 4 - d,
            {
                if four_at_exec(bits, row, col, d) {
                    return true;
                }
                d += 1;
            }
            col += 1;
        }
        row += 1;
    }
    false
}


/// Whether all four cells of window `n` are set in `bits`.
pub open spec fn window_full(bits: u64, n: int) -> bool {
    forall|k: int| 0 <= k < 4 ==> #[trigger] bit(bits, window_cell(n, k) as u64)
}

/// Four in a row is exactly a window with all four cells set.
pub proof fn lemma_has_four_iff_window(bits: u64)
    ensures
        has_four_spec(bits) <==> exists|n: int| 0 <= n < 69 && #[trigger] window_full(bits, n),
{
    if has_four_spec(bits) {
        let (row, col, d) = choose|row: int, col: int, d: int| #[trigger] four_at(bits, row, col, d);
        lemma_windows_complete(row, col, d);
        let n = window_of(row, col, d);
        assert forall|k: int| 0 <= k < 4 implies #[trigger] bit(bits, window_cell(n, k) as u64) by {
            assert(bit(bits, line_cell(row, col, d, k) as u64));
        }
        assert(window_full(bits, n));
    }
    if exists|n: int| 0 <= n < 69 && #[trigger] window_full(bits, n) {
        let n = choose|n: int| 0 <= n < 69 && #[trigger] window_full(bits, n);
        lemma_window_fits(n);
        let (row, col, d) = window_line(n);
        assert forall|k: int| 0 <= k < 4 implies #[trigger] bit(bits, line_cell(row, col, d, k) as u64) by {
            assert(bit(bits, window_cell(n, k) as u64));
        }
        assert(four_at(bits, row, col, d));
    }
}

/// Why a record's position was refused.
#[derive(Clone, Copy, Debug, PartialEq, Eq)]
pub enum RecordError {
    /// A bit past the 42 cells is set.
    OutsideBoard,
    /// A cell holds both colors.
    Overlap,
    /// The disc count is not the record's ply.
    PlyMismatch,
    /// The side byte, or the source outcome, is not a valid value.
    InvalidScalar,
    /// Black does not have as many discs as White or one more.
    ColorCounts,
    /// The side to move does not follow from the disc counts.
    SideMismatch,
    /// Some disc has an empty cell below it.
    Gravity,
    /// The board is full or already holds four in a row.
    Terminal,
}

/// A short description of a record refusal.
pub open spec fn record_error_text(e: RecordError) -> Seq<char> {
    match e {
        RecordError::OutsideBoard => "board has bits outside 6x7"@,
        RecordError::Overlap => "board colors overlap"@,
        RecordError::PlyMismatch => "ply does not match board count"@,
        RecordError::InvalidScalar => "invalid scalar field"@,
        RecordError::ColorCounts => "illegal color counts"@,
        RecordError::SideMismatch => "side does not match color counts"@,
        RecordError::Gravity => "gravity-invalid board"@,
        RecordError::Terminal => "diagnostic records must contain non-terminal positions"@,
    }
}

impl RecordError {
    /// A short description of the refusal.
    pub fn message(self) -> (r: &'static str)
        ensures
            r@ == record_error_text(self),
    {
        match self {
            RecordError::OutsideBoard => "board has bits outside 6x7",
            RecordError::Overlap => "board colors overlap",
            RecordError::PlyMismatch => "ply does not match board count",
            RecordError::InvalidScalar => "invalid scalar field",
            RecordError::ColorCounts => "illegal color counts",
            RecordError::SideMismatch => "side does not match color counts",
            RecordError::Gravity => "gravity-invalid board",
            RecordError::Terminal => "diagnostic records must contain non-terminal positions",
        }
    }
}

/// Whether every disc of `occ` sits on a disc or on the bottom row.
pub open spec fn gravity_ok(occ: u64) -> bool {
    forall|col: int, r1: int, r2: int|
        0 <= col < 7 && 0 <= r1 < r2 < 6 && #[trigger] bit(occ, (r2 * 7 + col) as u64) ==> #[trigger] bit(
            occ,
            (r1 * 7 + col) as u64,
        )
}

/// The verdict on a record's board, in the order the checks are made:
/// the side to move when the board is a legal, non-terminal position.
pub open spec fn record_verdict(black: u64, white: u64, side: u8, ply: u8, outcome_ok: bool) -> Result<
    Player,
    RecordError,
> {
    let occ = black | white;
    let nb = ones(black);
    let nw = ones(white);
    if occ >> 42u64 != 0 {
        Err(RecordError::OutsideBoard)
    } else if black & white != 0 {
        Err(RecordError::Overlap)
    } else if ones(occ) != ply {
        Err(RecordError::PlyMismatch)
    } else if side > 1 || !outcome_ok {
        Err(RecordError::InvalidScalar)
    } else if nb != nw && nb != nw + 1 {
        Err(RecordError::ColorCounts)
    } else if side != (if nb == nw { 0u8 } else { 1u8 }) {
        Err(RecordError::SideMismatch)
    } else if !gravity_ok(occ) {
        Err(RecordError::Gravity)
    } else if ones(occ) == 42 || has_four_spec(black) || has_four_spec(white) {
        Err(RecordError::Terminal)
    } else {
        Ok(if side == 0 { Player::Black } else { Player::White })
    }
}

/// Whether every disc of column `col` sits on a disc or on the bottom row.
fn column_settled(occ: u64, col: u64) -> (r: bool)
    requires
        col < 7,
    ensures
        r == forall|r1: int, r2: int|
            0 <= r1 < r2 < 6 && #[trigger] bit(occ, (r2 * 7 + col) as u64) ==> #[trigger] bit(
                occ,
                (r1 * 7 + col) as u64,
            ),
{
    let mut gap = false;
    let mut row: u64 = 0;
    while row < 6
        invariant
            col < 7,
            row <= 6,
            gap == exists|r1: int| 0 <= r1 < row && !#[trigger] bit(occ, (r1 * 7 + col) as u64),
            forall|r1: int, r2: int|
                0 <= r1 < r2 < row && #[trigger] bit(occ, (r2 * 7 + col) as u64) ==> #[trigger] bit(
                    occ,
                    (r1 * 7 + col) as u64,
                ),
        decreases 6 - row,
    {
        let cell: u64 = row * 7 + col;
        proof {
            lemma_mask_test(occ, cell);
        }
        let occupied = occ & (1u64 << cell) != 0;
        if !occupied {
            gap = true;
        } else if gap {
            return false;
        }
        row += 1;
    }
    true
}

/// Whether every disc of `occ` sits on a disc or on the bottom row.
fn board_settled(occ: u64) -> (r: bool)
    ensures
        r == gravity_ok(occ),
{
    let mut col: u64 = 0;
    while col < 7
        invariant
            col <= 7,
            forall|c: int, r1: int, r2: int|
                0 <= c < col && 0 <= r1 < r2 < 6 && #[trigger] bit(occ, (r2 * 7 + c) as u64) ==> #[trigger] bit(
                    occ,
                    (r1 * 7 + c) as u64,
                ),
        decreases 7 - col,
    {
        if !column_settled(occ, col) {
            proof {
                let (r1, r2) = choose|r1: int, r2: int|
                    !(0 <= r1 < r2 < 6 && #[trigger] bit(occ, (r2 * 7 + col) as u64) ==> #[trigger] bit(
                        occ,
                        (r1 * 7 + col) as u64,
                    ));
                assert(bit(occ, (r2 * 7 + col) as u64) && !bit(occ, (r1 * 7 + col) as u64));
                assert(!gravity_ok(occ));
            }
            return false;
        }
        col += 1;
    }
    true
}

/// Check a record's board: every cell within 6x7, the colors disjoint, the
/// disc count equal to `ply`, `side` a valid byte and the source outcome
/// valid (`outcome_ok`), the color counts and side to move consistent, no
/// floating disc, and no finished game. Returns the side to move.
pub fn validate_record(black: u64, white: u64, side: u8, ply: u8, outcome_ok: bool) -> (r: Result<
    Player,
    RecordError,
>)
    ensures
        r == record_verdict(black, white, side, ply, outcome_ok),
{
    let occ = black | white;
    if occ >> 42u64 != 0 {
        return Err(RecordError::OutsideBoard);
    }
    if black & white != 0 {
        return Err(RecordError::Overlap);
    }
    let count = count_ones(occ);
    if count != ply as u32 {
        return Err(RecordError::PlyMismatch);
    }
    if side > 1 || !outcome_ok {
        return Err(RecordError::InvalidScalar);
    }
    let black_count = count_ones(black);
    let white_count = count_ones(white);
    if black_count != white_count && black_count != white_count + 1 {
        return Err(RecordError::ColorCounts);
    }
    let expected_side: u8 = if black_count == white_count { 0 } else { 1 };
    if side != expected_side {
        return Err(RecordError::SideMismatch);
    }
    if !board_settled(occ) {
        return Err(RecordError::Gravity);
    }
    if count == 42 || has_four(black) || has_four(white) {
        return Err(RecordError::Terminal);
    }
    Ok(if side == 0 { Player::Black } else { Player::White })
}

/// Why no optimal move set was given for a position.
#[derive(Clone, Copy, Debug, PartialEq, Eq)]
pub enum OracleSkip {
    /// No legal child could be resolved even at the capped depth.
    NoChildResolved,
    /// Some child stayed unresolved and no resolved child forces a win, so an
    /// unresolved child could secretly beat the best resolved outcome.
    AmbiguousUnresolvedChild,
}

/// The best resolved outcome class among `children` (column, class from
/// the mover's side; `None` for a child no search resolved).
pub open spec fn best_class(children: Seq<(u8, Option<i32>)>) -> Option<i32>
    decreases children.len(),
{
    if children.len() == 0 {
        None
    } else {
        let prev = best_class(children.drop_last());
        match children.last().1 {
            None => prev,
            Some(c) => match prev {
                None => Some(c),
                Some(p) => Some(if c > p { c } else { p }),
            },
        }
    }
}

/// The columns, in order, of the children whose class is `class`.
pub open spec fn columns_with(children: Seq<(u8, Option<i32>)>, class: i32) -> Seq<u8>
    decreases children.len(),
{
    if children.len() == 0 {
        Seq::empty()
    } else {
        let prev = columns_with(children.drop_last(), class);
        if children.last().1 == Some(class) {
            prev.push(children.last().0)
        } else {
            prev
        }
    }
}

/// Whether some child stayed unresolved.
pub open spec fn any_unresolved(children: Seq<(u8, Option<i32>)>) -> bool {
    exists|i: int| 0 <= i < children.len() && (#[trigger] children[i]).1 is None
}

/// The optimal move set of a position from its children's classes: every
/// column reaching the best class, unless nothing resolved or an
/// unresolved child could beat a best class short of a win.
pub open spec fn optimal_verdict(children: Seq<(u8, Option<i32>)>) -> Result<Seq<u8>, OracleSkip> {
    match best_class(children) {
        None => Err(OracleSkip::NoChildResolved),
        Some(best) => if any_unresolved(children) && best < 1 {
            Err(OracleSkip::AmbiguousUnresolvedChild)
        } else {
            Ok(columns_with(children, best))
        },
    }
}

/// The columns whose child keeps the best proven outcome class for the
/// mover, given each legal child's column and class (`1` win, `0` draw,
/// `-1` loss, from the mover's side; `None` when unresolved), in move
/// order.
pub fn select_optimal_moves(children: &Vec<(u8, Option<i32>)>) -> (r: Result<Vec<u8>, OracleSkip>)
    ensures
        match optimal_verdict(children@) {
            Ok(cols) => r matches Ok(v) && v@ == cols,
            Err(e) => r == Err::<Vec<u8>, OracleSkip>(e),
        },
{
    let mut best: Option<i32> = None;
    let mut unresolved = false;
    let mut i: usize = 0;
    while i < children.len()
        invariant
            i <= children.len(),
            best == best_class(children@.take(i as int)),
            unresolved == any_unresolved(children@.take(i as int)),
        decreases children.len() - i,
    {
        let (_, class) = children[i];
        proof {
            assert(children@.take(i + 1).drop_last() =~= children@.take(i as int));
            assert(children@.take(i + 1).last() == children@[i as int]);
        }
        match class {
            None => {
                unresolved = true;
                proof {
                    assert(children@.take(i + 1)[i as int] == children@[i as int]);
                }
            },
            Some(c) => {
                best = match best {
                    None => Some(c),
                    Some(p) => Some(if c > p { c } else { p }),
                };
            },
        }
        proof {
            if any_unresolved(children@.take(i + 1)) && !unresolved {
                let j = choose|j: int| 0 <= j < i + 1 && (#[trigger] children@.take(i + 1)[j]).1 is None;
                assert(children@.take(i as int)[j] == children@.take(i + 1)[j]);
            }
            if unresolved && !any_unresolved(children@.take(i as int)) {
                assert(children@.take(i + 1)[i as int].1 is None);
            }
            if unresolved && any_unresolved(children@.take(i as int)) {
                let j = choose|j: int| 0 <= j < i && (#[trigger] children@.take(i as int)[j]).1 is None;
                assert(children@.take(i + 1)[j] == children@.take(i as int)[j]);
            }
        }
        i += 1;
    }
    proof {
        assert(children@.take(children.len() as int) =~= children@);
    }
    let b = match best {
        None => {
            return Err(OracleSkip::NoChildResolved);
        },
        Some(b) => b,
    };
    if unresolved && b < 1 {
        return Err(OracleSkip::AmbiguousUnresolvedChild);
    }
    let mut out: Vec<u8> = Vec::new();
    let mut j: usize = 0;
    while j < children.len()
        invariant
            j <= children.len(),
            out@ == columns_with(children@.take(j as int), b),
        decreases children.len() - j,
    {
        let (col, class) = children[j];
        proof {
            assert(children@.take(j + 1).drop_last() =~= children@.take(j as int));
            assert(children@.take(j + 1).last() == children@[j as int]);
        }
        match class {
            Some(c) => {
                if c == b {
                    out.push(col);
                }
            },
            None => {},
        }
        j += 1;
    }
    proof {
        assert(children@.take(children.len() as int) =~= children@);
    }
    Ok(out)
}

} // verus!

verus! {

/// The outcome class a label proves for the side to move: `1` a win, `-1`
/// a loss, `0` a draw, none for an unresolved search.
pub open spec fn class_of(l: ReferenceLabel) -> Option<i32> {
    match l {
        ReferenceLabel::ExactWin | ReferenceLabel::BoundedWin => Some(1i32),
        ReferenceLabel::ExactLoss | ReferenceLabel::BoundedLoss => Some(-1i32),
        ReferenceLabel::ExactDraw => Some(0i32),
        ReferenceLabel::Unresolved => None,
    }
}

/// The label, first proof depth and largest attempted depth from schedule
/// entry `i` on, `max` being the largest depth attempted so far: an exact
/// search gives its label at once; a bounded one is accepted only when it
/// proves a result; past the last entry the position stays unresolved.
pub open spec fn label_walk(sched: Seq<(u32, bool)>, scores: Seq<i32>, i: int, max: u8) -> (ReferenceLabel, u8, u8)
    decreases sched.len() - i,
{
    if i < 0 || i >= sched.len() {
        (ReferenceLabel::Unresolved, 0u8, max)
    } else {
        let depth = sched[i].0;
        let exact = sched[i].1;
        let label = classify(scores[i], exact);
        if exact || label != ReferenceLabel::Unresolved {
            (label, depth as u8, depth as u8)
        } else {
            label_walk(sched, scores, i + 1, depth as u8)
        }
    }
}

/// The first outcome class that schedule entry `i` or a later one proves.
pub open spec fn class_walk(sched: Seq<(u32, bool)>, scores: Seq<i32>, i: int) -> Option<i32>
    decreases sched.len() - i,
{
    if i < 0 || i >= sched.len() {
        None
    } else {
        match class_of(classify(scores[i], sched[i].1)) {
            Some(c) => Some(c),
            None => class_walk(sched, scores, i + 1),
        }
    }
}

/// The reference label of a position at disc count `ply`, with its first
/// proof depth and largest attempted depth, given the search score at each
/// entry of its [`resolution_schedule`] in order.
pub fn searched_reference_label_from(ply: u8, scores: &Vec<i32>) -> (r: (ReferenceLabel, u8, u8))
    requires
        ply <= 42,
        scores@.len() == schedule_of(ply).len(),
    ensures
        r == label_walk(schedule_of(ply), scores@, 0, 0),
{
    let sched = resolution_schedule(ply);
    let mut max: u8 = 0;
    let mut i: usize = 0;
    while i < sched.len()
        invariant
            sched@ == schedule_of(ply),
            scores@.len() == sched@.len(),
            i <= sched@.len(),
            label_walk(sched@, scores@, 0, 0) == label_walk(sched@, scores@, i as int, max),
        decreases sched@.len() - i,
    {
        let (depth, exact) = sched[i];
        let label = classify_score(scores[i], exact);
        if exact {
            return (label, depth as u8, depth as u8);
        }
        max = depth as u8;
        match label {
            ReferenceLabel::Unresolved => {},
            _ => {
                return (label, depth as u8, max);
            },
        }
        i += 1;
    }
    (ReferenceLabel::Unresolved, 0, max)
}

/// The outcome class the searches of a position at disc count `ply` prove
/// for its side to move, given the search score at each entry of its
/// [`resolution_schedule`] in order: the first entry that resolves decides,
/// and none resolves gives none.
pub fn proven_outcome_class_from(ply: u8, scores: &Vec<i32>) -> (r: Option<i32>)
    requires
        ply <= 42,
        scores@.len() == schedule_of(ply).len(),
    ensures
        r == class_walk(schedule_of(ply), scores@, 0),
{
    let sched = resolution_schedule(ply);
    let mut i: usize = 0;
    while i < sched.len()
        invariant
            sched@ == schedule_of(ply),
            scores@.len() == sched@.len(),
            i <= sched@.len(),
            class_walk(sched@, scores@, 0) == class_walk(sched@, scores@, i as int),
        decreases sched@.len() - i,
    {
        let (_, exact) = sched[i];
        match classify_score(scores[i], exact) {
            ReferenceLabel::ExactWin | ReferenceLabel::BoundedWin => return Some(1),
            ReferenceLabel::ExactLoss | ReferenceLabel::BoundedLoss => return Some(-1),
            ReferenceLabel::ExactDraw => return Some(0),
            ReferenceLabel::Unresolved => {},
        }
        i += 1;
    }
    None
}

} // verus!

verus! {

/// The bounded depths rise: 6, 8, 10, 12, 14.
proof fn lemma_bounded_depths()
    ensures
        BOUNDED_DEPTH_SCHEDULE[0] == 6,
        BOUNDED_DEPTH_SCHEDULE[1] == 8,
        BOUNDED_DEPTH_SCHEDULE[2] == 10,
        BOUNDED_DEPTH_SCHEDULE[3] == 12,
        BOUNDED_DEPTH_SCHEDULE[4] == 14,
{
}

/// The shape of the schedule from entry `i` on: depths rise; only the last
/// entry may be exact, and an exact entry searches the remaining plies;
/// every bounded entry is a later scheduled depth below the remaining
/// plies and within the cap; bounded entries are at least entry `i`'s
/// depth; and it is not empty when entry `i`'s depth is within the cap.
proof fn lemma_schedule_from_shape(i: int, remaining: u32, cap: u32)
    requires
        0 <= i <= 5,
    ensures
        ({
            let r = schedule_from(i, remaining, cap);
            &&& forall|a: int, b: int| 0 <= a < b < r.len() ==> r[a].0 < r[b].0
            &&& forall|j: int| 0 <= j < r.len() && (#[trigger] r[j]).1 ==> j == r.len() - 1 && r[j].0 == remaining
            &&& forall|j: int|
                0 <= j < r.len() && !(#[trigger] r[j]).1 ==> (exists|k: int| i <= k < 5 && BOUNDED_DEPTH_SCHEDULE[k] == r[j].0)
                    && r[j].0 < remaining && r[j].0 <= cap
            &&& i < 5 ==> forall|j: int| 0 <= j < r.len() && !(#[trigger] r[j]).1 ==> r[j].0 >= BOUNDED_DEPTH_SCHEDULE[i]
            &&& i < 5 && BOUNDED_DEPTH_SCHEDULE[i] <= cap ==> r.len() >= 1
        }),
    decreases 5 - i,
{
    lemma_bounded_depths();
    if i < 5 {
        let depth = BOUNDED_DEPTH_SCHEDULE[i];
        if depth <= cap && depth < remaining {
            lemma_schedule_from_shape(i + 1, remaining, cap);
            let rest = schedule_from(i + 1, remaining, cap);
            let r = schedule_from(i, remaining, cap);
            assert(r == seq![(depth, false)] + rest);
            assert forall|j: int| 0 <= j < rest.len() implies rest[j].0 > depth by {
                if !rest[j].1 {
                    let k = choose|k: int| i + 1 <= k < 5 && BOUNDED_DEPTH_SCHEDULE[k] == rest[j].0;
                    assert(BOUNDED_DEPTH_SCHEDULE[k] > depth);
                }
            }
            assert forall|a: int, b: int| 0 <= a < b < r.len() implies r[a].0 < r[b].0 by {
                if a > 0 {
                    assert(r[a] == rest[a - 1] && r[b] == rest[b - 1]);
                } else {
                    assert(r[b] == rest[b - 1]);
                }
            }
            assert forall|j: int| 0 <= j < r.len() && !(#[trigger] r[j]).1 implies (exists|k: int|
                i <= k < 5 && BOUNDED_DEPTH_SCHEDULE[k] == r[j].0) && r[j].0 < remaining && r[j].0 <= cap by {
                if j > 0 {
                    assert(r[j] == rest[j - 1]);
                    let k = choose|k: int| i + 1 <= k < 5 && BOUNDED_DEPTH_SCHEDULE[k] == rest[j - 1].0;
                    assert(i <= k < 5 && BOUNDED_DEPTH_SCHEDULE[k] == r[j].0);
                } else {
                    assert(i <= i < 5 && BOUNDED_DEPTH_SCHEDULE[i] == r[j].0);
                }
            }
            assert forall|j: int| 0 <= j < r.len() && (#[trigger] r[j]).1 implies j == r.len() - 1 && r[j].0 == remaining by {
                assert(j > 0);
                assert(r[j] == rest[j - 1]);
            }
            assert forall|j: int| 0 <= j < r.len() && !(#[trigger] r[j]).1 implies r[j].0 >= BOUNDED_DEPTH_SCHEDULE[i] by {
                if j > 0 {
                    assert(r[j] == rest[j - 1]);
                }
            }
        }
    }
}

/// The resolution schedule of a position: never empty; depths strictly
/// rise; only the last search may be exact, and an exact search goes to
/// the end (the remaining plies, at least one); with at most 12 plies left
/// it is that one exact search; every bounded search is one of the
/// scheduled depths, short of the end, and at most 12 in the opening band.
pub proof fn lemma_resolution_schedule_shape(ply: u8)
    requires
        ply <= 42,
    ensures
        ({
            let r = schedule_of(ply);
            let rem = remaining_plies(ply);
            &&& r.len() >= 1
            &&& forall|a: int, b: int| 0 <= a < b < r.len() ==> r[a].0 < r[b].0
            &&& forall|j: int| 0 <= j < r.len() && (#[trigger] r[j]).1 ==> j == r.len() - 1 && r[j].0 == rem
            &&& rem <= 12 ==> r == seq![(rem, true)]
            &&& forall|j: int|
                0 <= j < r.len() && !(#[trigger] r[j]).1 ==> (exists|k: int| 0 <= k < 5 && BOUNDED_DEPTH_SCHEDULE[k] == r[j].0)
                    && r[j].0 < rem && (ply <= 14 ==> r[j].0 <= 12)
        }),
{
    lemma_bounded_depths();
    let rem = remaining_plies(ply);
    if rem > 12 {
        let cap = if band_of(ply) == 0 { OPENING_BAND_DEPTH_CAP } else { u32::MAX };
        lemma_schedule_from_shape(0, rem, cap);
        assert(ply <= 14 ==> band_of(ply) == 0);
    }
}

} // verus!
