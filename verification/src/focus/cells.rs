//! Focus board geometry and packed stack words.
//!
//! The board is 8x8 with the 3 squares in each corner notched off (52
//! playable cells). A cell holds one `u16` word: two bits per piece (the
//! player id), bottom of the stack in the lowest pair, and a sentinel bit at
//! `2 * height` marking the top, so the height is recoverable from the
//! word's leading zeros.

use vstd::prelude::*;
use vstd::std_specs::bits::{axiom_u16_leading_zeros, u16_leading_zeros};

verus! {

/// Maximum stack height (a merge exceeding this immediately overflows).
pub const MAX_HEIGHT: u32 = 5;

// ── Board shape ─────────────────────────────────────────────────────────

/// Valid column range `[lo, hi]` of a board row.
pub open spec fn row_range_spec(row: int) -> (int, int) {
    if row == 0 || row == 7 {
        (2, 5)
    } else if row == 1 || row == 6 {
        (1, 6)
    } else {
        (0, 7)
    }
}

/// Whether `row * 8 + col` index `idx` is one of the playable cells.
pub open spec fn valid_cell(idx: int) -> bool {
    let (lo, hi) = row_range_spec(idx / 8);
    lo <= idx % 8 <= hi
}

/// Valid column range `[lo, hi]` for a board row, 0-indexed.
pub fn row_range(row: usize) -> (r: (usize, usize))
    ensures
        r.0 == row_range_spec(row as int).0,
        r.1 == row_range_spec(row as int).1,
{
    if row == 0 || row == 7 {
        (2, 5)
    } else if row == 1 || row == 6 {
        (1, 6)
    } else {
        (0, 7)
    }
}

pub fn is_valid_cell(idx: usize) -> (r: bool)
    ensures
        r == valid_cell(idx as int),
{
    let row = idx / 8;
    let col = idx % 8;
    let (lo, hi) = row_range(row);
    col >= lo && col <= hi
}

/// Which of the 64 `row * 8 + col` indices are playable.
pub fn build_valid() -> (v: [bool; 64])
    ensures
        forall|i: int| 0 <= i < 64 ==> #[trigger] v@[i] == valid_cell(i),
{
    let mut v = [false; 64];
    let mut i: usize = 0;
    while i < 64
        invariant
            i <= 64,
            forall|k: int| 0 <= k < i ==> #[trigger] v@[k] == valid_cell(k),
        decreases 64 - i,
    {
        v[i] = is_valid_cell(i);
        i += 1;
    }
    v
}

// ── Stack words ─────────────────────────────────────────────────────────

/// Color (player id) of the piece at height `j` of a cell word.
pub open spec fn color_field(w: u16, j: int) -> u8 {
    ((w >> (2 * j) as u16) & 3u16) as u8
}

/// Height of a nonempty cell word, read off its sentinel bit.
pub open spec fn height_of(w: u16) -> int {
    (15 - u16_leading_zeros(w)) / 2
}

/// The stack a cell word encodes, bottom to top.
pub open spec fn stack_of(w: u16) -> Seq<u8> {
    if w == 0 {
        Seq::empty()
    } else {
        Seq::new(height_of(w) as nat, |j: int| color_field(w, j))
    }
}

/// The color fields of `s` packed two bits apiece, bottom first, exactly as
/// the merge loop ORs them together.
pub open spec fn pack_colors(s: Seq<u8>) -> u16
    decreases s.len(),
{
    if s.len() == 0 {
        0
    } else {
        pack_colors(s.drop_last()) | ((s.last() as u16) << (2 * (s.len() - 1)) as u16)
    }
}

/// The cell word holding the stack `s` (sentinel above its top piece).
pub open spec fn stack_word(s: Seq<u8>) -> u16 {
    pack_colors(s) | (1u16 << (2 * s.len()) as u16)
}

/// Number of pieces of color `c` in `s`.
pub open spec fn count_color(s: Seq<u8>, c: u8) -> nat
    decreases s.len(),
{
    if s.len() == 0 {
        0
    } else {
        count_color(s.drop_last(), c) + if s.last() == c {
            1nat
        } else {
            0nat
        }
    }
}

proof fn lemma_field_or(w: u16, c: u16, sd: u16, sd2: u16, sj: u16)
    by (bit_vector)
    requires
        c <= 3,
        sd <= 14,
        sd % 2 == 0,
        sd2 == sd + 2,
        sj <= 14,
        sj % 2 == 0,
        w >> sd == 0,
    ensures
        (w | (c << sd)) >> sd2 == 0,
        sj < sd ==> ((w | (c << sd)) >> sj) & 3u16 == (w >> sj) & 3u16,
        ((w | (c << sd)) >> sd) & 3u16 == c,
{
}

proof fn lemma_sentinel(w: u16, sn: u16, sj: u16)
    by (bit_vector)
    requires
        sn <= 14,
        sn % 2 == 0,
        sj < sn,
        sj % 2 == 0,
        w >> sn == 0,
    ensures
        (w | (1u16 << sn)) >> sn == 1,
        ((w | (1u16 << sn)) >> sj) & 3u16 == (w >> sj) & 3u16,
{
}

proof fn lemma_sentinel_nonzero(w: u16, sn: u16)
    by (bit_vector)
    requires
        sn <= 14,
        w >> sn == 1,
    ensures
        w != 0,
{
}

proof fn lemma_top_bit(w: u16, sn: u16, lz: u16)
    by (bit_vector)
    requires
        sn <= 14,
        w >> sn == 1,
        lz < 16,
        (w >> ((15u16 - lz) as u16)) & 1u16 != 0,
        w >> ((16u16 - lz) as u16) == 0,
    ensures
        lz + sn == 15,
{
}

/// A word whose bits at and above `2n` are exactly the sentinel has height
/// `n`.
proof fn lemma_height_from_sentinel(w: u16, n: int)
    requires
        0 <= n < 8,
        w >> (2 * n) as u16 == 1,
    ensures
        w != 0,
        u16_leading_zeros(w) == 15 - 2 * n,
        height_of(w) == n,
{
    broadcast use axiom_u16_leading_zeros;

    let sn = (2 * n) as u16;
    lemma_sentinel_nonzero(w, sn);
    let lz = u16_leading_zeros(w);
    assert(lz < 16);
    lemma_top_bit(w, sn, lz as u16);
}

/// Packing colors of at most 2 bits keeps each field readable and leaves the
/// bits above the top piece clear.
pub proof fn lemma_pack_colors(s: Seq<u8>)
    requires
        s.len() < 8,
        forall|k: int| 0 <= k < s.len() ==> #[trigger] s[k] <= 3,
    ensures
        pack_colors(s) >> (2 * s.len()) as u16 == 0,
        forall|j: int| 0 <= j < s.len() ==> #[trigger] color_field(pack_colors(s), j) == s[j],
    decreases s.len(),
{
    if s.len() == 0 {
        assert(0u16 >> 0u16 == 0) by (bit_vector);
    } else {
        let t = s.drop_last();
        lemma_pack_colors(t);
        let d = s.len() - 1;
        let w = pack_colors(t);
        let c = s.last() as u16;
        let sd = (2 * d) as u16;
        let sd2 = (2 * s.len()) as u16;
        assert forall|j: int| 0 <= j < s.len() implies #[trigger] color_field(pack_colors(s), j)
            == s[j] by {
            lemma_field_or(w, c, sd, sd2, (2 * j) as u16);
            if j < d {
                assert(color_field(w, j) == t[j]);
            }
        }
        lemma_field_or(w, c, sd, sd2, 0);
    }
}

/// The word of a stack of at most 7 two-bit colors encodes exactly that
/// stack.
pub proof fn lemma_stack_word(s: Seq<u8>)
    requires
        s.len() < 8,
        forall|k: int| 0 <= k < s.len() ==> #[trigger] s[k] <= 3,
    ensures
        stack_word(s) != 0,
        height_of(stack_word(s)) == s.len(),
        stack_of(stack_word(s)) == s,
{
    lemma_pack_colors(s);
    let w = pack_colors(s);
    let sn = (2 * s.len()) as u16;
    if s.len() == 0 {
        assert((w | (1u16 << sn)) >> sn == 1) by (bit_vector)
            requires
                sn == 0,
                w == 0,
        ;
    } else {
        lemma_sentinel(w, sn, 0);
    }
    lemma_height_from_sentinel(stack_word(s), s.len() as int);
    assert forall|j: int| 0 <= j < s.len() implies #[trigger] color_field(stack_word(s), j)
        == s[j] by {
        lemma_sentinel(w, sn, (2 * j) as u16);
        assert(color_field(w, j) == s[j]);
    }
    assert(stack_of(stack_word(s)) =~= s);
}

/// Every color field holds a player id below 4.
pub proof fn lemma_color_field_bound(w: u16, j: int)
    ensures
        color_field(w, j) <= 3,
{
    let x = w >> (2 * j) as u16;
    assert(x & 3u16 <= 3) by (bit_vector);
}

/// A cell word's height is at most 7.
pub proof fn lemma_height_bound(w: u16)
    requires
        w != 0,
    ensures
        0 <= height_of(w) <= 7,
{
    broadcast use axiom_u16_leading_zeros;

    assert(u16_leading_zeros(w) < 16);
}

/// Pack a stack seed: `colors` has one 2-bit field per piece (bottom
/// first), `h` is the height.
pub fn make_cell(colors: u16, h: u32) -> (r: u16)
    requires
        1 <= h <= MAX_HEIGHT,
    ensures
        r == colors | (1u16 << (2 * h) as u16),
        colors >> (2 * h) as u16 == 0 ==> stack_of(r) == Seq::new(
            h as nat,
            |j: int| color_field(colors, j),
        ),
{
    let sh = (2 * h) as u16;
    let r = colors | (1u16 << sh);
    proof {
        if colors >> sh == 0 {
            lemma_sentinel(colors, sh, 0);
            lemma_height_from_sentinel(r, h as int);
            assert forall|j: int| 0 <= j < h implies #[trigger] color_field(r, j) == color_field(
                colors,
                j,
            ) by {
                lemma_sentinel(colors, sh, (2 * j) as u16);
            }
            assert(stack_of(r) =~= Seq::new(h as nat, |j: int| color_field(colors, j)));
        }
    }
    r
}

/// Height of the stack in a nonempty cell word.
pub fn cell_height(w: u16) -> (r: u32)
    requires
        w != 0,
    ensures
        r == height_of(w),
        r <= 7,
{
    proof {
        broadcast use axiom_u16_leading_zeros;

        assert(u16_leading_zeros(w) < 16);
    }
    (15 - w.leading_zeros()) / 2
}

/// Color (player id) of the piece on top of the stack.
pub fn cell_top_color(w: u16) -> (r: u8)
    requires
        w != 0,
        height_of(w) >= 1,
    ensures
        r == color_field(w, height_of(w) - 1),
        r == stack_of(w).last(),
{
    let h = cell_height(w);
    cell_color_at(w, h - 1)
}

/// Color of the piece at height `j` (0 = bottom of the stack).
pub fn cell_color_at(w: u16, j: u32) -> (r: u8)
    requires
        j < 8,
    ensures
        r == color_field(w, j as int),
        r <= 3,
{
    proof {
        lemma_color_field_bound(w, j as int);
    }
    ((w >> (2 * j)) & 3) as u8
}

/// Unpacks a cell word's colors, bottom to top, into `buf`, returning the
/// height.
pub(crate) fn stack_into(w: u16, buf: &mut [u8; 10]) -> (r: usize)
    ensures
        r == stack_of(w).len(),
        r <= 7,
        forall|j: int| 0 <= j < r ==> #[trigger] final(buf)@[j] == stack_of(w)[j],
        forall|j: int| r <= j < 10 ==> #[trigger] final(buf)@[j] == old(buf)@[j],
{
    if w == 0 {
        return 0;
    }
    let h = cell_height(w) as usize;
    let mut j: usize = 0;
    while j < h
        invariant
            w != 0,
            h == height_of(w),
            h <= 7,
            j <= h,
            forall|k: int| 0 <= k < j ==> #[trigger] buf@[k] == color_field(w, k),
            forall|k: int| h <= k < 10 ==> #[trigger] buf@[k] == old(buf)@[k],
        decreases h - j,
    {
        buf[j] = cell_color_at(w, j as u32);
        j += 1;
    }
    h
}

/// Stacks `moving` (bottom to top) onto `dest`, then resolves any overflow
/// past `MAX_HEIGHT`: the bottom pieces that fall off go back to
/// `*mover_reserve` when they are the mover's color and are captured
/// otherwise. Returns the resulting cell word.
pub fn merge(dest: u16, moving: &[u8], mover: u8, mover_reserve: &mut u8) -> (r: u16)
    requires
        stack_of(dest).len() + moving@.len() <= 10,
        ({
            let combined = stack_of(dest) + moving@;
            let overflow = if combined.len() > 5 {
                combined.len() - 5
            } else {
                0
            };
            *old(mover_reserve) + count_color(combined.take(overflow), mover) <= u8::MAX
        }),
    ensures
        ({
            let combined = stack_of(dest) + moving@;
            let overflow = if combined.len() > 5 {
                combined.len() - 5
            } else {
                0
            };
            &&& r == stack_word(combined.skip(overflow))
            &&& *final(mover_reserve) == *old(mover_reserve) + count_color(
                combined.take(overflow),
                mover,
            )
            &&& (forall|k: int| 0 <= k < moving@.len() ==> #[trigger] moving@[k] <= 3) ==> (stack_of(r)
                == combined.skip(overflow) && r != 0 && height_of(r) == combined.len() - overflow)
        }),
{
    let ghost combined = stack_of(dest) + moving@;
    let mut buf = [0u8; 10];
    let dest_h = stack_into(dest, &mut buf);
    let n = moving.len();
    let mut k: usize = 0;
    while k < n
        invariant
            dest_h == stack_of(dest).len(),
            n == moving@.len(),
            dest_h + n <= 10,
            k <= n,
            combined == stack_of(dest) + moving@,
            forall|j: int| 0 <= j < dest_h + k ==> #[trigger] buf@[j] == combined[j],
        decreases n - k,
    {
        buf[dest_h + k] = moving[k];
        k += 1;
    }
    let total = dest_h + n;
    let overflow = total.saturating_sub(MAX_HEIGHT as usize);
    let ghost o = overflow as int;
    let mut j: usize = 0;
    while j < overflow
        invariant
            total == combined.len(),
            total <= 10,
            overflow == if total > 5 {
                total - 5
            } else {
                0
            },
            j <= overflow,
            forall|i: int| 0 <= i < total ==> #[trigger] buf@[i] == combined[i],
            *old(mover_reserve) + count_color(combined.take(overflow as int), mover) <= u8::MAX,
            *mover_reserve == *old(mover_reserve) + count_color(combined.take(j as int), mover),
        decreases overflow - j,
    {
        proof {
            assert(combined.take(j + 1).drop_last() =~= combined.take(j as int));
            lemma_count_color_prefix(combined, j as int + 1, overflow as int, mover);
        }
        if buf[j] == mover {
            *mover_reserve = *mover_reserve + 1;
        }
        j += 1;
    }
    let new_h = total - overflow;
    let ghost kept = combined.skip(o);
    let mut w: u16 = 0;
    let mut i: usize = 0;
    while i < new_h
        invariant
            total == combined.len(),
            total <= 10,
            overflow <= total,
            new_h == total - overflow,
            new_h <= 5,
            i <= new_h,
            o == overflow,
            kept == combined.skip(o),
            forall|x: int| 0 <= x < total ==> #[trigger] buf@[x] == combined[x],
            w == pack_colors(kept.take(i as int)),
        decreases new_h - i,
    {
        let c = buf[overflow + i];
        proof {
            assert(kept.take(i + 1).drop_last() =~= kept.take(i as int));
            assert(kept.take(i + 1).last() == c);
        }
        w = w | ((c as u16) << (2 * i) as u16);
        i += 1;
    }
    proof {
        assert(kept.take(new_h as int) =~= kept);
    }
    let r = w | (1u16 << (2 * new_h) as u16);
    proof {
        if forall|x: int| 0 <= x < moving@.len() ==> #[trigger] moving@[x] <= 3 {
            assert forall|x: int| 0 <= x < kept.len() implies #[trigger] kept[x] <= 3 by {
                let y = x + o;
                if y < stack_of(dest).len() {
                    lemma_color_field_bound(dest, y);
                } else {
                    assert(combined[y] == moving@[y - stack_of(dest).len()]);
                }
            }
            lemma_stack_word(kept);
        }
    }
    r
}

/// Counting a prefix one element longer adds that element's contribution,
/// and prefixes count no more than longer prefixes.
proof fn lemma_count_color_prefix(s: Seq<u8>, j: int, o: int, c: u8)
    requires
        1 <= j <= o <= s.len(),
    ensures
        count_color(s.take(j), c) == count_color(s.take(j - 1), c) + if s[j - 1] == c {
            1nat
        } else {
            0nat
        },
        count_color(s.take(j), c) <= count_color(s.take(o), c),
    decreases o - j,
{
    assert(s.take(j).drop_last() =~= s.take(j - 1));
    if j < o {
        lemma_count_color_prefix(s, j + 1, o, c);
    }
}

} // verus!
