//! Applying Focus moves and keeping the incremental hash in sync.
//!
//! The hash XORs one mixed key per nonempty cell, one per player's reserve
//! count and one for the player to move. The random keys (72 of them: 64
//! cells, 4 reserves, 4 turns) are supplied by the caller.

use vstd::prelude::*;
use crate::focus::cells::{
    cell_height, cell_top_color, color_field, count_color, height_of, make_cell, merge, stack_into,
    stack_of, stack_word, pack_colors, lemma_stack_word, lemma_color_field_bound, lemma_height_bound,
    valid_cell,
};
use crate::focus::game::{
    Move, Player, State, bits_cell, bits_count, bits_dir, bits_is_slide, controls, has_legal_move,
    dir_slides, cell_slides, moves_of, place_bits, places_upto, run_from, slide_bits, slides_upto,
    step, step_ok, step_rc, step_target, lemma_valid_cell_has_neighbor, lemma_legal_move_listed, top_color,
};

verus! {

/// Number of hash keys: 64 cells, then 4 reserves, then 4 turns.
pub const HASHES_LEN: usize = 72;

/// splitmix64 finalizer: a cheap bijective 64-bit mix.
pub open spec fn mix_spec(x: u64) -> u64 {
    let a = (x ^ (x >> 30u64)).wrapping_mul(0xBF58476D1CE4E5B9u64);
    let b = (a ^ (a >> 27u64)).wrapping_mul(0x94D049BB133111EBu64);
    b ^ (b >> 31u64)
}

pub open spec fn cell_hash_spec(keys: Seq<u64>, i: int, w: u16) -> u64 {
    if w == 0 {
        0
    } else {
        mix_spec((w as u64) ^ keys[i])
    }
}

pub open spec fn reserve_hash_spec(keys: Seq<u64>, p: int, count: u8) -> u64 {
    mix_spec((count as u64) ^ keys[64 + p])
}

pub open spec fn turn_hash_spec(keys: Seq<u64>, p: int) -> u64 {
    keys[68 + p]
}

/// XOR of the first `n` cells' contributions.
pub open spec fn cells_hash(keys: Seq<u64>, cells: Seq<u16>, n: int) -> u64
    decreases n,
{
    if n <= 0 {
        0
    } else {
        cells_hash(keys, cells, n - 1) ^ cell_hash_spec(keys, n - 1, cells[n - 1])
    }
}

/// XOR of the first `n` reserves' contributions.
pub open spec fn reserves_hash(keys: Seq<u64>, reserves: Seq<u8>, n: int) -> u64
    decreases n,
{
    if n <= 0 {
        0
    } else {
        reserves_hash(keys, reserves, n - 1) ^ reserve_hash_spec(keys, n - 1, reserves[n - 1])
    }
}

/// The from-scratch hash of a position.
pub open spec fn full_hash(keys: Seq<u64>, cells: Seq<u16>, reserves: Seq<u8>, turn: int) -> u64 {
    (cells_hash(keys, cells, 64) ^ reserves_hash(keys, reserves, reserves.len() as int))
        ^ turn_hash_spec(keys, turn)
}

proof fn lemma_xor(a: u64, b: u64, c: u64, d: u64)
    by (bit_vector)
    ensures
        (a ^ b) ^ c == a ^ (b ^ c),
        a ^ b == b ^ a,
        a ^ 0 == a,
        (a ^ b) ^ b == a,
        (a ^ c) ^ (c ^ d) == a ^ d,
        a ^ (((b ^ c) ^ d) ^ d) == a ^ (b ^ c),
{
}

proof fn lemma_xor4(h: u64, a: u64, b: u64, c: u64, d: u64)
    by (bit_vector)
    ensures
        h ^ (((a ^ b) ^ c) ^ d) == (h ^ (a ^ b)) ^ (c ^ d),
        ((h ^ a) ^ b) ^ (a ^ c) == (h ^ c) ^ b,
        (h ^ b) ^ (a ^ c) == (h ^ (a ^ c)) ^ b,
{
}

/// Changing cell `i` changes the cell fold by the old and new contributions.
pub proof fn lemma_cells_hash_update(keys: Seq<u64>, cells: Seq<u16>, i: int, w: u16, n: int)
    requires
        0 <= i < cells.len(),
        n <= cells.len(),
    ensures
        cells_hash(keys, cells.update(i, w), n) == if i < n {
            cells_hash(keys, cells, n) ^ (cell_hash_spec(keys, i, cells[i]) ^ cell_hash_spec(
                keys,
                i,
                w,
            ))
        } else {
            cells_hash(keys, cells, n)
        },
    decreases n,
{
    if n > 0 {
        lemma_cells_hash_update(keys, cells, i, w, n - 1);
        let a = cells_hash(keys, cells, n - 1);
        let o = cell_hash_spec(keys, i, cells[i]);
        let x = cell_hash_spec(keys, i, w);
        let c = cell_hash_spec(keys, n - 1, cells[n - 1]);
        lemma_xor(a, o, x, x);
        lemma_xor(a, c, o ^ x, 0);
        lemma_xor(a, o ^ x, c, 0);
        lemma_xor(a ^ c, o, x, 0);
        lemma_xor(a, o, o, x);
        lemma_xor(a ^ o, o, x, 0);
        lemma_xor4(a, o, c, x, 0);
        if i == n - 1 {
            assert((a ^ o) ^ (o ^ x) == a ^ x) by {
                lemma_xor(a, o, o, x);
            }
        }
    }
}

/// Changing reserve `p` changes the reserve fold by the old and new
/// contributions.
pub proof fn lemma_reserves_hash_update(keys: Seq<u64>, res: Seq<u8>, p: int, v: u8, n: int)
    requires
        0 <= p < res.len(),
        n <= res.len(),
    ensures
        reserves_hash(keys, res.update(p, v), n) == if p < n {
            reserves_hash(keys, res, n) ^ (reserve_hash_spec(keys, p, res[p]) ^ reserve_hash_spec(
                keys,
                p,
                v,
            ))
        } else {
            reserves_hash(keys, res, n)
        },
    decreases n,
{
    if n > 0 {
        lemma_reserves_hash_update(keys, res, p, v, n - 1);
        let a = reserves_hash(keys, res, n - 1);
        let o = reserve_hash_spec(keys, p, res[p]);
        let x = reserve_hash_spec(keys, p, v);
        let c = reserve_hash_spec(keys, n - 1, res[n - 1]);
        lemma_xor(a, o, x, x);
        lemma_xor(a, c, o ^ x, 0);
        lemma_xor(a, o ^ x, c, 0);
        lemma_xor(a ^ c, o, x, 0);
        lemma_xor(a, o, o, x);
        lemma_xor4(a, o, c, x, 0);
    }
}

/// The from-scratch hash changes by the old and new contributions of a
/// changed cell.
pub proof fn lemma_full_hash_cell(keys: Seq<u64>, cells: Seq<u16>, res: Seq<u8>, t: int, i: int, w: u16)
    requires
        cells.len() == 64,
        0 <= i < 64,
    ensures
        full_hash(keys, cells.update(i, w), res, t) == full_hash(keys, cells, res, t) ^ (
        cell_hash_spec(keys, i, cells[i]) ^ cell_hash_spec(keys, i, w)),
{
    lemma_cells_hash_update(keys, cells, i, w, 64);
    let c = cells_hash(keys, cells, 64);
    let r = reserves_hash(keys, res, res.len() as int);
    let th = turn_hash_spec(keys, t);
    let dc = cell_hash_spec(keys, i, cells[i]) ^ cell_hash_spec(keys, i, w);
    lemma_xor(c, dc, r, 0);
    lemma_xor(c, r, dc, 0);
    lemma_xor(dc, r, 0, 0);
    lemma_xor(c ^ r, dc, th, 0);
    lemma_xor(c ^ r, th, dc, 0);
    lemma_xor(dc, th, 0, 0);
}

/// The from-scratch hash changes by the old and new contributions of a
/// changed reserve.
pub proof fn lemma_full_hash_reserve(keys: Seq<u64>, cells: Seq<u16>, res: Seq<u8>, t: int, p: int, v: u8)
    requires
        0 <= p < res.len(),
    ensures
        full_hash(keys, cells, res.update(p, v), t) == full_hash(keys, cells, res, t) ^ (
        reserve_hash_spec(keys, p, res[p]) ^ reserve_hash_spec(keys, p, v)),
{
    lemma_reserves_hash_update(keys, res, p, v, res.len() as int);
    let c = cells_hash(keys, cells, 64);
    let r = reserves_hash(keys, res, res.len() as int);
    let th = turn_hash_spec(keys, t);
    let dr = reserve_hash_spec(keys, p, res[p]) ^ reserve_hash_spec(keys, p, v);
    lemma_xor(c, r, dr, 0);
    lemma_xor(c ^ r, dr, th, 0);
    lemma_xor(c ^ r, th, dr, 0);
    lemma_xor(dr, th, 0, 0);
}

/// The from-scratch hash changes by the old and new contributions of the
/// player to move.
pub proof fn lemma_full_hash_turn(keys: Seq<u64>, cells: Seq<u16>, res: Seq<u8>, t: int, t2: int)
    ensures
        full_hash(keys, cells, res, t2) == full_hash(keys, cells, res, t) ^ (turn_hash_spec(keys, t)
            ^ turn_hash_spec(keys, t2)),
{
    let c = cells_hash(keys, cells, 64);
    let r = reserves_hash(keys, res, res.len() as int);
    lemma_xor(c ^ r, turn_hash_spec(keys, t), turn_hash_spec(keys, t), turn_hash_spec(keys, t2));
}

fn mix(x: u64) -> (r: u64)
    ensures
        r == mix_spec(x),
{
    let a = (x ^ (x >> 30u64)).wrapping_mul(0xBF58476D1CE4E5B9u64);
    let b = (a ^ (a >> 27u64)).wrapping_mul(0x94D049BB133111EBu64);
    b ^ (b >> 31u64)
}

fn cell_hash(i: usize, w: u16, keys: &[u64; HASHES_LEN]) -> (r: u64)
    requires
        i < 64,
    ensures
        r == cell_hash_spec(keys@, i as int, w),
{
    if w == 0 {
        0
    } else {
        mix((w as u64) ^ keys[i])
    }
}

fn reserve_hash(p: usize, count: u8, keys: &[u64; HASHES_LEN]) -> (r: u64)
    requires
        p < 4,
    ensures
        r == reserve_hash_spec(keys@, p as int, count),
{
    mix((count as u64) ^ keys[64 + p])
}

fn turn_hash(p: usize, keys: &[u64; HASHES_LEN]) -> (r: u64)
    requires
        p < 4,
    ensures
        r == turn_hash_spec(keys@, p as int),
{
    keys[68 + p]
}

/// A slide or placement the player to move may legally make.
pub open spec fn legal_move<const P: usize>(s: State<P>, b: u16) -> bool {
    let p = s.turn.0 as int;
    let c = bits_cell(b) as int;
    if bits_is_slide(b) {
        let k = bits_count(b) as int;
        &&& controls(s.cells@, c, p)
        &&& 1 <= k <= height_of(s.cells@[c])
        &&& forall|j: int| 1 <= j <= k ==> #[trigger] step_ok(c, bits_dir(b) as int, j)
    } else {
        &&& s.reserves@[p] > 0
        &&& valid_cell(c)
    }
}

/// The pieces that fall off the bottom when `combined` is capped at 5.
pub open spec fn overflow_of(combined: Seq<u8>) -> int {
    if combined.len() > 5 {
        combined.len() - 5
    } else {
        0
    }
}

/// The first player after `old` (cyclically, ending with `old` itself)
/// that has a legal move, searching from the `k`-th successor on.
pub open spec fn next_capable(cells: Seq<u16>, reserves: Seq<u8>, old: int, n: int, k: int) -> int
    decreases n - k,
{
    if k >= n {
        old
    } else {
        let q = (old + 1 + k) % n;
        if has_legal_move(cells, reserves, q) {
            q
        } else {
            next_capable(cells, reserves, old, n, k + 1)
        }
    }
}

/// The `j`-th player after `old` in the rotation of `n` players.
pub open spec fn rotated(old: int, n: int, j: int) -> int {
    (old + 1 + j) % n
}

proof fn lemma_next_capable_from(cells: Seq<u16>, reserves: Seq<u8>, old: int, n: int, k: int)
    requires
        0 <= k <= n,
    ensures
        (exists|j: int| k <= j < n && #[trigger] has_legal_move(cells, reserves, rotated(old, n, j))) ==> (exists|j: int|
            k <= j < n && next_capable(cells, reserves, old, n, k) == rotated(old, n, j) && #[trigger] has_legal_move(cells, reserves, rotated(old, n, j))
                && forall|i: int| k <= i < j ==> !#[trigger] has_legal_move(cells, reserves, rotated(old, n, i))),
        (forall|j: int| k <= j < n ==> !#[trigger] has_legal_move(cells, reserves, rotated(old, n, j))) ==> next_capable(cells, reserves, old, n, k) == old,
    decreases n - k,
{
    if k < n {
        lemma_next_capable_from(cells, reserves, old, n, k + 1);
        if has_legal_move(cells, reserves, rotated(old, n, k)) {
            assert(next_capable(cells, reserves, old, n, k) == rotated(old, n, k));
        } else {
            assert forall|j: int| k <= j < n && #[trigger] has_legal_move(cells, reserves, rotated(old, n, j)) implies k + 1 <= j by {}
        }
    }
}

/// The turn passes to the first player after the mover, in the rotation of
/// `n` players and with the mover itself last, that has a legal move; when
/// none has one, the turn stays with the mover.
pub proof fn lemma_next_capable_is_first_in_rotation(cells: Seq<u16>, reserves: Seq<u8>, mover: int, n: int)
    requires
        0 < n,
    ensures
        (exists|j: int| 0 <= j < n && #[trigger] has_legal_move(cells, reserves, rotated(mover, n, j))) ==> (exists|j: int|
            0 <= j < n && next_capable(cells, reserves, mover, n, 0) == rotated(mover, n, j) && #[trigger] has_legal_move(cells, reserves, rotated(mover, n, j))
                && forall|i: int| 0 <= i < j ==> !#[trigger] has_legal_move(cells, reserves, rotated(mover, n, i))),
        (forall|j: int| 0 <= j < n ==> !#[trigger] has_legal_move(cells, reserves, rotated(mover, n, j))) ==> next_capable(cells, reserves, mover, n, 0) == mover,
{
    lemma_next_capable_from(cells, reserves, mover, n, 0);
}

/// Cells and reserves after the player to move places a reserve piece.
pub open spec fn after_place(cells: Seq<u16>, res: Seq<u8>, p: int, dest: int) -> (Seq<u16>, Seq<u8>) {
    let combined = stack_of(cells[dest]) + seq![p as u8];
    let o = overflow_of(combined);
    (
        cells.update(dest, stack_word(combined.skip(o))),
        res.update(p, (res[p] - 1 + count_color(combined.take(o), p as u8)) as u8),
    )
}

/// Cells and reserves after the player to move slides the top `k` pieces
/// of `src` in direction `dir`.
pub open spec fn after_slide(cells: Seq<u16>, res: Seq<u8>, p: int, src: int, dir: int, k: int) -> (Seq<u16>, Seq<u8>) {
    let stack = stack_of(cells[src]);
    let h = stack.len() as int;
    let new_src = if h - k == 0 {
        0u16
    } else {
        stack_word(stack.take(h - k))
    };
    let dest = step_target(src, dir, k);
    let combined = stack_of(cells[dest]) + stack.subrange(h - k, h);
    let o = overflow_of(combined);
    (
        cells.update(src, new_src).update(dest, stack_word(combined.skip(o))),
        res.update(p, (res[p] + count_color(combined.take(o), p as u8)) as u8),
    )
}

impl<const P: usize> State<P> {
    /// The hash equals the from-scratch hash under `keys`.
    pub open spec fn hash_synced(&self, keys: Seq<u64>) -> bool {
        self.hash == full_hash(keys, self.cells@, self.reserves@, self.turn.0 as int)
    }

    /// Sets a raw cell word directly, keeping the hash in sync.
    pub fn set_cell(&mut self, i: usize, w: u16, keys: &[u64; HASHES_LEN])
        requires
            i < 64,
            P <= 4,
        ensures
            final(self).cells@ == old(self).cells@.update(i as int, w),
            final(self).reserves@ == old(self).reserves@,
            final(self).turn == old(self).turn,
            old(self).hash_synced(keys@) ==> final(self).hash_synced(keys@),
    {
        let d = cell_hash(i, self.cells[i], keys) ^ cell_hash(i, w, keys);
        proof {
            lemma_full_hash_cell(keys@, self.cells@, self.reserves@, self.turn.0 as int, i as int, w);
        }
        self.hash = self.hash ^ d;
        self.cells[i] = w;
    }

    /// Sets a player's reserve count directly, keeping the hash in sync.
    pub fn set_reserve(&mut self, p: usize, n: u8, keys: &[u64; HASHES_LEN])
        requires
            p < P,
            P <= 4,
        ensures
            final(self).cells@ == old(self).cells@,
            final(self).reserves@ == old(self).reserves@.update(p as int, n),
            final(self).turn == old(self).turn,
            old(self).hash_synced(keys@) ==> final(self).hash_synced(keys@),
    {
        let d = reserve_hash(p, self.reserves[p], keys) ^ reserve_hash(p, n, keys);
        proof {
            lemma_full_hash_reserve(keys@, self.cells@, self.reserves@, self.turn.0 as int, p as int, n);
        }
        self.hash = self.hash ^ d;
        self.reserves[p] = n;
    }

    /// Sets the player to move directly, keeping the hash in sync.
    pub fn set_turn(&mut self, p: usize, keys: &[u64; HASHES_LEN])
        requires
            p < P,
            P <= 4,
            old(self).turn.0 < P,
        ensures
            final(self).cells@ == old(self).cells@,
            final(self).reserves@ == old(self).reserves@,
            final(self).turn == Player(p as u8),
            old(self).hash_synced(keys@) ==> final(self).hash_synced(keys@),
    {
        let d = turn_hash(self.turn.0 as usize, keys) ^ turn_hash(p, keys);
        proof {
            lemma_full_hash_turn(keys@, self.cells@, self.reserves@, self.turn.0 as int, p as int);
        }
        self.hash = self.hash ^ d;
        self.turn = Player(p as u8);
    }

    /// Full from-scratch hash.
    pub fn recompute_hash(&self, keys: &[u64; HASHES_LEN]) -> (r: u64)
        requires
            P <= 4,
            self.turn.0 < 4,
        ensures
            r == full_hash(keys@, self.cells@, self.reserves@, self.turn.0 as int),
    {
        let mut c: u64 = 0;
        let mut i: usize = 0;
        while i < 64
            invariant
                i <= 64,
                c == cells_hash(keys@, self.cells@, i as int),
            decreases 64 - i,
        {
            c = c ^ cell_hash(i, self.cells[i], keys);
            i += 1;
        }
        let mut r: u64 = 0;
        let mut p: usize = 0;
        while p < P
            invariant
                P <= 4,
                p <= P,
                r == reserves_hash(keys@, self.reserves@, p as int),
            decreases P - p,
        {
            r = r ^ reserve_hash(p, self.reserves[p], keys);
            p += 1;
        }
        (c ^ r) ^ turn_hash(self.turn.0 as usize, keys)
    }
}

} // verus!

verus! {

/// The word of the bottom `n` colors in `buf`.
fn pack_stack(buf: &[u8; 10], n: usize) -> (r: u16)
    requires
        n <= 7,
    ensures
        r == stack_word(buf@.take(n as int)),
{
    let ghost s = buf@.take(n as int);
    let mut w: u16 = 0;
    let mut i: usize = 0;
    while i < n
        invariant
            n <= 7,
            i <= n,
            s == buf@.take(n as int),
            w == pack_colors(s.take(i as int)),
        decreases n - i,
    {
        let c = buf[i];
        proof {
            assert(s.take(i + 1).drop_last() =~= s.take(i as int));
            assert(s.take(i + 1).last() == c);
        }
        w = w | ((c as u16) << (2 * i) as u16);
        i += 1;
    }
    proof {
        assert(s.take(n as int) =~= s);
    }
    w | (1u16 << (2 * n) as u16)
}

/// A stack of fields read off a word, with its top `k` pieces removed,
/// is a stack of 2-bit colors.
proof fn lemma_fields_small(s: Seq<u8>, w: u16)
    requires
        s == stack_of(w),
    ensures
        forall|j: int| 0 <= j < s.len() ==> #[trigger] s[j] <= 3,
{
    assert forall|j: int| 0 <= j < s.len() implies #[trigger] s[j] <= 3 by {
        lemma_color_field_bound(w, j);
    }
}

/// Reserve pieces the mover gets back from the slide's overflow.
pub open spec fn slide_gain(cells: Seq<u16>, p: int, src: int, dir: int, k: int) -> nat {
    let stack = stack_of(cells[src]);
    let h = stack.len() as int;
    let combined = stack_of(cells[step_target(src, dir, k)]) + stack.subrange(h - k, h);
    count_color(combined.take(overflow_of(combined)), p as u8)
}

impl<const P: usize> State<P> {
    fn apply_place(&mut self, m: Move, keys: &[u64; HASHES_LEN])
        requires
            old(self).wf(),
            2 <= P <= 4,
            !bits_is_slide(m@),
            legal_move(*old(self), m@),
        ensures
            (final(self).cells@, final(self).reserves@) == after_place(
                old(self).cells@,
                old(self).reserves@,
                old(self).turn.0 as int,
                bits_cell(m@) as int,
            ),
            final(self).turn == old(self).turn,
            final(self).wf(),
            controls(final(self).cells@, bits_cell(m@) as int, old(self).turn.0 as int),
            old(self).hash_synced(keys@) ==> final(self).hash_synced(keys@),
    {
        let dest = m.cell();
        let p = self.turn.0 as usize;
        let ghost pi = p as int;
        let old_reserve = self.reserves[p];
        let mut r = old_reserve - 1;
        let old_dest = self.cells[dest];
        let mut moving: Vec<u8> = Vec::new();
        moving.push(self.turn.0);
        let ghost combined = stack_of(old_dest) + moving@;
        proof {
            if old_dest != 0 {
                lemma_height_bound(old_dest);
            }
            assert(combined.take(overflow_of(combined)).len() <= 1);
            lemma_count_color_bound(combined.take(overflow_of(combined)), self.turn.0);
        }
        let new_dest = merge(old_dest, moving.as_slice(), self.turn.0, &mut r);
        proof {
            assert(moving@ =~= seq![self.turn.0]);
        }
        let c0 = cell_hash(dest, old_dest, keys);
        let c1 = cell_hash(dest, new_dest, keys);
        let r0 = reserve_hash(p, old_reserve, keys);
        let r1 = reserve_hash(p, r, keys);
        let ghost h = self.hash;
        proof {
            lemma_place_hash(keys@, self.cells@, self.reserves@, pi, dest as int, new_dest, r, h, c0, c1, r0, r1);
        }
        self.hash = self.hash ^ (((c0 ^ c1) ^ r0) ^ r1);
        self.reserves[p] = r;
        self.cells[dest] = new_dest;
        proof {
            let kept = combined.skip(overflow_of(combined));
            assert(kept.last() == self.turn.0);
            assert forall|i: int| 0 <= i < 64 implies (#[trigger] self.cells@[i] == 0 || 1 <= height_of(
                self.cells@[i],
            ) <= 5) by {
                if i != dest {
                    assert(self.cells@[i] == old(self).cells@[i]);
                }
            }
        }
    }

    fn apply_slide(&mut self, m: Move, keys: &[u64; HASHES_LEN])
        requires
            old(self).wf(),
            2 <= P <= 4,
            bits_is_slide(m@),
            legal_move(*old(self), m@),
            old(self).reserves@[old(self).turn.0 as int] + slide_gain(old(self).cells@, old(self).turn.0 as int, bits_cell(m@) as int, bits_dir(m@) as int, bits_count(m@) as int) <= u8::MAX,
        ensures
            (final(self).cells@, final(self).reserves@) == after_slide(
                old(self).cells@,
                old(self).reserves@,
                old(self).turn.0 as int,
                bits_cell(m@) as int,
                bits_dir(m@) as int,
                bits_count(m@) as int,
            ),
            final(self).turn == old(self).turn,
            final(self).wf(),
            controls(final(self).cells@, step_target(bits_cell(m@) as int, bits_dir(m@) as int, bits_count(m@) as int), old(self).turn.0 as int),
            valid_cell(step_target(bits_cell(m@) as int, bits_dir(m@) as int, bits_count(m@) as int)),
            old(self).hash_synced(keys@) ==> final(self).hash_synced(keys@),
    {
        let src = m.cell();
        let count = m.count() as usize;
        let dir = m.dir();
        let p = self.turn.0 as usize;
        let ghost pi = p as int;
        let w = self.cells[src];
        let h = cell_height(w) as usize;
        let ghost stack = stack_of(w);
        let mut buf = [0u8; 10];
        stack_into(w, &mut buf);
        let mut moving: Vec<u8> = Vec::new();
        let mut j: usize = h - count;
        while j < h
            invariant
                h == stack.len(),
                1 <= count <= h <= 5,
                h - count <= j <= h,
                forall|x: int| 0 <= x < h ==> #[trigger] buf@[x] == stack[x],
                moving@ == stack.subrange(h - count, j as int),
            decreases h - j,
        {
            moving.push(buf[j]);
            proof {
                assert(moving@ =~= stack.subrange(h - count, j + 1));
            }
            j += 1;
        }
        let new_src_h = h - count;
        let new_src = if new_src_h == 0 {
            0
        } else {
            pack_stack(&buf, new_src_h)
        };
        proof {
            assert(buf@.take(new_src_h as int) =~= stack.take(new_src_h as int));
            lemma_fields_small(stack, w);
            if new_src_h > 0 {
                lemma_stack_word(stack.take(new_src_h as int));
            }
        }
        let ghost h0 = self.hash;
        let d1 = cell_hash(src, w, keys) ^ cell_hash(src, new_src, keys);
        proof {
            lemma_full_hash_cell(keys@, self.cells@, self.reserves@, pi, src as int, new_src);
        }
        self.hash = self.hash ^ d1;
        self.cells[src] = new_src;
        let dest = match step(src, dir, count as u32) {
            Some(t) => t,
            None => {
                proof {
                    assert(step_ok(src as int, dir as int, count as int));
                    assert(false);
                }
                src
            },
        };
        let old_reserve = self.reserves[p];
        let mut r = old_reserve;
        let old_dest = self.cells[dest];
        proof {
            assert(old_dest == old(self).cells@[dest as int]);
            if old_dest != 0 {
                lemma_height_bound(old_dest);
            }
        }
        let new_dest = merge(old_dest, moving.as_slice(), self.turn.0, &mut r);
        let d2 = ((cell_hash(dest, old_dest, keys) ^ cell_hash(dest, new_dest, keys)) ^ reserve_hash(
            p,
            old_reserve,
            keys,
        )) ^ reserve_hash(p, r, keys);
        proof {
            lemma_full_hash_cell(keys@, self.cells@, self.reserves@, pi, dest as int, new_dest);
            lemma_full_hash_reserve(keys@, self.cells@.update(dest as int, new_dest), self.reserves@, pi, pi, r);
            lemma_xor4(self.hash, cell_hash_spec(keys@, dest as int, old_dest), cell_hash_spec(keys@, dest as int, new_dest), reserve_hash_spec(keys@, pi, old_reserve), reserve_hash_spec(keys@, pi, r));
        }
        self.hash = self.hash ^ d2;
        self.reserves[p] = r;
        self.cells[dest] = new_dest;
        proof {
            lemma_fields_small(stack, w);
            let combined = stack_of(old_dest) + moving@;
            let kept = combined.skip(overflow_of(combined));
            assert(moving@.last() == stack[h - 1]);
            assert(kept.last() == self.turn.0);
            assert forall|i: int| 0 <= i < 64 implies (#[trigger] self.cells@[i] == 0 || 1 <= height_of(
                self.cells@[i],
            ) <= 5) by {
                if i != dest && i != src {
                    assert(self.cells@[i] == old(self).cells@[i]);
                }
            }
        }
    }

    /// Hands the turn to the next player (cyclically) who has a legal move;
    /// the mover always has one after moving.
    fn advance_turn(&mut self, keys: &[u64; HASHES_LEN])
        requires
            old(self).wf(),
            2 <= P <= 4,
            has_legal_move(old(self).cells@, old(self).reserves@, old(self).turn.0 as int),
        ensures
            final(self).cells@ == old(self).cells@,
            final(self).reserves@ == old(self).reserves@,
            final(self).turn.0 == next_capable(old(self).cells@, old(self).reserves@, old(self).turn.0 as int, P as int, 0),
            has_legal_move(final(self).cells@, final(self).reserves@, final(self).turn.0 as int),
            final(self).wf(),
            old(self).hash_synced(keys@) ==> final(self).hash_synced(keys@),
    {
        proof {
            lemma_next_capable_has_move(self.cells@, self.reserves@, self.turn.0 as int, P as int, 0);
        }
        let old_turn = self.turn.0 as usize;
        let mut next = (old_turn + 1) % P;
        let ghost mut k: int = 0;
        proof {
            lemma_next_capable_step(self.cells@, self.reserves@, old_turn as int, P as int, 0);
        }
        while !self.player_has_legal_move(next)
            invariant
                self.wf(),
                2 <= P <= 4,
                old_turn == self.turn.0,
                has_legal_move(self.cells@, self.reserves@, old_turn as int),
                0 <= k < P,
                next == (old_turn + 1 + k) % (P as int),
                next_capable(self.cells@, self.reserves@, old_turn as int, P as int, 0)
                    == next_capable(self.cells@, self.reserves@, old_turn as int, P as int, k),
            decreases P - k,
        {
            proof {
                if k == P - 1 {
                    assert((old_turn + 1 + k) % (P as int) == old_turn) by {
                        vstd::arithmetic::div_mod::lemma_fundamental_div_mod_converse(old_turn + P, P as int, 1, old_turn as int);
                    }
                }
                lemma_next_capable_step(self.cells@, self.reserves@, old_turn as int, P as int, k);
                vstd::arithmetic::div_mod::lemma_add_mod_noop(old_turn + 1 + k, 1, P as int);
                vstd::arithmetic::div_mod::lemma_small_mod(1, P as nat);
            }
            next = (next + 1) % P;
            proof {
                k = k + 1;
            }
        }
        proof {
            lemma_next_capable_step(self.cells@, self.reserves@, old_turn as int, P as int, k);
            lemma_full_hash_turn(keys@, self.cells@, self.reserves@, old_turn as int, next as int);
        }
        let d = turn_hash(old_turn, keys) ^ turn_hash(next, keys);
        self.hash = self.hash ^ d;
        self.turn = Player(next as u8);
    }

    /// Plays `m` for the player to move, hands the turn on, and returns the
    /// new position.
    pub fn apply(&mut self, m: &Move, keys: &[u64; HASHES_LEN]) -> (r: Self)
        requires
            old(self).wf(),
            2 <= P <= 4,
            legal_move(*old(self), m@),
            bits_is_slide(m@) ==> old(self).reserves@[old(self).turn.0 as int] + slide_gain(old(self).cells@, old(self).turn.0 as int, bits_cell(m@) as int, bits_dir(m@) as int, bits_count(m@) as int) <= u8::MAX,
        ensures
            ({
                let p = old(self).turn.0 as int;
                let after = if bits_is_slide(m@) {
                    after_slide(old(self).cells@, old(self).reserves@, p, bits_cell(m@) as int, bits_dir(m@) as int, bits_count(m@) as int)
                } else {
                    after_place(old(self).cells@, old(self).reserves@, p, bits_cell(m@) as int)
                };
                &&& final(self).cells@ == after.0
                &&& final(self).reserves@ == after.1
                &&& final(self).turn.0 == next_capable(after.0, after.1, p, P as int, 0)
            }),
            has_legal_move(final(self).cells@, final(self).reserves@, final(self).turn.0 as int),
            moves_of(final(self).cells@, final(self).reserves@, final(self).turn.0 as int).len() > 0,
            final(self).wf(),
            r == *final(self),
            old(self).hash_synced(keys@) ==> final(self).hash_synced(keys@),
    {
        proof {
            crate::focus::game::lemma_bits_ranges(m@);
        }
        if m.is_slide() {
            self.apply_slide(*m, keys);
            proof {
                let dest = step_target(bits_cell(m@) as int, bits_dir(m@) as int, bits_count(m@) as int);
                assert(step_ok(bits_cell(m@) as int, bits_dir(m@) as int, bits_count(m@) as int));
                let d = if dest / 8 <= 3 { 2int } else { 0int };
                lemma_valid_cell_has_neighbor(dest);
                assert(controls(self.cells@, dest, self.turn.0 as int) && step_ok(dest, d, 1));
            }
        } else {
            self.apply_place(*m, keys);
            proof {
                let dest = bits_cell(m@) as int;
                let d = if dest / 8 <= 3 { 2int } else { 0int };
                lemma_valid_cell_has_neighbor(dest);
                assert(controls(self.cells@, dest, self.turn.0 as int) && step_ok(dest, d, 1));
            }
        }
        self.advance_turn(keys);
        proof {
            lemma_legal_move_listed(self.cells@, self.reserves@, self.turn.0 as int);
        }
        *self
    }
}

/// The hash update of a placement: one cell and one reserve change.
proof fn lemma_place_hash(keys: Seq<u64>, cells: Seq<u16>, res: Seq<u8>, p: int, dest: int, w: u16, v: u8, h: u64, c0: u64, c1: u64, r0: u64, r1: u64)
    requires
        cells.len() == 64,
        0 <= dest < 64,
        0 <= p < res.len(),
        c0 == cell_hash_spec(keys, dest, cells[dest]),
        c1 == cell_hash_spec(keys, dest, w),
        r0 == reserve_hash_spec(keys, p, res[p]),
        r1 == reserve_hash_spec(keys, p, v),
    ensures
        h == full_hash(keys, cells, res, p) ==> h ^ (((c0 ^ c1) ^ r0) ^ r1) == full_hash(
            keys,
            cells.update(dest, w),
            res.update(p, v),
            p,
        ),
{
    lemma_full_hash_cell(keys, cells, res, p, dest, w);
    lemma_full_hash_reserve(keys, cells.update(dest, w), res, p, p, v);
    lemma_xor4(h, c0, c1, r0, r1);
}

/// At most `s.len()` pieces of any color are counted.
proof fn lemma_count_color_bound(s: Seq<u8>, c: u8)
    ensures
        count_color(s, c) <= s.len(),
    decreases s.len(),
{
    if s.len() > 0 {
        lemma_count_color_bound(s.drop_last(), c);
    }
}

/// The search for the next capable player skips exactly the incapable
/// successors.
/// The player the turn passes to has a legal move, whenever the player
/// it passes from has one.
proof fn lemma_next_capable_has_move(cells: Seq<u16>, res: Seq<u8>, old: int, n: int, k: int)
    requires
        0 <= k <= n,
        has_legal_move(cells, res, old),
    ensures
        has_legal_move(cells, res, next_capable(cells, res, old, n, k)),
    decreases n - k,
{
    if k < n {
        lemma_next_capable_has_move(cells, res, old, n, k + 1);
    }
}

proof fn lemma_next_capable_step(cells: Seq<u16>, res: Seq<u8>, old: int, n: int, k: int)
    requires
        0 <= k < n,
    ensures
        has_legal_move(cells, res, (old + 1 + k) % n) ==> next_capable(cells, res, old, n, k) == (old + 1 + k) % n,
        !has_legal_move(cells, res, (old + 1 + k) % n) ==> next_capable(cells, res, old, n, k) == next_capable(cells, res, old, n, k + 1),
{
}

} // verus!

verus! {

proof fn lemma_run_from(i: int, d: int, c: int, h: int, j: int)
    requires
        c >= 1,
        c <= j < c + run_from(i, d, c, h),
    ensures
        step_ok(i, d, j),
        j <= h,
    decreases j - c,
{
    if j > c {
        lemma_run_from(i, d, c + 1, h, j);
    }
}

proof fn lemma_places_member(n: int, idx: int) -> (c: int)
    requires
        0 <= n <= 64,
        0 <= idx < places_upto(n).len(),
    ensures
        0 <= c < n,
        valid_cell(c),
        places_upto(n)[idx] == place_bits(c),
    decreases n,
{
    let prev = places_upto(n - 1);
    if idx < prev.len() {
        let c = lemma_places_member(n - 1, idx);
        assert(places_upto(n)[idx] == prev[idx]);
        c
    } else {
        n - 1
    }
}

proof fn lemma_slides_member(cells: Seq<u16>, p: int, n: int, idx: int) -> (r: (int, int, int))
    requires
        0 <= n <= 64,
        0 <= idx < slides_upto(cells, p, n).len(),
    ensures
        0 <= r.0 < n,
        0 <= r.1 < 4,
        controls(cells, r.0, p),
        0 <= r.2 < run_from(r.0, r.1, 1, height_of(cells[r.0])),
        slides_upto(cells, p, n)[idx] == slide_bits(r.0, r.1, r.2 + 1),
    decreases n,
{
    let prev = slides_upto(cells, p, n - 1);
    if idx < prev.len() {
        let r = lemma_slides_member(cells, p, n - 1, idx);
        assert(slides_upto(cells, p, n)[idx] == prev[idx]);
        r
    } else {
        let i = n - 1;
        let h = height_of(cells[i]);
        let x = idx - prev.len();
        let s0 = dir_slides(i, 0, h);
        let s1 = dir_slides(i, 1, h);
        let s2 = dir_slides(i, 2, h);
        let s3 = dir_slides(i, 3, h);
        assert(slides_upto(cells, p, n)[idx] == cell_slides(cells, p, i)[x]);
        if x < s0.len() {
            (i, 0, x)
        } else if x < s0.len() + s1.len() {
            (i, 1, x - s0.len())
        } else if x < s0.len() + s1.len() + s2.len() {
            (i, 2, x - s0.len() - s1.len())
        } else {
            (i, 3, x - s0.len() - s1.len() - s2.len())
        }
    }
}

/// Every move that `moves` generates is legal, so `apply` accepts it.
pub proof fn lemma_generated_moves_are_legal<const P: usize>(s: State<P>, b: u16)
    requires
        s.wf(),
        moves_of(s.cells@, s.reserves@, s.turn.0 as int).contains(b),
    ensures
        legal_move(s, b),
{
    let p = s.turn.0 as int;
    let all = moves_of(s.cells@, s.reserves@, p);
    let idx = choose|idx: int| 0 <= idx < all.len() && all[idx] == b;
    let places = if s.reserves@[p] > 0 {
        places_upto(64)
    } else {
        Seq::empty()
    };
    if idx < places.len() {
        let c = lemma_places_member(64, idx);
        assert(b == places[idx]);
        crate::focus::game::lemma_move_round_trip(c as u16, 0, 0);
    } else {
        let (i, d, k) = lemma_slides_member(s.cells@, p, 64, idx - places.len());
        assert(b == slides_upto(s.cells@, p, 64)[idx - places.len()]);
        let h = height_of(s.cells@[i]);
        lemma_run_from(i, d, 1, h, k + 1);
        lemma_height_bound(s.cells@[i]);
        crate::focus::game::lemma_move_round_trip(i as u16, d as u16, (k + 1) as u16);
        assert forall|j: int| 1 <= j <= k + 1 implies #[trigger] step_ok(i, d, j) by {
            lemma_run_from(i, d, 1, h, j);
        }
    }
}

} // verus!

verus! {

/// Starting layout (row, col, player) for the 2-player game.
fn layout2() -> (r: [(usize, usize, u8); 36])
    ensures
        forall|k: int| 0 <= k < 36 ==> (#[trigger] r@[k]).0 < 8 && r@[k].1 < 8 && r@[k].2 <= 3,
{
    [
        (1, 1, 0),
        (1, 2, 0),
        (1, 3, 1),
        (1, 4, 1),
        (1, 5, 0),
        (1, 6, 0),
        (2, 1, 1),
        (2, 2, 1),
        (2, 3, 0),
        (2, 4, 0),
        (2, 5, 1),
        (2, 6, 1),
        (3, 1, 0),
        (3, 2, 0),
        (3, 3, 1),
        (3, 4, 1),
        (3, 5, 0),
        (3, 6, 0),
        (4, 1, 1),
        (4, 2, 1),
        (4, 3, 0),
        (4, 4, 0),
        (4, 5, 1),
        (4, 6, 1),
        (5, 1, 0),
        (5, 2, 0),
        (5, 3, 1),
        (5, 4, 1),
        (5, 5, 0),
        (5, 6, 0),
        (6, 1, 1),
        (6, 2, 1),
        (6, 3, 0),
        (6, 4, 0),
        (6, 5, 1),
        (6, 6, 1),
    ]
}

/// Starting layout (row, col, player) for the 3-player game.
fn layout3() -> (r: [(usize, usize, u8); 36])
    ensures
        forall|k: int| 0 <= k < 36 ==> (#[trigger] r@[k]).0 < 8 && r@[k].1 < 8 && r@[k].2 <= 3,
{
    [
        (1, 1, 0),
        (1, 2, 0),
        (1, 3, 1),
        (1, 4, 1),
        (1, 5, 2),
        (1, 6, 2),
        (2, 1, 2),
        (2, 2, 2),
        (2, 3, 0),
        (2, 4, 0),
        (2, 5, 1),
        (2, 6, 1),
        (3, 1, 1),
        (3, 2, 1),
        (3, 3, 2),
        (3, 4, 2),
        (3, 5, 0),
        (3, 6, 0),
        (4, 1, 0),
        (4, 2, 0),
        (4, 3, 1),
        (4, 4, 1),
        (4, 5, 2),
        (4, 6, 2),
        (5, 1, 2),
        (5, 2, 2),
        (5, 3, 0),
        (5, 4, 0),
        (5, 5, 1),
        (5, 6, 1),
        (6, 1, 1),
        (6, 2, 1),
        (6, 3, 2),
        (6, 4, 2),
        (6, 5, 0),
        (6, 6, 0),
    ]
}

/// Starting layout (row, col, player) for the 4-player game.
fn layout4() -> (r: [(usize, usize, u8); 52])
    ensures
        forall|k: int| 0 <= k < 52 ==> (#[trigger] r@[k]).0 < 8 && r@[k].1 < 8 && r@[k].2 <= 3,
{
    [
        (0, 2, 0),
        (0, 3, 0),
        (0, 4, 2),
        (0, 5, 3),
        (1, 1, 3),
        (1, 2, 3),
        (1, 3, 3),
        (1, 4, 2),
        (1, 5, 3),
        (1, 6, 2),
        (2, 0, 0),
        (2, 1, 0),
        (2, 2, 0),
        (2, 3, 0),
        (2, 4, 2),
        (2, 5, 3),
        (2, 6, 2),
        (2, 7, 3),
        (3, 0, 3),
        (3, 1, 3),
        (3, 2, 3),
        (3, 3, 3),
        (3, 4, 2),
        (3, 5, 3),
        (3, 6, 2),
        (3, 7, 3),
        (4, 0, 1),
        (4, 1, 0),
        (4, 2, 1),
        (4, 3, 0),
        (4, 4, 1),
        (4, 5, 1),
        (4, 6, 1),
        (4, 7, 1),
        (5, 0, 1),
        (5, 1, 0),
        (5, 2, 1),
        (5, 3, 0),
        (5, 4, 2),
        (5, 5, 2),
        (5, 6, 2),
        (5, 7, 2),
        (6, 1, 0),
        (6, 2, 1),
        (6, 3, 0),
        (6, 4, 1),
        (6, 5, 1),
        (6, 6, 1),
        (7, 2, 1),
        (7, 3, 0),
        (7, 4, 2),
        (7, 5, 2),
    ]
}

/// The cells `base` after the first `n` layout entries `(row, col, color)`
/// each put a single piece of `color` on `row * 8 + col`, later entries
/// overwriting earlier ones.
spec fn laid_out(base: Seq<u16>, layout: Seq<(usize, usize, u8)>, n: int) -> Seq<u16>
    decreases n,
{
    if n <= 0 {
        base
    } else {
        let e = layout[n - 1];
        laid_out(base, layout, n - 1).update((e.0 * 8 + e.1) as int, (e.2 as u16) | (1u16 << 2u16))
    }
}

/// Places one single-piece stack per layout entry on an otherwise empty
/// board.
fn place_layout(cells: &mut [u16; 64], layout: &[(usize, usize, u8)])
    requires
        forall|k: int| 0 <= k < layout@.len() ==> (#[trigger] layout@[k]).0 < 8 && layout@[k].1 < 8
            && layout@[k].2 <= 3,
        forall|i: int| 0 <= i < 64 ==> (#[trigger] old(cells)@[i] == 0 || height_of(old(cells)@[i]) == 1),
    ensures
        final(cells)@ == laid_out(old(cells)@, layout@, layout@.len() as int),
        forall|i: int| 0 <= i < 64 ==> (#[trigger] final(cells)@[i] == 0 || height_of(final(cells)@[i]) == 1),
{
    let mut k: usize = 0;
    while k < layout.len()
        invariant
            k <= layout@.len(),
            cells@ == laid_out(old(cells)@, layout@, k as int),
            forall|x: int| 0 <= x < layout@.len() ==> (#[trigger] layout@[x]).0 < 8 && layout@[x].1 < 8
                && layout@[x].2 <= 3,
            forall|i: int| 0 <= i < 64 ==> (#[trigger] cells@[i] == 0 || height_of(cells@[i]) == 1),
        decreases layout@.len() - k,
    {
        let (row, col, pl) = layout[k];
        let w = make_cell(pl as u16, 1);
        proof {
            let c = pl as u16;
            assert(c >> 2u16 == 0) by (bit_vector)
                requires
                    c <= 3,
            ;
            assert(stack_of(w).len() == 1);
            assert(w == (pl as u16) | (1u16 << 2u16));
        }
        let ghost before = cells@;
        cells[row * 8 + col] = w;
        proof {
            assert(cells@ =~= laid_out(old(cells)@, layout@, k + 1));
        }
        k += 1;
    }
}

impl<const P: usize> State<P> {
    /// The starting position: each player's pieces laid out as single-piece
    /// stacks, empty reserves, player 0 to move.
    pub fn initial(keys: &[u64; HASHES_LEN]) -> (s: Self)
        requires
            2 <= P <= 4,
        ensures
            s.wf(),
            s.hash_synced(keys@),
            s.turn == Player(0),
            forall|p: int| 0 <= p < P ==> #[trigger] s.reserves@[p] == 0,
            forall|i: int| 0 <= i < 64 ==> (#[trigger] s.cells@[i] == 0 || height_of(s.cells@[i]) == 1),
    {
        let mut cells = [0u16; 64];
        if P == 2 {
            let layout = layout2();
            place_layout(&mut cells, &layout);
        } else if P == 3 {
            let layout = layout3();
            place_layout(&mut cells, &layout);
        } else {
            let layout = layout4();
            place_layout(&mut cells, &layout);
        }
        let mut state = State { cells, reserves: [0u8; P], turn: Player(0), hash: 0 };
        state.hash = state.recompute_hash(keys);
        state
    }
}

} // verus!
