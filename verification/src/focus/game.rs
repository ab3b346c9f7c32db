//! Focus positions: players, moves, move generation, terminal detection.
//!
//! On a turn a player either slides a stack they control (their color on
//! top) orthogonally exactly as many squares as pieces taken off its top
//! (1..=height), along a path that stays on the 52 playable cells, or places
//! one of their reserve pieces on any playable cell. A player with no legal
//! move is skipped; the game ends when at most one player can still move.

use vstd::prelude::*;
use crate::focus::cells::{
    cell_height, cell_top_color, color_field, height_of, is_valid_cell, stack_of, valid_cell,
    lemma_height_bound,
};

verus! {

#[derive(Clone, Copy, PartialEq, Eq, Debug)]
pub struct Player(pub u8);

/// The outcome of a position.
#[derive(Clone, Copy, PartialEq, Eq, Debug)]
pub enum TerminalStatus {
    NotTerminal,
    Winner(Player),
    Draw,
}

// ── Moves ───────────────────────────────────────────────────────────────

/// A move packed into a `u16`: bit 0 = is-slide, bits 1..7 = cell index,
/// and for a slide only, bits 7..9 = direction (0=N, 1=E, 2=S, 3=W) and
/// bits 9..12 = count.
#[derive(Clone, Copy, PartialEq, Eq, Hash, Debug)]
pub struct Move(u16);

impl View for Move {
    type V = u16;

    closed spec fn view(&self) -> u16 {
        self.0
    }
}

/// Bits of the placement of a reserve piece on cell `c`.
pub open spec fn place_bits(c: int) -> u16 {
    (c as u16) << 1u16
}

/// Bits of the slide of the top `count` pieces at `c` in direction `dir`.
pub open spec fn slide_bits(c: int, dir: int, count: int) -> u16 {
    1u16 | ((c as u16) << 1u16) | ((dir as u16) << 7u16) | ((count as u16) << 9u16)
}

pub open spec fn bits_is_slide(b: u16) -> bool {
    b & 1u16 != 0
}

pub open spec fn bits_cell(b: u16) -> u16 {
    (b >> 1u16) & 63u16
}

pub open spec fn bits_dir(b: u16) -> u16 {
    (b >> 7u16) & 3u16
}

pub open spec fn bits_count(b: u16) -> u16 {
    (b >> 9u16) & 7u16
}

/// Decoding an encoded move gives back the parts it was built from.
pub proof fn lemma_move_round_trip(c: u16, dir: u16, count: u16)
    by (bit_vector)
    requires
        c < 64,
        dir < 4,
        count < 8,
    ensures
        !bits_is_slide((c << 1u16)),
        bits_cell((c << 1u16)) == c,
        bits_is_slide(1u16 | (c << 1u16) | (dir << 7u16) | (count << 9u16)),
        bits_cell(1u16 | (c << 1u16) | (dir << 7u16) | (count << 9u16)) == c,
        bits_dir(1u16 | (c << 1u16) | (dir << 7u16) | (count << 9u16)) == dir,
        bits_count(1u16 | (c << 1u16) | (dir << 7u16) | (count << 9u16)) == count,
{
}

/// Every decoded field is in range.
pub proof fn lemma_bits_ranges(b: u16)
    by (bit_vector)
    ensures
        bits_cell(b) < 64,
        bits_dir(b) < 4,
        bits_count(b) < 8,
{
}

impl Move {
    /// The move's packed bits.
    pub fn bits(self) -> (r: u16)
        ensures
            r == self@,
    {
        self.0
    }

    /// The move with the given packed bits, as read off the wire.
    pub fn from_bits(bits: u16) -> (m: Move)
        ensures
            m@ == bits,
    {
        Move(bits)
    }

    /// Place a reserve piece on cell `c`.
    pub fn place(c: usize) -> (m: Move)
        requires
            c < 64,
        ensures
            m@ == place_bits(c as int),
            !bits_is_slide(m@),
            bits_cell(m@) == c,
    {
        proof {
            lemma_move_round_trip(c as u16, 0, 0);
        }
        Move((c as u16) << 1u16)
    }

    /// Slide the top `count` pieces of the stack at `c` exactly `count`
    /// squares in direction `dir` (0=N, 1=E, 2=S, 3=W).
    pub fn slide(c: usize, dir: usize, count: u32) -> (m: Move)
        requires
            c < 64,
            dir < 4,
            1 <= count <= 5,
        ensures
            m@ == slide_bits(c as int, dir as int, count as int),
            bits_is_slide(m@),
            bits_cell(m@) == c,
            bits_dir(m@) == dir,
            bits_count(m@) == count,
    {
        proof {
            lemma_move_round_trip(c as u16, dir as u16, count as u16);
        }
        Move(1u16 | ((c as u16) << 1u16) | ((dir as u16) << 7u16) | ((count as u16) << 9u16))
    }

    pub fn is_slide(self) -> (r: bool)
        ensures
            r == bits_is_slide(self@),
    {
        self.0 & 1 != 0
    }

    /// Placement cell, or the source cell of a slide.
    pub fn cell(self) -> (r: usize)
        ensures
            r == bits_cell(self@),
            r < 64,
    {
        proof {
            let b = self@;
            assert((b >> 1u16) & 63u16 < 64) by (bit_vector);
        }
        ((self.0 >> 1u16) & 63) as usize
    }

    pub fn dir(self) -> (r: usize)
        ensures
            r == bits_dir(self@),
            r < 4,
    {
        proof {
            let b = self@;
            assert((b >> 7u16) & 3u16 < 4) by (bit_vector);
        }
        ((self.0 >> 7u16) & 3) as usize
    }

    pub fn count(self) -> (r: u32)
        ensures
            r == bits_count(self@),
            r < 8,
    {
        proof {
            let b = self@;
            assert((b >> 9u16) & 7u16 < 8) by (bit_vector);
        }
        ((self.0 >> 9u16) & 7) as u32
    }
}

// ── Board steps ─────────────────────────────────────────────────────────

/// (row, col) reached from cell `i` after `c` steps in direction `dir`
/// (row 0 = top of the board).
pub open spec fn step_rc(i: int, dir: int, c: int) -> (int, int) {
    let r = i / 8;
    let col = i % 8;
    if dir == 0 {
        (r - c, col)
    } else if dir == 1 {
        (r, col + c)
    } else if dir == 2 {
        (r + c, col)
    } else {
        (r, col - c)
    }
}

/// Whether `c` steps from `i` in direction `dir` land on a playable cell.
pub open spec fn step_ok(i: int, dir: int, c: int) -> bool {
    let (r, col) = step_rc(i, dir, c);
    0 <= r < 8 && 0 <= col < 8 && valid_cell(r * 8 + col)
}

/// The cell index `c` steps from `i` in direction `dir`.
pub open spec fn step_target(i: int, dir: int, c: int) -> int {
    let (r, col) = step_rc(i, dir, c);
    r * 8 + col
}

/// The cell `count` steps from `i` in direction `dir`, if it is playable.
pub(crate) fn step(i: usize, dir: usize, count: u32) -> (r: Option<usize>)
    requires
        i < 64,
        dir < 4,
        count <= 8,
    ensures
        r is Some <==> step_ok(i as int, dir as int, count as int),
        r matches Some(t) ==> t == step_target(i as int, dir as int, count as int) && t < 64,
{
    let row = (i / 8) as i32;
    let col = (i % 8) as i32;
    let c = count as i32;
    let (r, k) = if dir == 0 {
        (row - c, col)
    } else if dir == 1 {
        (row, col + c)
    } else if dir == 2 {
        (row + c, col)
    } else {
        (row, col - c)
    };
    if 0 <= r && r < 8 && 0 <= k && k < 8 {
        let t = (r as usize) * 8 + (k as usize);
        if is_valid_cell(t) {
            return Some(t);
        }
    }
    None
}

/// Every playable cell has a playable orthogonal neighbor: the one toward
/// the middle rows.
pub proof fn lemma_valid_cell_has_neighbor(i: int)
    requires
        0 <= i < 64,
        valid_cell(i),
    ensures
        step_ok(i, if i / 8 <= 3 {
            2
        } else {
            0
        }, 1),
{
}

// ── Positions ───────────────────────────────────────────────────────────

/// Color of the top piece of a nonempty cell word.
pub open spec fn top_color(w: u16) -> u8 {
    color_field(w, height_of(w) - 1)
}

/// Player `p` has their color on top of cell `i`.
pub open spec fn controls(cells: Seq<u16>, i: int, p: int) -> bool {
    cells[i] != 0 && top_color(cells[i]) == p
}

/// Player `p` has a legal move: a reserve piece (placeable on any playable
/// cell), or a controlled cell with a playable orthogonal neighbor.
pub open spec fn has_legal_move(cells: Seq<u16>, reserves: Seq<u8>, p: int) -> bool {
    ||| reserves[p] > 0
    ||| exists|i: int, d: int|
        0 <= i < 64 && 0 <= d < 4 && #[trigger] controls(cells, i, p) && #[trigger] step_ok(i, d, 1)
}

/// Number of players below `n` that still have a legal move.
pub open spec fn capable_count(cells: Seq<u16>, reserves: Seq<u8>, n: int) -> nat
    decreases n,
{
    if n <= 0 {
        0
    } else {
        capable_count(cells, reserves, n - 1) + if has_legal_move(cells, reserves, n - 1) {
            1nat
        } else {
            0nat
        }
    }
}

/// Number of consecutive playable steps from `i` in direction `dir`,
/// starting at step `c`, that a stack of height `h` can take.
pub open spec fn run_from(i: int, dir: int, c: int, h: int) -> nat
    decreases h + 1 - c,
{
    if c > h || c < 1 || !step_ok(i, dir, c) {
        0
    } else {
        1 + run_from(i, dir, c + 1, h)
    }
}

/// Slides from `i` in direction `dir` for a stack of height `h`, by
/// increasing count.
pub open spec fn dir_slides(i: int, dir: int, h: int) -> Seq<u16> {
    Seq::new(run_from(i, dir, 1, h), |k: int| slide_bits(i, dir, k + 1))
}

/// Slides available to player `p` from cell `i`, by direction then count.
pub open spec fn cell_slides(cells: Seq<u16>, p: int, i: int) -> Seq<u16> {
    if controls(cells, i, p) {
        let h = height_of(cells[i]);
        dir_slides(i, 0, h) + dir_slides(i, 1, h) + dir_slides(i, 2, h) + dir_slides(i, 3, h)
    } else {
        Seq::empty()
    }
}

/// Slides available to player `p` from the cells below `n`, by cell.
pub open spec fn slides_upto(cells: Seq<u16>, p: int, n: int) -> Seq<u16>
    decreases n,
{
    if n <= 0 {
        Seq::empty()
    } else {
        slides_upto(cells, p, n - 1) + cell_slides(cells, p, n - 1)
    }
}

/// Placements on the playable cells below `n`, by cell.
pub open spec fn places_upto(n: int) -> Seq<u16>
    decreases n,
{
    if n <= 0 {
        Seq::empty()
    } else {
        places_upto(n - 1) + if valid_cell(n - 1) {
            seq![place_bits(n - 1)]
        } else {
            Seq::empty()
        }
    }
}

/// Every legal move of player `p`, in generation order: placements first
/// (when `p` holds a reserve piece), then slides by cell, direction, count.
pub open spec fn moves_of(cells: Seq<u16>, reserves: Seq<u8>, p: int) -> Seq<u16> {
    (if reserves[p] > 0 {
        places_upto(64)
    } else {
        Seq::empty()
    }) + slides_upto(cells, p, 64)
}

/// The bits of a sequence of moves.
pub open spec fn move_bits(s: Seq<Move>) -> Seq<u16> {
    s.map_values(|m: Move| m@)
}

#[derive(Clone, Copy, Debug, PartialEq, Eq)]
pub struct State<const P: usize> {
    /// One packed stack word per board index (`row * 8 + col`).
    pub cells: [u16; 64],
    /// Off-board pieces available to place, per player.
    pub reserves: [u8; P],
    /// Player to move.
    pub turn: Player,
    /// Incremental hash, kept in sync by `apply`.
    pub hash: u64,
}

impl<const P: usize> State<P> {
    /// Every nonempty cell holds a stack of 1 to 5 pieces, and the player to
    /// move is one of the `P` players.
    pub open spec fn wf(&self) -> bool {
        &&& forall|i: int| 0 <= i < 64 ==> (#[trigger] self.cells@[i] == 0 || 1 <= height_of(
            self.cells@[i],
        ) <= 5)
        &&& self.turn.0 < P
    }

    /// Whether player `p` has any legal move.
    pub(crate) fn player_has_legal_move(&self, p: usize) -> (r: bool)
        requires
            self.wf(),
            p < P,
            P <= 256,
        ensures
            r == has_legal_move(self.cells@, self.reserves@, p as int),
    {
        if self.reserves[p] > 0 {
            return true;
        }
        let mut i: usize = 0;
        while i < 64
            invariant
                self.wf(),
                p < P,
                P <= 256,
                i <= 64,
                self.reserves@[p as int] == 0,
                forall|x: int, d: int|
                    0 <= x < i && 0 <= d < 4 ==> !(#[trigger] controls(self.cells@, x, p as int)
                        && #[trigger] step_ok(x, d, 1)),
            decreases 64 - i,
        {
            let w = self.cells[i];
            if w != 0 {
                let top = cell_top_color(w);
                if top == p as u8 {
                    let mut d: usize = 0;
                    while d < 4
                        invariant
                            i < 64,
                            d <= 4,
                            controls(self.cells@, i as int, p as int),
                            forall|e: int| 0 <= e < d ==> !step_ok(i as int, e, 1),
                        decreases 4 - d,
                    {
                        if step(i, d, 1).is_some() {
                            return true;
                        }
                        d += 1;
                    }
                }
            }
            i += 1;
        }
        false
    }

    /// The outcome: `NotTerminal` while 2+ players still have a legal move,
    /// `Winner` when exactly one does, `Draw` if none do.
    pub fn terminal_status(&self) -> (r: TerminalStatus)
        requires
            self.wf(),
            P <= 256,
        ensures
            capable_count(self.cells@, self.reserves@, P as int) == 0 ==> r == TerminalStatus::Draw,
            capable_count(self.cells@, self.reserves@, P as int) == 1 ==> (r matches TerminalStatus::Winner(
                w,
            ) && w.0 < P && has_legal_move(self.cells@, self.reserves@, w.0 as int) && forall|q: int|
                0 <= q < P && q != w.0 ==> !has_legal_move(self.cells@, self.reserves@, q)),
            capable_count(self.cells@, self.reserves@, P as int) >= 2 ==> r
                == TerminalStatus::NotTerminal,
    {
        let mut capable: usize = 0;
        let mut count: usize = 0;
        let mut p: usize = 0;
        while p < P
            invariant
                self.wf(),
                P <= 256,
                p <= P,
                count == capable_count(self.cells@, self.reserves@, p as int),
                count <= p,
                count >= 1 ==> capable < p && has_legal_move(self.cells@, self.reserves@, capable as int),
                count == 1 ==> forall|q: int|
                    0 <= q < p && q != capable ==> !has_legal_move(self.cells@, self.reserves@, q),
                count == 0 ==> forall|q: int| 0 <= q < p ==> !has_legal_move(self.cells@, self.reserves@, q),
            decreases P - p,
        {
            if self.player_has_legal_move(p) {
                count += 1;
                capable = p;
            }
            p += 1;
        }
        if count == 0 {
            TerminalStatus::Draw
        } else if count == 1 {
            TerminalStatus::Winner(Player(capable as u8))
        } else {
            TerminalStatus::NotTerminal
        }
    }

    /// Appends every legal move of the player to move, in generation order.
    pub fn moves(&self, out: &mut Vec<Move>)
        requires
            self.wf(),
        ensures
            move_bits(final(out)@) == move_bits(old(out)@) + moves_of(
                self.cells@,
                self.reserves@,
                self.turn.0 as int,
            ),
    {
        let p = self.turn.0;
        let ghost pi = p as int;
        let ghost base = move_bits(old(out)@);
        if self.reserves[p as usize] > 0 {
            let mut i: usize = 0;
            while i < 64
                invariant
                    i <= 64,
                    move_bits(out@) == base + places_upto(i as int),
                decreases 64 - i,
            {
                let ghost before = out@;
                if is_valid_cell(i) {
                    let m = Move::place(i);
                    out.push(m);
                    proof {
                        assert(out@ == before.push(m));
                        assert(move_bits(out@) =~= move_bits(before).push(m@));
                        assert(move_bits(out@) =~= move_bits(before) + seq![place_bits(i as int)]);
                    }
                }
                proof {
                    assert(places_upto(i + 1) == places_upto(i as int) + if valid_cell(i as int) {
                        seq![place_bits(i as int)]
                    } else {
                        Seq::empty()
                    });
                    assert(move_bits(out@) =~= base + places_upto(i + 1));
                }
                i += 1;
            }
        }
        let ghost placed = move_bits(out@);
        proof {
            assert(placed == base + (if self.reserves@[pi] > 0 {
                places_upto(64)
            } else {
                Seq::empty()
            })) by {
                if !(self.reserves@[pi] > 0) {
                    assert(placed =~= base + Seq::<u16>::empty());
                }
            }
        }
        let mut i: usize = 0;
        while i < 64
            invariant
                self.wf(),
                i <= 64,
                p == self.turn.0,
                pi == p as int,
                move_bits(out@) == placed + slides_upto(self.cells@, pi, i as int),
            decreases 64 - i,
        {
            let w = self.cells[i];
            let ghost at_cell = move_bits(out@);
            if w != 0 && cell_top_color(w) == p {
                let h = cell_height(w);
                let mut dir: usize = 0;
                while dir < 4
                    invariant
                        i < 64,
                        dir <= 4,
                        1 <= h <= 5,
                        h == height_of(w),
                        w == self.cells@[i as int],
                        controls(self.cells@, i as int, pi),
                        move_bits(out@) == at_cell + (if dir == 0 {
                            Seq::empty()
                        } else if dir == 1 {
                            dir_slides(i as int, 0, h as int)
                        } else if dir == 2 {
                            dir_slides(i as int, 0, h as int) + dir_slides(i as int, 1, h as int)
                        } else if dir == 3 {
                            dir_slides(i as int, 0, h as int) + dir_slides(i as int, 1, h as int)
                                + dir_slides(i as int, 2, h as int)
                        } else {
                            dir_slides(i as int, 0, h as int) + dir_slides(i as int, 1, h as int)
                                + dir_slides(i as int, 2, h as int) + dir_slides(
                                i as int,
                                3,
                                h as int,
                            )
                        }),
                    decreases 4 - dir,
                {
                    let ghost at_dir = move_bits(out@);
                    let mut count: u32 = 1;
                    while count <= h
                        invariant
                            i < 64,
                            dir < 4,
                            1 <= count <= h + 1,
                            1 <= h <= 5,
                            run_from(i as int, dir as int, 1, h as int) == (count - 1) + run_from(
                                i as int,
                                dir as int,
                                count as int,
                                h as int,
                            ),
                            move_bits(out@) == at_dir + Seq::new(
                                (count - 1) as nat,
                                |k: int| slide_bits(i as int, dir as int, k + 1),
                            ),
                        ensures
                            1 <= count <= h + 1,
                            run_from(i as int, dir as int, 1, h as int) == (count - 1) + run_from(
                                i as int,
                                dir as int,
                                count as int,
                                h as int,
                            ),
                            move_bits(out@) == at_dir + Seq::new(
                                (count - 1) as nat,
                                |k: int| slide_bits(i as int, dir as int, k + 1),
                            ),
                            run_from(i as int, dir as int, count as int, h as int) == 0,
                        decreases h + 1 - count,
                    {
                        if step(i, dir, count).is_none() {
                            break;
                        }
                        let ghost before = out@;
                        let m = Move::slide(i, dir, count);
                        out.push(m);
                        proof {
                            assert(out@ == before.push(m));
                            assert(move_bits(out@) =~= move_bits(before).push(m@));
                            assert(move_bits(out@) =~= at_dir + Seq::new(
                                count as nat,
                                |k: int| slide_bits(i as int, dir as int, k + 1),
                            ));
                        }
                        count += 1;
                    }
                    proof {
                        assert(run_from(i as int, dir as int, count as int, h as int) == 0);
                        assert(move_bits(out@) =~= at_dir + dir_slides(i as int, dir as int, h as int));
                    }
                    dir += 1;
                }
                proof {
                    lemma_height_bound(w);
                    assert(move_bits(out@) =~= at_cell + cell_slides(self.cells@, pi, i as int));
                }
            } else {
                proof {
                    assert(!controls(self.cells@, i as int, pi));
                    assert(move_bits(out@) =~= at_cell + cell_slides(self.cells@, pi, i as int));
                }
            }
            proof {
                assert(slides_upto(self.cells@, pi, i + 1) == slides_upto(self.cells@, pi, i as int)
                    + cell_slides(self.cells@, pi, i as int));
                assert(move_bits(out@) =~= placed + slides_upto(self.cells@, pi, i + 1));
            }
            i += 1;
        }
        proof {
            assert(move_bits(out@) =~= base + moves_of(self.cells@, self.reserves@, pi));
        }
    }
}

} // verus!

verus! {

/// Placements below `n` include those below any `m <= n`.
proof fn lemma_places_grow(m: int, n: int)
    requires
        0 <= m <= n,
    ensures
        places_upto(m).len() <= places_upto(n).len(),
    decreases n - m,
{
    if m < n {
        lemma_places_grow(m, n - 1);
    }
}

/// Slides below `n` include those from any cell `i < n`.
proof fn lemma_slides_grow(cells: Seq<u16>, p: int, i: int, n: int)
    requires
        0 <= i < n,
    ensures
        cell_slides(cells, p, i).len() <= slides_upto(cells, p, n).len(),
    decreases n - i,
{
    if i < n - 1 {
        lemma_slides_grow(cells, p, i, n - 1);
    }
}

/// A player with a legal move has a nonempty move list.
pub proof fn lemma_legal_move_listed(cells: Seq<u16>, reserves: Seq<u8>, p: int)
    requires
        cells.len() == 64,
        0 <= p < reserves.len(),
        forall|i: int| 0 <= i < 64 ==> (#[trigger] cells[i] == 0 || 1 <= height_of(cells[i])),
        has_legal_move(cells, reserves, p),
    ensures
        moves_of(cells, reserves, p).len() > 0,
{
    if reserves[p] > 0 {
        reveal_with_fuel(places_upto, 4);
        assert(valid_cell(2));
        assert(places_upto(3).len() > 0);
        lemma_places_grow(3, 64);
    } else {
        let (i, d) = choose|i: int, d: int|
            0 <= i < 64 && 0 <= d < 4 && #[trigger] controls(cells, i, p) && #[trigger] step_ok(i, d, 1);
        let h = height_of(cells[i]);
        assert(cells[i] != 0);
        assert(h >= 1);
        assert(run_from(i, d, 1, h) >= 1);
        assert(dir_slides(i, d, h).len() >= 1);
        assert(cell_slides(cells, p, i).len() >= 1);
        lemma_slides_grow(cells, p, i, 64);
    }
}

} // verus!
