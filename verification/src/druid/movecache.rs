//! Per-color legality bits (`MoveCache`) kept alongside a position, so the
//! legal placements can be read instead of recomputed each turn. Hand
//! counts are not part of it: they are checked when moves are listed.

use vstd::prelude::*;
use crate::druid::state::{lintel_cell, lintel_fits, lintel_ok, lintel_step, sarsen_ok, State};
use crate::druid::types::{Orientation, Player, Pos, Size, Square};

verus! {

/// Whether some entry of `v` is set.
pub open spec fn any_set(v: Seq<bool>) -> bool {
    exists|i: int| 0 <= i < v.len() && #[trigger] v[i]
}

/// One color's legality bits: `sarsen[i]` for a sarsen on cell `i`,
/// `lintel_h[i]` and `lintel_v[i]` for a lintel anchored at `i`, plus
/// whether any of each is set.
#[derive(Clone, Debug)]
pub struct MoveCandidates {
    pub sarsen: Vec<bool>,
    pub lintel_h: Vec<bool>,
    pub lintel_v: Vec<bool>,
    pub sarsen_any: bool,
    pub lintel_h_any: bool,
    pub lintel_v_any: bool,
}

/// The lintel bits of one orientation.
pub open spec fn lintel_bits(c: MoveCandidates, o: Orientation) -> Seq<bool> {
    match o {
        Orientation::Horizontal => c.lintel_h@,
        Orientation::Vertical => c.lintel_v@,
    }
}

impl MoveCandidates {
    /// The bits and flags are exactly `color`'s legal placements on `s`'s
    /// board.
    pub open spec fn reflects(&self, board: Seq<Square>, size: Size, color: Player) -> bool {
        &&& self.sarsen@.len() == board.len()
        &&& self.lintel_h@.len() == board.len()
        &&& self.lintel_v@.len() == board.len()
        &&& forall|i: int| 0 <= i < board.len() ==> #[trigger] self.sarsen@[i] == sarsen_ok(board, i, color)
        &&& forall|i: int| 0 <= i < board.len() ==> #[trigger] self.lintel_h@[i] == lintel_ok(board, size, i, Orientation::Horizontal, color)
        &&& forall|i: int| 0 <= i < board.len() ==> #[trigger] self.lintel_v@[i] == lintel_ok(board, size, i, Orientation::Vertical, color)
        &&& self.sarsen_any == any_set(self.sarsen@)
        &&& self.lintel_h_any == any_set(self.lintel_h@)
        &&& self.lintel_v_any == any_set(self.lintel_v@)
    }

    /// All bits clear, for a board of `area` cells.
    fn new(area: usize) -> (r: MoveCandidates)
        ensures
            r.sarsen@ == Seq::new(area as nat, |i: int| false),
            r.lintel_h@ == Seq::new(area as nat, |i: int| false),
            r.lintel_v@ == Seq::new(area as nat, |i: int| false),
    {
        MoveCandidates {
            sarsen: falses(area),
            lintel_h: falses(area),
            lintel_v: falses(area),
            sarsen_any: false,
            lintel_h_any: false,
            lintel_v_any: false,
        }
    }

    /// Whether a sarsen on cell `i` is legal.
    pub fn sarsen(&self, i: usize) -> (r: bool)
        requires
            i < self.sarsen@.len(),
        ensures
            r == self.sarsen@[i as int],
    {
        self.sarsen[i]
    }

    /// Whether a lintel of `orientation` anchored at `i` is legal.
    pub fn lintel(&self, orientation: Orientation, i: usize) -> (r: bool)
        requires
            i < lintel_bits(*self, orientation).len(),
        ensures
            r == lintel_bits(*self, orientation)[i as int],
    {
        match orientation {
            Orientation::Horizontal => self.lintel_h[i],
            Orientation::Vertical => self.lintel_v[i],
        }
    }

    /// Whether any sarsen is legal.
    pub fn has_any_sarsen(&self) -> (r: bool)
        ensures
            r == self.sarsen_any,
    {
        self.sarsen_any
    }

    /// Whether any lintel is legal.
    pub fn has_any_lintel(&self) -> (r: bool)
        ensures
            r == (self.lintel_h_any || self.lintel_v_any),
    {
        self.lintel_h_any || self.lintel_v_any
    }

    /// Whether any lintel of orientation `o` is legal.
    pub fn has_any_lintel_orient(&self, o: Orientation) -> (r: bool)
        ensures
            r == (match o {
                Orientation::Horizontal => self.lintel_h_any,
                Orientation::Vertical => self.lintel_v_any,
            }),
    {
        match o {
            Orientation::Horizontal => self.lintel_h_any,
            Orientation::Vertical => self.lintel_v_any,
        }
    }

    /// Recompute the three "any" flags from the bits.
    fn refresh_flags(&mut self)
        ensures
            final(self).sarsen@ == old(self).sarsen@,
            final(self).lintel_h@ == old(self).lintel_h@,
            final(self).lintel_v@ == old(self).lintel_v@,
            final(self).sarsen_any == any_set(final(self).sarsen@),
            final(self).lintel_h_any == any_set(final(self).lintel_h@),
            final(self).lintel_v_any == any_set(final(self).lintel_v@),
    {
        self.sarsen_any = any_true(&self.sarsen);
        self.lintel_h_any = any_true(&self.lintel_h);
        self.lintel_v_any = any_true(&self.lintel_v);
    }
}

/// `n` clear bits.
fn falses(n: usize) -> (r: Vec<bool>)
    ensures
        r@ == Seq::new(n as nat, |i: int| false),
{
    let mut v: Vec<bool> = Vec::new();
    let mut i: usize = 0;
    while i < n
        invariant
            i <= n,
            v@ == Seq::new(i as nat, |k: int| false),
        decreases n - i,
    {
        v.push(false);
        proof {
            assert(v@ =~= Seq::new((i + 1) as nat, |k: int| false));
        }
        i += 1;
    }
    v
}

/// Whether some entry is set.
fn any_true(v: &Vec<bool>) -> (r: bool)
    ensures
        r == any_set(v@),
{
    let mut i: usize = 0;
    while i < v.len()
        invariant
            i <= v@.len(),
            forall|k: int| 0 <= k < i ==> !#[trigger] v@[k],
        decreases v@.len() - i,
    {
        if v[i] {
            return true;
        }
        i += 1;
    }
    false
}

/// Whether the lintel anchored at `a` fits and covers one of `cells`.
pub open spec fn lintel_touched(size: Size, a: int, o: Orientation, cells: Seq<usize>) -> bool {
    lintel_fits(size, a, o) && exists|k: int, t: int|
        0 <= k < 3 && 0 <= t < cells.len() && #[trigger] lintel_cell(size, a, o, k) == #[trigger] cells[t] as int
}

/// The legality bits and flags of both colors.
#[derive(Clone, Debug)]
pub struct MoveCache {
    pub black: MoveCandidates,
    pub white: MoveCandidates,
}

impl MoveCache {
    /// Both colors' bits are exactly their legal placements on `s`.
    pub open spec fn reflects(&self, s: State) -> bool {
        &&& self.black.reflects(s.board@, s.size, Player::Black)
        &&& self.white.reflects(s.board@, s.size, Player::White)
    }

    /// The cache of a position, computed from scratch.
    pub fn new(state: &State) -> (r: MoveCache)
        requires
            state.wf(),
        ensures
            r.reflects(*state),
    {
        let area = state.board.len();
        let mut cache = MoveCache { black: MoveCandidates::new(area), white: MoveCandidates::new(area) };
        cache.rebuild(state);
        cache
    }

    /// `color`'s bits.
    pub fn candidates(&self, color: Player) -> (r: &MoveCandidates)
        ensures
            *r == (match color {
                Player::Black => self.black,
                Player::White => self.white,
            }),
    {
        match color {
            Player::Black => &self.black,
            Player::White => &self.white,
        }
    }

    /// Recompute `c`'s bits for `color` against `state` from scratch.
    fn rebuild_color(c: &mut MoveCandidates, state: &State, color: Player)
        requires
            state.wf(),
            old(c).sarsen@.len() == state.board@.len(),
            old(c).lintel_h@.len() == state.board@.len(),
            old(c).lintel_v@.len() == state.board@.len(),
        ensures
            final(c).reflects(state.board@, state.size, color),
    {
        let area = state.board.len();
        let mut i: usize = 0;
        while i < area
            invariant
                state.wf(),
                area == state.board@.len(),
                i <= area,
                c.sarsen@.len() == area,
                c.lintel_h@.len() == area,
                c.lintel_v@.len() == area,
                forall|k: int| 0 <= k < i ==> #[trigger] c.sarsen@[k] == sarsen_ok(state.board@, k, color),
                forall|k: int| 0 <= k < i ==> #[trigger] c.lintel_h@[k] == lintel_ok(state.board@, state.size, k, Orientation::Horizontal, color),
                forall|k: int| 0 <= k < i ==> #[trigger] c.lintel_v@[k] == lintel_ok(state.board@, state.size, k, Orientation::Vertical, color),
            decreases area - i,
        {
            let sv = state.sarsen_legal_at(i, color);
            c.sarsen.set(i, sv);
            let hv = state.lintel_legal_at(i, Orientation::Horizontal, color).is_some();
            c.lintel_h.set(i, hv);
            let vv = state.lintel_legal_at(i, Orientation::Vertical, color).is_some();
            c.lintel_v.set(i, vv);
            i += 1;
        }
        c.refresh_flags();
    }

    /// Full from-scratch recompute against `state`'s board.
    pub fn rebuild(&mut self, state: &State)
        requires
            state.wf(),
            old(self).black.sarsen@.len() == state.board@.len(),
            old(self).black.lintel_h@.len() == state.board@.len(),
            old(self).black.lintel_v@.len() == state.board@.len(),
            old(self).white.sarsen@.len() == state.board@.len(),
            old(self).white.lintel_h@.len() == state.board@.len(),
            old(self).white.lintel_v@.len() == state.board@.len(),
        ensures
            final(self).reflects(*state),
    {
        Self::rebuild_color(&mut self.black, state, Player::Black);
        Self::rebuild_color(&mut self.white, state, Player::White);
    }
}

/// The bits of `c` are right for `color` on `board` wherever the placement
/// does not involve one of `cells`.
pub open spec fn agrees_outside(c: MoveCandidates, board: Seq<Square>, size: Size, color: Player, cells: Seq<usize>) -> bool {
    &&& c.sarsen@.len() == board.len()
    &&& c.lintel_h@.len() == board.len()
    &&& c.lintel_v@.len() == board.len()
    &&& forall|i: int| 0 <= i < board.len() && !cells.contains(i as usize) ==> #[trigger] c.sarsen@[i] == sarsen_ok(board, i, color)
    &&& forall|i: int|
        0 <= i < board.len() && !lintel_touched(size, i, Orientation::Horizontal, cells) ==> #[trigger] c.lintel_h@[i]
            == lintel_ok(board, size, i, Orientation::Horizontal, color)
    &&& forall|i: int|
        0 <= i < board.len() && !lintel_touched(size, i, Orientation::Vertical, cells) ==> #[trigger] c.lintel_v@[i]
            == lintel_ok(board, size, i, Orientation::Vertical, color)
}

/// A placement's legality reads only the cells it covers: bits right for
/// one board stay right, on another board of the same size, for every
/// placement that covers none of the cells where the boards differ.
pub proof fn lemma_cache_locality(
    c: MoveCandidates,
    old_board: Seq<Square>,
    new_board: Seq<Square>,
    size: Size,
    color: Player,
    cells: Seq<usize>,
)
    requires
        size.w >= 1,
        old_board.len() == size.w * size.h,
        old_board.len() <= u8::MAX,
        new_board.len() == old_board.len(),
        c.reflects(old_board, size, color),
        forall|i: int| 0 <= i < old_board.len() && !cells.contains(i as usize) ==> #[trigger] new_board[i] == old_board[i],
    ensures
        agrees_outside(c, new_board, size, color, cells),
{
    assert forall|i: int|
        0 <= i < new_board.len() && !lintel_touched(size, i, Orientation::Horizontal, cells) implies #[trigger] c.lintel_h@[i]
        == lintel_ok(new_board, size, i, Orientation::Horizontal, color) by {
        lemma_untouched_lintel(old_board, new_board, size, color, cells, i, Orientation::Horizontal);
    }
    assert forall|i: int|
        0 <= i < new_board.len() && !lintel_touched(size, i, Orientation::Vertical, cells) implies #[trigger] c.lintel_v@[i]
        == lintel_ok(new_board, size, i, Orientation::Vertical, color) by {
        lemma_untouched_lintel(old_board, new_board, size, color, cells, i, Orientation::Vertical);
    }
}

/// A fitting lintel covers on-board cells.
pub(crate) proof fn lemma_lintel_cells_on_board(size: Size, a: int, o: Orientation)
    requires
        size.w >= 1,
        0 <= a < size.w * size.h,
        lintel_fits(size, a, o),
    ensures
        forall|k: int| 0 <= k < 3 ==> 0 <= #[trigger] lintel_cell(size, a, o, k) < size.w * size.h,
{
    let w = size.w as int;
    let h = size.h as int;
    assert(w * h == h * w) by (nonlinear_arith);
    crate::grid::lemma_grid_split(a, h, w);
    let x = a % w;
    let y = a / w;
    match o {
        Orientation::Horizontal => {
            crate::grid::lemma_grid_pack(y, x + 2, h, w);
        },
        Orientation::Vertical => {
            crate::grid::lemma_grid_pack(y + 2, x, h, w);
            assert((y + 2) * w + x == a + 2 * w) by (nonlinear_arith)
                requires
                    a == y * w + x,
            ;
        },
    }
}

/// A lintel covering none of the changed cells is as legal as before.
proof fn lemma_untouched_lintel(
    old_board: Seq<Square>,
    new_board: Seq<Square>,
    size: Size,
    color: Player,
    cells: Seq<usize>,
    a: int,
    o: Orientation,
)
    requires
        size.w >= 1,
        old_board.len() == size.w * size.h,
        old_board.len() <= u8::MAX,
        new_board.len() == old_board.len(),
        0 <= a < old_board.len(),
        !lintel_touched(size, a, o, cells),
        forall|i: int| 0 <= i < old_board.len() && !cells.contains(i as usize) ==> #[trigger] new_board[i] == old_board[i],
    ensures
        lintel_ok(new_board, size, a, o, color) == lintel_ok(old_board, size, a, o, color),
{
    if lintel_fits(size, a, o) {
        lemma_lintel_cells_on_board(size, a, o);
        assert forall|k: int| 0 <= k < 3 implies #[trigger] new_board[lintel_cell(size, a, o, k)] == old_board[lintel_cell(size, a, o, k)] by {
            let c = lintel_cell(size, a, o, k);
            if cells.contains(c as usize) {
                let t = choose|t: int| 0 <= t < cells.len() && cells[t] == c as usize;
                assert(lintel_cell(size, a, o, k) == cells[t] as int);
            }
        }
        let d = lintel_step(size, o);
        assert(new_board[a] == old_board[a]) by {
            assert(lintel_cell(size, a, o, 0) == a);
        }
        assert(new_board[a + d] == old_board[a + d]) by {
            assert(lintel_cell(size, a, o, 1) == a + d);
        }
        assert(new_board[a + 2 * d] == old_board[a + 2 * d]) by {
            assert(lintel_cell(size, a, o, 2) == a + 2 * d);
        }
    }
}

/// The anchor of a fitting lintel whose cell `k` is `j` is `k` steps back
/// from `j` along the lintel's direction.
proof fn lemma_anchor_of_cell(size: Size, a: int, o: Orientation, k: int, j: int)
    requires
        size.w >= 1,
        0 <= a < size.w * size.h,
        0 <= k < 3,
        lintel_fits(size, a, o),
        lintel_cell(size, a, o, k) == j,
    ensures
        ({
            let w = size.w as int;
            let (dx, dy) = crate::druid::types::delta_of(o);
            let kx = if dx == 1 { k } else { 0 };
            let ky = if dy == 1 { k } else { 0 };
            &&& j % w >= kx
            &&& j / w >= ky
            &&& a == (j / w - ky) * w + (j % w - kx)
        }),
{
    let w = size.w as int;
    let h = size.h as int;
    assert(w * h == h * w) by (nonlinear_arith);
    crate::grid::lemma_grid_split(a, h, w);
    let x = a % w;
    let y = a / w;
    if o == Orientation::Horizontal {
        assert(j == a + k);
        crate::grid::lemma_grid_pack(y, x + k, h, w);
        assert(j == y * w + (x + k));
    } else {
        assert(j == a + k * w) by {
            if k == 0 {
            } else if k == 1 {
            } else {
                assert(2 * w == k * w);
            }
        }
        assert((y + k) * w + x == a + k * w) by (nonlinear_arith)
            requires
                a == y * w + x,
        ;
        crate::grid::lemma_grid_pack(y + k, x, h, w);
    }
}

impl MoveCache {
    /// Recheck, for both colors, the lintels of orientation `o` that could
    /// cover cell `j`: the anchors `j`, one step back and two steps back.
    fn recheck_lintels(&mut self, state: &State, j: usize, o: Orientation)
        requires
            state.wf(),
            j < state.board@.len(),
            lintel_bits(old(self).black, o).len() == state.board@.len(),
            lintel_bits(old(self).white, o).len() == state.board@.len(),
        ensures
            final(self).black.sarsen == old(self).black.sarsen,
            final(self).white.sarsen == old(self).white.sarsen,
            lintel_bits(final(self).black, o).len() == state.board@.len(),
            lintel_bits(final(self).white, o).len() == state.board@.len(),
            o == Orientation::Horizontal ==> final(self).black.lintel_v == old(self).black.lintel_v && final(self).white.lintel_v == old(self).white.lintel_v,
            o == Orientation::Vertical ==> final(self).black.lintel_h == old(self).black.lintel_h && final(self).white.lintel_h == old(self).white.lintel_h,
            forall|a: int| 0 <= a < state.board@.len() ==> {
                ||| #[trigger] lintel_bits(final(self).black, o)[a] == lintel_bits(old(self).black, o)[a]
                ||| lintel_bits(final(self).black, o)[a] == lintel_ok(state.board@, state.size, a, o, Player::Black)
            },
            forall|a: int| 0 <= a < state.board@.len() ==> {
                ||| #[trigger] lintel_bits(final(self).white, o)[a] == lintel_bits(old(self).white, o)[a]
                ||| lintel_bits(final(self).white, o)[a] == lintel_ok(state.board@, state.size, a, o, Player::White)
            },
            forall|a: int, k: int|
                0 <= a < state.board@.len() && 0 <= k < 3 && lintel_fits(state.size, a, o) && #[trigger] lintel_cell(
                    state.size,
                    a,
                    o,
                    k,
                ) == j ==> lintel_bits(final(self).black, o)[a] == lintel_ok(state.board@, state.size, a, o, Player::Black)
                    && lintel_bits(final(self).white, o)[a] == lintel_ok(state.board@, state.size, a, o, Player::White),
    {
        let ghost board = state.board@;
        let ghost size = state.size;
        let ghost old_self = *self;
        let w = state.size.w as usize;
        let h = state.size.h as usize;
        let area = state.board.len();
        proof {
            assert(state.size.w * state.size.h <= 127) by (nonlinear_arith)
                requires
                    2 * state.size.w * state.size.h <= 255,
            ;
            assert(w * h == h * w) by (nonlinear_arith);
            crate::grid::lemma_grid_split(j as int, h as int, w as int);
        }
        let jx = j % w;
        let jy = j / w;
        let (dx, dy) = o.delta();
        let mut k: usize = 0;
        while k < 3
            invariant
                state.wf(),
                board == state.board@,
                size == state.size,
                area == board.len(),
                area == w * h,
                area == h * w,
                area <= 127,
                w == size.w,
                h == size.h,
                j < area,
                j == jy * w + jx,
                jx == j % w,
                jy == j / w,
                jx < w,
                jy < h,
                (dx, dy) == crate::druid::types::delta_of(o),
                k <= 3,
                self.black.sarsen == old_self.black.sarsen,
                self.white.sarsen == old_self.white.sarsen,
                lintel_bits(self.black, o).len() == area,
                lintel_bits(self.white, o).len() == area,
                o == Orientation::Horizontal ==> self.black.lintel_v == old_self.black.lintel_v && self.white.lintel_v == old_self.white.lintel_v,
                o == Orientation::Vertical ==> self.black.lintel_h == old_self.black.lintel_h && self.white.lintel_h == old_self.white.lintel_h,
                forall|a: int| 0 <= a < area ==> {
                    ||| #[trigger] lintel_bits(self.black, o)[a] == lintel_bits(old_self.black, o)[a]
                    ||| lintel_bits(self.black, o)[a] == lintel_ok(board, size, a, o, Player::Black)
                },
                forall|a: int| 0 <= a < area ==> {
                    ||| #[trigger] lintel_bits(self.white, o)[a] == lintel_bits(old_self.white, o)[a]
                    ||| lintel_bits(self.white, o)[a] == lintel_ok(board, size, a, o, Player::White)
                },
                forall|a: int, k2: int|
                    0 <= a < area && 0 <= k2 < k && lintel_fits(size, a, o) && #[trigger] lintel_cell(size, a, o, k2) == j
                        ==> lintel_bits(self.black, o)[a] == lintel_ok(board, size, a, o, Player::Black) && lintel_bits(
                        self.white,
                        o,
                    )[a] == lintel_ok(board, size, a, o, Player::White),
            decreases 3 - k,
        {
            let kx: usize = if dx == 1 { k } else { 0 };
            let ky: usize = if dy == 1 { k } else { 0 };
            let in_bounds = jx >= kx && jy >= ky;
            if in_bounds {
                let ax = jx - kx;
                let ay = jy - ky;
                proof {
                    crate::grid::lemma_grid_pack(ay as int, ax as int, h as int, w as int);
                }
                let anchor = ay * w + ax;
                proof {
                    assert forall|a: int|
                        0 <= a < area && lintel_fits(size, a, o) && #[trigger] lintel_cell(size, a, o, k as int) == j implies a
                        == anchor by {
                        lemma_anchor_of_cell(size, a, o, k as int, j as int);
                    }
                }
                let bv = state.lintel_legal_at(anchor, o, Player::Black).is_some();
                let wv = state.lintel_legal_at(anchor, o, Player::White).is_some();
                match o {
                    Orientation::Horizontal => {
                        self.black.lintel_h.set(anchor, bv);
                        self.white.lintel_h.set(anchor, wv);
                    },
                    Orientation::Vertical => {
                        self.black.lintel_v.set(anchor, bv);
                        self.white.lintel_v.set(anchor, wv);
                    },
                }
            } else {
                proof {
                    assert forall|a: int|
                        0 <= a < area && lintel_fits(size, a, o) && #[trigger] lintel_cell(size, a, o, k as int) == j implies false by {
                        lemma_anchor_of_cell(size, a, o, k as int, j as int);
                    }
                }
            }
            k += 1;
        }
    }
}

/// Cell `i` is some entry of `cells` from index `t` on.
pub open spec fn listed_from(cells: Seq<usize>, t: int, i: int) -> bool {
    exists|u: int| t <= u < cells.len() && #[trigger] cells[u] as int == i
}

/// The lintel anchored at `a` fits and covers some entry of `cells` from
/// index `t` on.
pub open spec fn covered_from(size: Size, cells: Seq<usize>, t: int, a: int, o: Orientation) -> bool {
    lintel_fits(size, a, o) && exists|k: int, u: int|
        0 <= k < 3 && t <= u < cells.len() && #[trigger] lintel_cell(size, a, o, k) == #[trigger] cells[u] as int
}

/// Bits right everywhere except at placements involving `cells[t..]`.
pub open spec fn right_but_from(c: MoveCandidates, board: Seq<Square>, size: Size, color: Player, cells: Seq<usize>, t: int) -> bool {
    &&& c.sarsen@.len() == board.len()
    &&& c.lintel_h@.len() == board.len()
    &&& c.lintel_v@.len() == board.len()
    &&& forall|i: int| 0 <= i < board.len() && !listed_from(cells, t, i) ==> #[trigger] c.sarsen@[i] == sarsen_ok(board, i, color)
    &&& forall|a: int|
        0 <= a < board.len() && !covered_from(size, cells, t, a, Orientation::Horizontal) ==> #[trigger] c.lintel_h@[a]
            == lintel_ok(board, size, a, Orientation::Horizontal, color)
    &&& forall|a: int|
        0 <= a < board.len() && !covered_from(size, cells, t, a, Orientation::Vertical) ==> #[trigger] c.lintel_v@[a]
            == lintel_ok(board, size, a, Orientation::Vertical, color)
}

/// Bits right outside `cells` are right but from index 0.
proof fn lemma_agrees_right_from_start(c: MoveCandidates, board: Seq<Square>, size: Size, color: Player, cells: Seq<usize>)
    requires
        agrees_outside(c, board, size, color, cells),
        board.len() <= u8::MAX,
    ensures
        right_but_from(c, board, size, color, cells, 0),
{
    assert forall|i: int| 0 <= i < board.len() && !listed_from(cells, 0, i) implies #[trigger] c.sarsen@[i] == sarsen_ok(board, i, color) by {
        if cells.contains(i as usize) {
            let u = choose|u: int| 0 <= u < cells.len() && cells[u] == i as usize;
            assert(cells[u] as int == i);
        }
    }
    assert forall|a: int|
        0 <= a < board.len() && !covered_from(size, cells, 0, a, Orientation::Horizontal) implies #[trigger] c.lintel_h@[a]
        == lintel_ok(board, size, a, Orientation::Horizontal, color) by {
        if lintel_touched(size, a, Orientation::Horizontal, cells) {
            let (k, u) = choose|k: int, u: int| 0 <= k < 3 && 0 <= u < cells.len() && #[trigger] lintel_cell(size, a, Orientation::Horizontal, k) == #[trigger] cells[u] as int;
            assert(covered_from(size, cells, 0, a, Orientation::Horizontal));
        }
    }
    assert forall|a: int|
        0 <= a < board.len() && !covered_from(size, cells, 0, a, Orientation::Vertical) implies #[trigger] c.lintel_v@[a]
        == lintel_ok(board, size, a, Orientation::Vertical, color) by {
        if lintel_touched(size, a, Orientation::Vertical, cells) {
            let (k, u) = choose|k: int, u: int| 0 <= k < 3 && 0 <= u < cells.len() && #[trigger] lintel_cell(size, a, Orientation::Vertical, k) == #[trigger] cells[u] as int;
            assert(covered_from(size, cells, 0, a, Orientation::Vertical));
        }
    }
}

impl MoveCache {
    /// Patch the cache after a move changed `cells` of `state`'s board:
    /// recheck the sarsen at each changed cell and every lintel that covers
    /// one, for both colors, then the "any" flags.
    pub fn update(&mut self, state: &State, cells: &[usize])
        requires
            state.wf(),
            forall|t: int| 0 <= t < cells@.len() ==> #[trigger] cells@[t] < state.board@.len(),
            agrees_outside(old(self).black, state.board@, state.size, Player::Black, cells@),
            agrees_outside(old(self).white, state.board@, state.size, Player::White, cells@),
        ensures
            final(self).reflects(*state),
    {
        let ghost board = state.board@;
        let ghost size = state.size;
        proof {
            assert(state.size.w * state.size.h <= 127) by (nonlinear_arith)
                requires
                    2 * state.size.w * state.size.h <= 255,
            ;
            lemma_agrees_right_from_start(self.black, board, size, Player::Black, cells@);
            lemma_agrees_right_from_start(self.white, board, size, Player::White, cells@);
        }
        let mut t: usize = 0;
        while t < cells.len()
            invariant
                state.wf(),
                board == state.board@,
                size == state.size,
                forall|u: int| 0 <= u < cells@.len() ==> #[trigger] cells@[u] < board.len(),
                t <= cells@.len(),
                right_but_from(self.black, board, size, Player::Black, cells@, t as int),
                right_but_from(self.white, board, size, Player::White, cells@, t as int),
            decreases cells@.len() - t,
        {
            let j = cells[t];
            let ghost before = *self;
            let bs = state.sarsen_legal_at(j, Player::Black);
            self.black.sarsen.set(j, bs);
            let ws = state.sarsen_legal_at(j, Player::White);
            self.white.sarsen.set(j, ws);
            let ghost mid = *self;
            self.recheck_lintels(state, j, Orientation::Horizontal);
            let ghost mid2 = *self;
            self.recheck_lintels(state, j, Orientation::Vertical);
            proof {
                lemma_step_right(before.black, mid.black, mid2.black, self.black, board, size, Player::Black, cells@, t as int);
                lemma_step_right(before.white, mid.white, mid2.white, self.white, board, size, Player::White, cells@, t as int);
            }
            t += 1;
        }
        self.black.refresh_flags();
        self.white.refresh_flags();
        proof {
            assert forall|i: int| 0 <= i < board.len() implies !listed_from(cells@, cells@.len() as int, i) by {}
            assert forall|a: int, o: Orientation| 0 <= a < board.len() implies !covered_from(size, cells@, cells@.len() as int, a, o) by {}
        }
    }
}

/// One step of the update: after cell `cells[t]`'s sarsen and the lintels
/// covering it are rechecked, the bits are right but from `t + 1`.
proof fn lemma_step_right(
    before: MoveCandidates,
    mid: MoveCandidates,
    mid2: MoveCandidates,
    after: MoveCandidates,
    board: Seq<Square>,
    size: Size,
    color: Player,
    cells: Seq<usize>,
    t: int,
)
    requires
        0 <= t < cells.len(),
        (cells[t] as int) < board.len(),
        right_but_from(before, board, size, color, cells, t),
        mid.sarsen@ == before.sarsen@.update(cells[t] as int, sarsen_ok(board, cells[t] as int, color)),
        mid.lintel_h == before.lintel_h,
        mid.lintel_v == before.lintel_v,
        mid2.sarsen == mid.sarsen,
        mid2.lintel_v == mid.lintel_v,
        mid2.lintel_h@.len() == board.len(),
        forall|a: int| 0 <= a < board.len() ==> {
            ||| #[trigger] mid2.lintel_h@[a] == mid.lintel_h@[a]
            ||| mid2.lintel_h@[a] == lintel_ok(board, size, a, Orientation::Horizontal, color)
        },
        forall|a: int, k: int|
            0 <= a < board.len() && 0 <= k < 3 && lintel_fits(size, a, Orientation::Horizontal) && #[trigger] lintel_cell(
                size,
                a,
                Orientation::Horizontal,
                k,
            ) == cells[t] ==> mid2.lintel_h@[a] == lintel_ok(board, size, a, Orientation::Horizontal, color),
        after.sarsen == mid2.sarsen,
        after.lintel_h == mid2.lintel_h,
        after.lintel_v@.len() == board.len(),
        forall|a: int| 0 <= a < board.len() ==> {
            ||| #[trigger] after.lintel_v@[a] == mid2.lintel_v@[a]
            ||| after.lintel_v@[a] == lintel_ok(board, size, a, Orientation::Vertical, color)
        },
        forall|a: int, k: int|
            0 <= a < board.len() && 0 <= k < 3 && lintel_fits(size, a, Orientation::Vertical) && #[trigger] lintel_cell(
                size,
                a,
                Orientation::Vertical,
                k,
            ) == cells[t] ==> after.lintel_v@[a] == lintel_ok(board, size, a, Orientation::Vertical, color),
    ensures
        right_but_from(after, board, size, color, cells, t + 1),
{
    let j = cells[t] as int;
    assert forall|i: int| 0 <= i < board.len() && !listed_from(cells, t + 1, i) implies #[trigger] after.sarsen@[i] == sarsen_ok(board, i, color) by {
        if i != j {
            if listed_from(cells, t, i) {
                let u = choose|u: int| t <= u < cells.len() && #[trigger] cells[u] as int == i;
                assert(u != t);
                assert(listed_from(cells, t + 1, i));
            }
        }
    }
    assert forall|a: int|
        0 <= a < board.len() && !covered_from(size, cells, t + 1, a, Orientation::Horizontal) implies #[trigger] after.lintel_h@[a]
        == lintel_ok(board, size, a, Orientation::Horizontal, color) by {
        if after.lintel_h@[a] != lintel_ok(board, size, a, Orientation::Horizontal, color) {
            assert(mid2.lintel_h@[a] == before.lintel_h@[a]);
            assert(covered_from(size, cells, t, a, Orientation::Horizontal));
            let (k, u) = choose|k: int, u: int|
                0 <= k < 3 && t <= u < cells.len() && #[trigger] lintel_cell(size, a, Orientation::Horizontal, k) == #[trigger] cells[u] as int;
            if u == t {
                assert(lintel_cell(size, a, Orientation::Horizontal, k) == cells[t]);
            } else {
                assert(covered_from(size, cells, t + 1, a, Orientation::Horizontal));
            }
        }
    }
    assert forall|a: int|
        0 <= a < board.len() && !covered_from(size, cells, t + 1, a, Orientation::Vertical) implies #[trigger] after.lintel_v@[a]
        == lintel_ok(board, size, a, Orientation::Vertical, color) by {
        if after.lintel_v@[a] != lintel_ok(board, size, a, Orientation::Vertical, color) {
            assert(after.lintel_v@[a] == before.lintel_v@[a]);
            assert(covered_from(size, cells, t, a, Orientation::Vertical));
            let (k, u) = choose|k: int, u: int|
                0 <= k < 3 && t <= u < cells.len() && #[trigger] lintel_cell(size, a, Orientation::Vertical, k) == #[trigger] cells[u] as int;
            if u == t {
                assert(lintel_cell(size, a, Orientation::Vertical, k) == cells[t]);
            } else {
                assert(covered_from(size, cells, t + 1, a, Orientation::Vertical));
            }
        }
    }
}

} // verus!
