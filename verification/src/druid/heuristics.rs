//! Playout guidance: for each candidate placement, three detectors after
//! Browne's advice for Druid playouts. A placement
//!
//! 1. *blocks a threat* when it touches a cell of the mover's that some
//!    lintel the opponent could place right now would cover;
//! 2. *defends a fork* when it is a lintel joining exactly two of the
//!    mover's groups that another candidate lintel joins too;
//! 3. *threatens a connection* when it touches a cell that extends the
//!    mover's largest group past its reach toward the far edge, or a cell
//!    of the opponent's largest group.
//!
//! A playout policy weighs the three and prefers the best-scoring moves.

use vstd::prelude::*;
use rustc_hash::{FxHashMap, FxHashSet};
use crate::druid::cellset::{cell_set_contains, cell_set_insert, has_cell, marks_of, pair_count_get, pair_count_insert, root_count_get, root_count_insert, root_count_keys};
use crate::druid::connectivity::DisjointSet;
use crate::druid::game::HashedState;
use crate::go_engine::graph::{count_upto, lemma_count_bound, lemma_count_drop, lemma_count_ext, lemma_count_extend, lemma_count_positive, lemma_count_witness};
use crate::druid::movecache::lemma_lintel_cells_on_board;
use crate::druid::state::{hand_of, lintel_cell, lintel_fits, lintel_ok, State};
use crate::druid::types::{neighbours, opponent, Orientation, Piece, PlacedPiece, Player, Pos};

verus! {

/// Cell `c` is covered by the lintel `color` could place at `i` in
/// orientation `o`.
pub open spec fn covered_by(s: State, color: Player, c: int, i: int, o: Orientation) -> bool {
    &&& 0 <= i < s.size.w * s.size.h
    &&& lintel_ok(s.board@, s.size, i, o, color)
    &&& {
        ||| lintel_cell(s.size, i, o, 0) == c
        ||| lintel_cell(s.size, i, o, 1) == c
        ||| lintel_cell(s.size, i, o, 2) == c
    }
}

/// Cell `c` is covered by some lintel `color` could place anchored below `n`.
pub open spec fn covered_below(s: State, color: Player, c: int, n: int) -> bool {
    exists|i: int|
        #![trigger covered_by(s, color, c, i, Orientation::Horizontal)]
        #![trigger covered_by(s, color, c, i, Orientation::Vertical)]
        0 <= i < n && (covered_by(s, color, c, i, Orientation::Horizontal) || covered_by(s, color, c, i, Orientation::Vertical))
}

/// Cell `c` is the mover's and a lintel the opponent (holding one) could
/// place now would cover it.
pub open spec fn threatened(s: State, mover: Player, c: int) -> bool {
    &&& hand_of(s, opponent(mover)).lintels > 0
    &&& 0 <= c < s.size.w * s.size.h
    &&& s.board@[c].piece == Some(mover)
    &&& covered_below(s, opponent(mover), c, s.size.w * s.size.h)
}

/// Mark the mover's cells covered by the lintel `color` could place at
/// `i` in orientation `o`.
fn mark_lintel(s: &State, marks: &mut FxHashSet<usize>, i: usize, o: Orientation, color: Player, mover: Player)
    requires
        s.wf(),
        i < s.board@.len(),
        forall|x: usize| #[trigger] old(marks)@.contains(x) ==> x < s.board@.len(),
    ensures
        forall|x: usize| #[trigger] final(marks)@.contains(x) ==> x < s.board@.len(),
        forall|c: int|
            0 <= c < s.board@.len() ==> #[trigger] has_cell(final(marks)@, c) == (has_cell(old(marks)@, c) || (s.board@[c].piece == Some(
                mover) && covered_by(*s, color, c, i as int, o))),
{
    if let Some(cells) = s.lintel_legal_at(i, o, color) {
        proof {
            lemma_lintel_cells_on_board(s.size, i as int, o);
            assert(lintel_fits(s.size, i as int, o));
            assert(0 <= lintel_cell(s.size, i as int, o, 1) < s.board@.len());
            assert(0 <= lintel_cell(s.size, i as int, o, 2) < s.board@.len());
        }
        let ghost before = marks@;
        let mut k: usize = 0;
        while k < 3
            invariant
                s.wf(),
                i < s.board@.len(),
                k <= 3,
                lintel_ok(s.board@, s.size, i as int, o, color),
                cells[0] == i,
                cells[1] == lintel_cell(s.size, i as int, o, 1),
                cells[2] == lintel_cell(s.size, i as int, o, 2),
                forall|t: int| 0 <= t < 3 ==> #[trigger] cells[t] < s.board@.len(),
                forall|x: usize| #[trigger] marks@.contains(x) ==> x < s.board@.len(),
                forall|c: int|
                    0 <= c < s.board@.len() ==> #[trigger] has_cell(marks@, c) == (has_cell(before, c) || (s.board@[c].piece == Some(mover)
                        && exists|t: int| 0 <= t < k && cells[t] == c)),
            decreases 3 - k,
        {
            let c = cells[k];
            let ghost prev = marks@;
            if s.at(c) == Some(mover) {
                cell_set_insert(marks, c);
            }
            proof {
                assert forall|x: int| 0 <= x < s.board@.len() implies #[trigger] has_cell(marks@, x) == (has_cell(before, x) || (s.board@[x].piece
                    == Some(mover) && exists|t: int| 0 <= t < k + 1 && cells[t] == x)) by {
                    assert(has_cell(prev, x) == (has_cell(before, x) || (s.board@[x].piece == Some(mover)
                        && exists|t: int| 0 <= t < k && cells[t] == x)));
                    assert(has_cell(marks@, x) == (has_cell(prev, x) || (x == c as int && s.board@[x].piece == Some(mover))));
                    if x == c as int {
                        assert(cells[k as int] == x);
                    }
                    if exists|t: int| 0 <= t < k + 1 && cells[t] == x {
                        let t = choose|t: int| 0 <= t < k + 1 && cells[t] == x;
                        if t < k {
                        }
                    }
                }
            }
            k += 1;
        }
        proof {
            assert forall|c: int| 0 <= c < s.board@.len() implies (exists|t: int| 0 <= t < 3 && cells[t] == c) == covered_by(
                *s,
                color,
                c,
                i as int,
                o,
            ) by {
                assert(lintel_cell(s.size, i as int, o, 0) == i);
                if covered_by(*s, color, c, i as int, o) {
                    if lintel_cell(s.size, i as int, o, 0) == c {
                        assert(cells[0] == c);
                    } else if lintel_cell(s.size, i as int, o, 1) == c {
                        assert(cells[1] == c);
                    } else {
                        assert(cells[2] == c);
                    }
                }
            }
        }
    }
}

/// For every cell, whether it is [`threatened`].
pub fn threatened_cells(s: &State, mover: Player) -> (r: FxHashSet<usize>)
    requires
        s.wf(),
    ensures
        forall|x: usize| #[trigger] r@.contains(x) ==> x < s.board@.len(),
        forall|c: int| 0 <= c < s.board@.len() ==> #[trigger] has_cell(r@, c) == threatened(*s, mover, c),
{
    let n = s.board.len();
    let mut marks: FxHashSet<usize> = FxHashSet::default();
    let opp = match mover {
        Player::Black => Player::White,
        Player::White => Player::Black,
    };
    if s.hand(opp).lintels > 0 {
        let mut i: usize = 0;
        while i < n
            invariant
                s.wf(),
                n == s.board@.len(),
                opp == opponent(mover),
                i <= n,
                forall|x: usize| #[trigger] marks@.contains(x) ==> x < n,
                forall|x: int|
                    0 <= x < n ==> #[trigger] has_cell(marks@, x) == (s.board@[x].piece == Some(mover) && covered_below(*s, opp, x, i as int)),
            decreases n - i,
        {
            mark_lintel(s, &mut marks, i, Orientation::Horizontal, opp, mover);
            mark_lintel(s, &mut marks, i, Orientation::Vertical, opp, mover);
            proof {
                assert forall|x: int| 0 <= x < n implies #[trigger] covered_below(*s, opp, x, i + 1) == (covered_below(*s, opp, x, i as int)
                    || covered_by(*s, opp, x, i as int, Orientation::Horizontal) || covered_by(*s, opp, x, i as int, Orientation::Vertical)) by {
                    if covered_below(*s, opp, x, i + 1) {
                        let j = choose|j: int| #![trigger covered_by(*s, opp, x, j, Orientation::Horizontal)] #![trigger covered_by(*s, opp, x, j, Orientation::Vertical)] 0 <= j < i + 1 && (covered_by(*s, opp, x, j, Orientation::Horizontal) || covered_by(*s, opp, x, j, Orientation::Vertical));
                        if j < i {
                            assert(covered_below(*s, opp, x, i as int));
                        }
                    }
                    if covered_below(*s, opp, x, i as int) {
                        let j = choose|j: int| #![trigger covered_by(*s, opp, x, j, Orientation::Horizontal)] #![trigger covered_by(*s, opp, x, j, Orientation::Vertical)] 0 <= j < i && (covered_by(*s, opp, x, j, Orientation::Horizontal) || covered_by(*s, opp, x, j, Orientation::Vertical));
                        assert(0 <= j < i + 1 && (covered_by(*s, opp, x, j, Orientation::Horizontal) || covered_by(*s, opp, x, j, Orientation::Vertical)));
                    }
                    if covered_by(*s, opp, x, i as int, Orientation::Horizontal) || covered_by(*s, opp, x, i as int, Orientation::Vertical) {
                        assert(0 <= i < i + 1);
                    }
                }
            }
            i += 1;
        }
    }
    marks
}

/// The roots, in `ds`, of the mover's cells among the first `k` of `cells`,
/// each taken once, in the order first met.
pub open spec fn roots_acc(s: State, ds: DisjointSet, mover: Player, cells: Seq<int>, k: int) -> Seq<usize>
    decreases k,
{
    if k <= 0 {
        Seq::empty()
    } else {
        let prev = roots_acc(s, ds, mover, cells, k - 1);
        let c = cells[k - 1];
        if s.board@[c].piece == Some(mover) && !prev.contains(ds.root(c) as usize) {
            prev.push(ds.root(c) as usize)
        } else {
            prev
        }
    }
}

/// The three cells of the lintel placement `m` in orientation `o`.
pub open spec fn lintel_cells(s: State, m: PlacedPiece, o: Orientation) -> Seq<int> {
    seq![m.1 as int, lintel_cell(s.size, m.1 as int, o, 1), lintel_cell(s.size, m.1 as int, o, 2)]
}

/// The pair of the mover's groups a lintel placement would join, lower
/// root first, when it touches exactly two of them.
pub open spec fn fork_key(s: State, ds: DisjointSet, mover: Player, m: PlacedPiece) -> Option<(usize, usize)> {
    match m.0 {
        Piece::Lintel(o) => {
            let r = roots_acc(s, ds, mover, lintel_cells(s, m, o), 3);
            if r.len() == 2 {
                if r[0] < r[1] {
                    Some((r[0], r[1]))
                } else {
                    Some((r[1], r[0]))
                }
            } else {
                None
            }
        },
        Piece::Sarsen => None,
    }
}

/// Candidate `idx` is a lintel joining two of the mover's groups that some
/// other candidate joins as well.
pub open spec fn is_fork(s: State, ds: DisjointSet, mover: Player, avail: Seq<PlacedPiece>, idx: int) -> bool {
    &&& fork_key(s, ds, mover, avail[idx]) is Some
    &&& exists|j: int|
        0 <= j < avail.len() && j != idx && #[trigger] fork_key(s, ds, mover, avail[j]) == fork_key(s, ds, mover, avail[idx])
}

/// A placement that touches on-board cells only.
pub open spec fn placeable(s: State, m: PlacedPiece) -> bool {
    &&& (m.1 as int) < s.size.w * s.size.h
    &&& m.0 matches Piece::Lintel(o) ==> lintel_fits(s.size, m.1 as int, o)
}

fn vec_contains(v: &Vec<usize>, x: usize) -> (r: bool)
    ensures
        r == v@.contains(x),
{
    let mut t: usize = 0;
    while t < v.len()
        invariant
            t <= v.len(),
            forall|u: int| 0 <= u < t ==> v@[u] != x,
        decreases v.len() - t,
    {
        if v[t] == x {
            return true;
        }
        t += 1;
    }
    false
}

/// The [`fork_key`] of one placement.
fn fork_key_of(s: &State, ds: &DisjointSet, mover: Player, m: PlacedPiece) -> (r: Option<(usize, usize)>)
    requires
        s.wf(),
        ds.wf(),
        ds.len() == s.size.w * s.size.h + 2,
        placeable(*s, m),
    ensures
        r == fork_key(*s, *ds, mover, m),
{
    match m.0 {
        Piece::Sarsen => None,
        Piece::Lintel(o) => {
            let (cells, n) = s.move_cells(m);
            let ghost cs = lintel_cells(*s, m, o);
            proof {
                assert(cs[0] == m.1 as int);
                assert(cells[0] == lintel_cell(s.size, m.1 as int, o, 0));
            }
            let mut roots: Vec<usize> = Vec::new();
            let mut k: usize = 0;
            while k < n
                invariant
                    s.wf(),
                    ds.wf(),
                    ds.len() == s.size.w * s.size.h + 2,
                    n == 3,
                    k <= n,
                    cs == lintel_cells(*s, m, o),
                    forall|t: int| 0 <= t < 3 ==> #[trigger] cells[t] as int == cs[t],
                    forall|t: int| 0 <= t < 3 ==> #[trigger] cells[t] < s.board@.len(),
                    roots@ == roots_acc(*s, *ds, mover, cs, k as int),
                decreases n - k,
            {
                let c = cells[k];
                proof {
                    assert(lintel_cell(s.size, m.1 as int, o, 0) == m.1 as int);
                }
                if s.at(c) == Some(mover) {
                    let r = ds.find(c);
                    if !vec_contains(&roots, r) {
                        roots.push(r);
                    }
                }
                k += 1;
            }
            if roots.len() == 2 {
                if roots[0] < roots[1] {
                    Some((roots[0], roots[1]))
                } else {
                    Some((roots[1], roots[0]))
                }
            } else {
                None
            }
        },
    }
}

/// Number of the first `n` candidates whose key is `Some(k)`.
pub open spec fn key_count(keys: Seq<Option<(usize, usize)>>, k: (usize, usize), n: int) -> nat {
    count_upto(|t: int| keys[t] == Some(k), n)
}

/// A key met twice among the candidates is met again besides any one of
/// them, and the other way round.
proof fn lemma_key_count_other(keys: Seq<Option<(usize, usize)>>, k: (usize, usize), idx: int)
    requires
        0 <= idx < keys.len(),
        keys[idx] == Some(k),
    ensures
        (key_count(keys, k, keys.len() as int) >= 2) == exists|u: int| 0 <= u < keys.len() && u != idx && #[trigger] keys[u] == Some(k),
{
    let n = keys.len() as int;
    let f = |t: int| keys[t] == Some(k);
    lemma_count_witness(f, n, idx);
    if key_count(keys, k, n) >= 2 {
        let g = |t: int| f(t) && t != idx;
        lemma_count_drop(f, g, n, idx);
        lemma_count_positive(g, n);
        let u = choose|u: int| 0 <= u < n && #[trigger] g(u);
        assert(keys[u] == Some(k));
    }
    if exists|u: int| 0 <= u < keys.len() && u != idx && #[trigger] keys[u] == Some(k) {
        let u = choose|u: int| 0 <= u < keys.len() && u != idx && #[trigger] keys[u] == Some(k);
        assert(f(u));
    }
}

/// For every candidate, whether it [`is_fork`]: the candidates' keys are
/// counted in a map, and a keyed candidate is a fork when its key is met
/// twice or more.
pub fn fork_moves(s: &State, ds: &DisjointSet, mover: Player, available: &[PlacedPiece]) -> (r: Vec<bool>)
    requires
        s.wf(),
        ds.wf(),
        ds.len() == s.size.w * s.size.h + 2,
        forall|j: int| 0 <= j < available@.len() ==> placeable(*s, #[trigger] available@[j]),
    ensures
        r@.len() == available@.len(),
        forall|j: int| 0 <= j < available@.len() ==> #[trigger] r@[j] == is_fork(*s, *ds, mover, available@, j),
{
    let mut keys: Vec<Option<(usize, usize)>> = Vec::new();
    let mut counts: FxHashMap<(usize, usize), usize> = FxHashMap::default();
    let mut j: usize = 0;
    while j < available.len()
        invariant
            s.wf(),
            ds.wf(),
            ds.len() == s.size.w * s.size.h + 2,
            forall|t: int| 0 <= t < available@.len() ==> placeable(*s, #[trigger] available@[t]),
            j <= available.len(),
            keys@.len() == j,
            forall|t: int| 0 <= t < j ==> #[trigger] keys@[t] == fork_key(*s, *ds, mover, available@[t]),
            forall|k: (usize, usize)|
                #[trigger] key_count(keys@, k, j as int) == (if counts@.contains_key(k) {
                    counts@[k] as nat
                } else {
                    0nat
                }),
        decreases available.len() - j,
    {
        let key = fork_key_of(s, ds, mover, available[j]);
        let ghost before = keys@;
        let ghost m0 = counts@;
        keys.push(key);
        proof {
            assert forall|t: int| 0 <= t < j implies #[trigger] keys@[t] == before[t] by {}
        }
        if let Some(k) = key {
            let c: usize = match pair_count_get(&counts, k) {
                Some(c) => c,
                None => 0,
            };
            proof {
                assert(key_count(before, k, j as int) == c);
                lemma_count_bound(|t: int| before[t] == Some(k), j as int);
                lemma_count_ext(|t: int| before[t] == Some(k), |t: int| keys@[t] == Some(k), j as int);
            }
            pair_count_insert(&mut counts, k, c + 1);
        }
        proof {
            assert forall|k2: (usize, usize)| #[trigger] key_count(keys@, k2, j + 1) == (if counts@.contains_key(k2) {
                counts@[k2] as nat
            } else {
                0nat
            }) by {
                lemma_count_ext(|t: int| before[t] == Some(k2), |t: int| keys@[t] == Some(k2), j as int);
                assert(key_count(before, k2, j as int) == (if m0.contains_key(k2) {
                    m0[k2] as nat
                } else {
                    0nat
                }));
            }
        }
        j += 1;
    }
    let mut out: Vec<bool> = Vec::new();
    let mut idx: usize = 0;
    while idx < keys.len()
        invariant
            keys@.len() == available@.len(),
            forall|t: int| 0 <= t < keys@.len() ==> #[trigger] keys@[t] == fork_key(*s, *ds, mover, available@[t]),
            forall|k: (usize, usize)|
                #[trigger] key_count(keys@, k, keys@.len() as int) == (if counts@.contains_key(k) {
                    counts@[k] as nat
                } else {
                    0nat
                }),
            idx <= keys.len(),
            out@.len() == idx,
            forall|t: int| 0 <= t < idx ==> #[trigger] out@[t] == is_fork(*s, *ds, mover, available@, t),
        decreases keys.len() - idx,
    {
        let fork = match keys[idx] {
            Some(k) => match pair_count_get(&counts, k) {
                Some(c) => c >= 2,
                None => false,
            },
            None => false,
        };
        proof {
            if let Some(k) = keys@[idx as int] {
                lemma_key_count_other(keys@, k, idx as int);
                assert(key_count(keys@, k, keys@.len() as int) == (if counts@.contains_key(k) {
                    counts@[k] as nat
                } else {
                    0nat
                }));
                if fork {
                    let u = choose|u: int| 0 <= u < keys@.len() && u != idx && #[trigger] keys@[u] == Some(k);
                    assert(fork_key(*s, *ds, mover, available@[u]) == fork_key(*s, *ds, mover, available@[idx as int]));
                }
                if is_fork(*s, *ds, mover, available@, idx as int) {
                    let u = choose|u: int|
                        0 <= u < available@.len() && u != idx && #[trigger] fork_key(*s, *ds, mover, available@[u]) == fork_key(
                            *s,
                            *ds,
                            mover,
                            available@[idx as int],
                        );
                    assert(keys@[u] == Some(k));
                }
            }
        }
        out.push(fork);
        idx += 1;
    }
    out
}

/// Cell `i` is a stone of `color` whose root in `ds` is `r`.
pub open spec fn in_group(s: State, ds: DisjointSet, color: Player, r: int, i: int) -> bool {
    &&& 0 <= i < s.size.w * s.size.h
    &&& s.board@[i].piece == Some(color)
    &&& ds.root(i) == r
}

/// Number of stones of `color` rooted at `r` among the first `n` cells.
pub open spec fn group_count(s: State, ds: DisjointSet, color: Player, r: int, n: int) -> nat {
    count_upto(|i: int| in_group(s, ds, color, r, i), n)
}

/// Number of stones of `color` rooted at `r`.
pub open spec fn group_size(s: State, ds: DisjointSet, color: Player, r: int) -> nat {
    count_upto(|i: int| in_group(s, ds, color, r, i), s.size.w * s.size.h)
}

/// How far cell `i` lies along `color`'s goal axis: its row for Black, its
/// column for White.
pub open spec fn axis(s: State, color: Player, i: int) -> int {
    if color == Player::Black {
        i / (s.size.w as int)
    } else {
        i % (s.size.w as int)
    }
}

/// `members` marks a largest group of `color` and `reach` is the furthest
/// it gets along the goal axis; with no stone of `color` nothing is marked
/// and the reach is zero.
pub open spec fn largest_ok(s: State, ds: DisjointSet, color: Player, members: Seq<bool>, reach: int) -> bool {
    let n = s.size.w * s.size.h;
    &&& members.len() == n
    &&& if forall|i: int| 0 <= i < n ==> #[trigger] s.board@[i].piece != Some(color) {
        &&& forall|i: int| 0 <= i < n ==> !#[trigger] members[i]
        &&& reach == 0
    } else {
        exists|r: int| #[trigger] marks_largest(s, ds, color, members, reach, r)
    }
}

/// `members` marks the stones of `color` rooted at `r`, no group of `color`
/// is larger, and `reach` is the furthest of them along the goal axis.
pub open spec fn marks_largest(s: State, ds: DisjointSet, color: Player, members: Seq<bool>, reach: int, r: int) -> bool {
    let n = s.size.w * s.size.h;
    &&& forall|i: int| 0 <= i < n ==> #[trigger] members[i] == in_group(s, ds, color, r, i)
    &&& forall|r2: int| #[trigger] group_size(s, ds, color, r2) <= group_size(s, ds, color, r)
    &&& forall|i: int| 0 <= i < n && #[trigger] members[i] ==> axis(s, color, i) <= reach
    &&& exists|i: int| 0 <= i < n && #[trigger] members[i] && axis(s, color, i) == reach
}

/// A largest group and how far it reaches.
pub struct LargestGroup {
    /// The cells of the group.
    pub members: FxHashSet<usize>,
    /// The furthest the group gets along its color's goal axis.
    pub reach: u8,
}

/// The position of cell `i` as a byte pair: column and row.
proof fn lemma_pos_from(s: State, i: int)
    requires
        s.wf(),
        0 <= i < s.size.w * s.size.h,
    ensures
        (i as u8) as int == i,
        s.size.w * s.size.h <= 127,
        s.size.w <= 127,
        s.size.h <= 127,
        0 <= i % (s.size.w as int) < s.size.w,
        0 <= i / (s.size.w as int) < s.size.h,
{
    assert(s.size.w * s.size.h <= 127) by (nonlinear_arith)
        requires
            2 * s.size.w * s.size.h <= 255,
    ;
    assert(s.size.h * s.size.w == s.size.w * s.size.h) by (nonlinear_arith);
    assert(s.size.w <= 127 && s.size.h <= 127) by (nonlinear_arith)
        requires
            s.size.w * s.size.h <= 127,
            s.size.w >= 1,
            s.size.h >= 1,
    ;
    crate::grid::lemma_grid_split(i, s.size.h as int, s.size.w as int);
}

/// A largest group of `color` (any of them when several are equally
/// large) and its reach.
pub fn largest_group(s: &State, ds: &DisjointSet, color: Player) -> (g: LargestGroup)
    requires
        s.wf(),
        ds.wf(),
        ds.len() == s.size.w * s.size.h + 2,
    ensures
        largest_ok(*s, *ds, color, marks_of(g.members@, s.board@.len() as int), g.reach as int),
        forall|x: usize| #[trigger] g.members@.contains(x) ==> x < s.board@.len(),
{
    proof {
        assert(s.size.w * s.size.h <= 127) by (nonlinear_arith)
            requires
                2 * s.size.w * s.size.h <= 255,
        ;
    }
    let n = s.board.len();
    let m = n + 2;
    let mut counts: FxHashMap<usize, usize> = FxHashMap::default();
    let mut i: usize = 0;
    while i < n
        invariant
            s.wf(),
            ds.wf(),
            n == s.board@.len(),
            n == s.size.w * s.size.h,
            n <= 127,
            m == n + 2,
            ds.len() == m,
            i <= n,
            forall|x: usize|
                #[trigger] group_count(*s, *ds, color, x as int, i as int) == (if counts@.contains_key(x) {
                    counts@[x] as nat
                } else {
                    0nat
                }),
        decreases n - i,
    {
        let ghost m0 = counts@;
        if s.at(i) == Some(color) {
            let root = ds.find(i);
            let c: usize = match root_count_get(&counts, root) {
                Some(c) => c,
                None => 0,
            };
            proof {
                assert(group_count(*s, *ds, color, root as int, i as int) == c);
                lemma_count_bound(|j: int| in_group(*s, *ds, color, root as int, j), i as int);
            }
            root_count_insert(&mut counts, root, c + 1);
            proof {
                assert forall|x: usize| #[trigger] group_count(*s, *ds, color, x as int, i + 1) == (if counts@.contains_key(x) {
                    counts@[x] as nat
                } else {
                    0nat
                }) by {
                    assert(in_group(*s, *ds, color, x as int, i as int) == (x == root));
                    assert(group_count(*s, *ds, color, x as int, i as int) == (if m0.contains_key(x) {
                        m0[x] as nat
                    } else {
                        0nat
                    }));
                }
            }
        } else {
            proof {
                assert forall|x: usize| #[trigger] group_count(*s, *ds, color, x as int, i + 1) == (if counts@.contains_key(x) {
                    counts@[x] as nat
                } else {
                    0nat
                }) by {
                    assert(!in_group(*s, *ds, color, x as int, i as int));
                    assert(group_count(*s, *ds, color, x as int, i as int) == (if m0.contains_key(x) {
                        m0[x] as nat
                    } else {
                        0nat
                    }));
                }
            }
        }
        i += 1;
    }
    let roots = root_count_keys(&counts);
    let mut best: usize = m;
    let mut best_len: usize = 0;
    let mut t: usize = 0;
    while t < roots.len()
        invariant
            t <= roots@.len(),
            forall|k: usize| #[trigger] roots@.contains(k) <==> counts@.contains_key(k),
            forall|u: int| 0 <= u < t ==> counts@[#[trigger] roots@[u]] <= best_len,
            best_len == 0 ==> best == m,
            best_len > 0 ==> counts@.contains_key(best) && counts@[best] == best_len,
        decreases roots@.len() - t,
    {
        let r = roots[t];
        proof {
            assert(roots@.contains(r));
        }
        let c: usize = match root_count_get(&counts, r) {
            Some(c) => c,
            None => 0,
        };
        if c > 0 && c >= best_len {
            best = r;
            best_len = c;
        }
        t += 1;
    }
    proof {
        assert forall|k: usize| #[trigger] counts@.contains_key(k) implies counts@[k] <= best_len by {
            assert(roots@.contains(k));
            let u = choose|u: int| 0 <= u < roots@.len() && roots@[u] == k;
            assert(counts@[roots@[u]] <= best_len);
        }
    }
    let ghost b = best as int;
    let mut members: Vec<bool> = Vec::new();
    let mut reach: u8 = 0;
    let mut found = false;
    let mut i: usize = 0;
    while i < n
        invariant
            s.wf(),
            ds.wf(),
            n == s.board@.len(),
            n == s.size.w * s.size.h,
            n <= 127,
            ds.len() == m,
            m == n + 2,
            b == best as int,
            i <= n,
            members@.len() == i,
            forall|j: int| 0 <= j < i ==> #[trigger] members@[j] == in_group(*s, *ds, color, b, j),
            found == exists|j: int| 0 <= j < i && #[trigger] members@[j],
            !found ==> reach == 0,
            found ==> exists|j: int| 0 <= j < i && #[trigger] members@[j] && axis(*s, color, j) == reach,
            forall|j: int| 0 <= j < i && #[trigger] members@[j] ==> axis(*s, color, j) <= reach,
        decreases n - i,
    {
        let here = s.at(i) == Some(color) && ds.find(i) == best;
        let ghost prev = members@;
        let ghost found0 = found;
        let ghost reach0 = reach;
        members.push(here);
        proof {
            assert forall|j: int| 0 <= j < i implies #[trigger] members@[j] == prev[j] by {}
            assert(members@[i as int] == here);
        }
        if here {
            proof {
                lemma_pos_from(*s, i as int);
            }
            let p = Pos::from(i, s.size);
            let a = match color {
                Player::Black => p.1,
                Player::White => p.0,
            };
            assert(a as int == axis(*s, color, i as int));
            if !found || a > reach {
                reach = a;
            }
            found = true;
        }
        proof {
            assert forall|j: int| 0 <= j < i + 1 && #[trigger] members@[j] implies axis(*s, color, j) <= reach by {
                if j < i {
                    assert(prev[j]);
                }
            }
            if here {
                assert(members@[i as int]);
            } else {
                if exists|j: int| 0 <= j < i + 1 && #[trigger] members@[j] {
                    let j = choose|j: int| 0 <= j < i + 1 && #[trigger] members@[j];
                    assert(prev[j]);
                }
                if found0 {
                    let j = choose|j: int| 0 <= j < i && #[trigger] prev[j];
                    assert(members@[j]);
                }
            }
            if found {
                if here && reach as int == axis(*s, color, i as int) {
                    assert(members@[i as int] && axis(*s, color, i as int) == reach);
                } else {
                    assert(found0);
                    assert(reach == reach0);
                    let j = choose|j: int| 0 <= j < i && #[trigger] prev[j] && axis(*s, color, j) == reach0;
                    assert(members@[j]);
                }
            }
        }
        i += 1;
    }
    proof {
        if !(forall|j: int| 0 <= j < n ==> #[trigger] s.board@[j].piece != Some(color)) {
            let w = choose|j: int| 0 <= j < n && !(#[trigger] s.board@[j].piece != Some(color));
            ds.lemma_root(w);
            let rw = ds.root(w);
            assert(in_group(*s, *ds, color, rw, w));
            lemma_count_witness(|j: int| in_group(*s, *ds, color, rw, j), n as int, w);
            assert(group_count(*s, *ds, color, (rw as usize) as int, n as int) >= 1);
            assert(counts@.contains_key(rw as usize));
            assert(best_len > 0);
            assert(group_count(*s, *ds, color, (best as usize) as int, n as int) == best_len);
            assert forall|r2: int| #[trigger] group_size(*s, *ds, color, r2) <= group_size(*s, *ds, color, b) by {
                if 0 <= r2 < m {
                    assert(group_count(*s, *ds, color, ((r2 as usize) as int), n as int) <= best_len);
                } else {
                    assert forall|j: int| 0 <= j < n implies !(#[trigger] in_group(*s, *ds, color, r2, j)) by {
                        ds.lemma_root(j);
                    }
                    lemma_count_extend(|j: int| in_group(*s, *ds, color, r2, j), 0, n as int);
                }
            }
            lemma_count_positive(|j: int| in_group(*s, *ds, color, b, j), n as int);
            let x = choose|x: int| 0 <= x < n && #[trigger] in_group(*s, *ds, color, b, x);
            assert(members@[x]);
            assert(marks_largest(*s, *ds, color, members@, reach as int, b));
        }
    }
    let mut set: FxHashSet<usize> = FxHashSet::default();
    let mut k: usize = 0;
    while k < n
        invariant
            k <= n,
            members@.len() == n,
            forall|x: usize| #[trigger] set@.contains(x) ==> x < k,
            forall|x: int| 0 <= x < k ==> #[trigger] has_cell(set@, x) == members@[x],
        decreases n - k,
    {
        let ghost prev = set@;
        if members[k] {
            cell_set_insert(&mut set, k);
        }
        proof {
            assert forall|x: int| 0 <= x < k + 1 implies #[trigger] has_cell(set@, x) == members@[x] by {
                if x < k {
                    assert(has_cell(prev, x) == members@[x]);
                }
            }
        }
        k += 1;
    }
    proof {
        assert(marks_of(set@, n as int) =~= members@);
    }
    LargestGroup { members: set, reach }
}

/// The cell index of an on-board position.
pub open spec fn cell_of(s: State, p: Pos) -> int {
    p.1 * s.size.w + p.0
}

/// Cell `c` neighbours a marked stone and lies beyond `reach` along
/// `color`'s goal axis.
pub open spec fn advances(s: State, color: Player, members: Seq<bool>, reach: int, c: int) -> bool {
    let w = s.size.w as int;
    &&& axis(s, color, c) > reach
    &&& exists|i: int, t: int|
        0 <= i < s.size.w * s.size.h && members[i] && 0 <= t < neighbours(i % w, i / w, s.size).len()
            && #[trigger] cell_of(s, neighbours(i % w, i / w, s.size)[t]) == c
}

/// A neighbour of an on-board cell is an on-board cell.
proof fn lemma_neighbour_cell(s: State, i: int, t: int)
    requires
        s.wf(),
        0 <= i < s.size.w * s.size.h,
        0 <= t < neighbours(i % (s.size.w as int), i / (s.size.w as int), s.size).len(),
    ensures
        ({
            let p = neighbours(i % (s.size.w as int), i / (s.size.w as int), s.size)[t];
            &&& p.0 < s.size.w
            &&& p.1 < s.size.h
            &&& 0 <= cell_of(s, p) < s.size.w * s.size.h
            &&& cell_of(s, p) % (s.size.w as int) == p.0
            &&& cell_of(s, p) / (s.size.w as int) == p.1
        }),
{
    lemma_pos_from(s, i);
    let x = i % (s.size.w as int);
    let y = i / (s.size.w as int);
    let p = neighbours(x, y, s.size)[t];
    assert(p.0 < s.size.w && p.1 < s.size.h);
    crate::grid::lemma_grid_pack(p.1 as int, p.0 as int, s.size.h as int, s.size.w as int);
    assert(s.size.h * s.size.w == s.size.w * s.size.h) by (nonlinear_arith);
}

/// For every cell, whether it [`advances`] the group `g` of `color`.
pub fn advance_cells(s: &State, color: Player, g: &LargestGroup) -> (r: FxHashSet<usize>)
    requires
        s.wf(),
    ensures
        forall|x: usize| #[trigger] r@.contains(x) ==> x < s.board@.len(),
        forall|c: int| 0 <= c < s.board@.len() ==> #[trigger] has_cell(r@, c) == advances(*s, color, marks_of(g.members@, s.board@.len() as int), g.reach as int, c),
{
    proof {
        assert(s.size.w * s.size.h <= 127) by (nonlinear_arith)
            requires
                2 * s.size.w * s.size.h <= 255,
        ;
    }
    let n = s.board.len();
    let ghost w = s.size.w as int;
    let mut marks: FxHashSet<usize> = FxHashSet::default();
    let mut i: usize = 0;
    while i < n
        invariant
            s.wf(),
            n == s.board@.len(),
            n == s.size.w * s.size.h,
            n <= 127,
            w == s.size.w as int,
            i <= n,
            forall|x: usize| #[trigger] marks@.contains(x) ==> x < n,
            forall|x: int|
                0 <= x < n ==> #[trigger] has_cell(marks@, x) == (axis(*s, color, x) > g.reach && exists|j: int, t: int|
                    0 <= j < i && marks_of(g.members@, s.board@.len() as int)[j] && 0 <= t < neighbours(j % w, j / w, s.size).len() && #[trigger] cell_of(
                        *s,
                        neighbours(j % w, j / w, s.size)[t],
                    ) == x),
        decreases n - i,
    {
        let in_group = cell_set_contains(&g.members, i);
        proof {
            assert(marks_of(g.members@, s.board@.len() as int)[i as int] == in_group);
        }
        if in_group {
            proof {
                lemma_pos_from(*s, i as int);
            }
            let p = Pos::from(i, s.size);
            let adj = p.adjacent(s.size);
            proof {
                assert(p.0 as int == i as int % w && p.1 as int == i as int / w);
                assert(adj@ == neighbours(i as int % w, i as int / w, s.size));
            }
            let ghost before = marks@;
            let mut t: usize = 0;
            while t < adj.len()
                invariant
                    s.wf(),
                    n == s.board@.len(),
                    n == s.size.w * s.size.h,
                    n <= 127,
                    w == s.size.w as int,
                    (i as int) < n,
                            marks_of(g.members@, s.board@.len() as int)[i as int],
                    adj@ == neighbours(i as int % w, i as int / w, s.size),
                    t <= adj.len(),
                    forall|x: usize| #[trigger] marks@.contains(x) ==> x < n,
                    forall|x: int|
                        0 <= x < n ==> #[trigger] has_cell(marks@, x) == (has_cell(before, x) || (axis(*s, color, x) > g.reach && exists|u: int|
                            0 <= u < t && cell_of(*s, adj@[u]) == x)),
                decreases adj.len() - t,
            {
                proof {
                    lemma_neighbour_cell(*s, i as int, t as int);
                }
                let q = adj[t];
                let j = q.index(s.size.w);
                proof {
                    lemma_pos_from(*s, j as int);
                }
                let pj = Pos::from(j, s.size);
                let axis_j = match color {
                    Player::Black => pj.1,
                    Player::White => pj.0,
                };
                assert(axis_j as int == axis(*s, color, j as int));
                let ghost prev = marks@;
                if axis_j > g.reach {
                    cell_set_insert(&mut marks, j);
                }
                proof {
                    assert forall|x: int| 0 <= x < n implies #[trigger] has_cell(marks@, x) == (has_cell(prev, x) || (x == j as int && axis(*s, color, x) > g.reach)) by {}
                    assert forall|x: int| 0 <= x < n implies #[trigger] has_cell(marks@, x) == (has_cell(before, x) || (axis(*s, color, x) > g.reach && exists|u: int|
                        0 <= u < t + 1 && cell_of(*s, adj@[u]) == x)) by {
                        if x == j as int {
                            assert(cell_of(*s, adj@[t as int]) == x);
                        }
                        if exists|u: int| 0 <= u < t + 1 && cell_of(*s, adj@[u]) == x {
                            let u = choose|u: int| 0 <= u < t + 1 && cell_of(*s, adj@[u]) == x;
                            if u < t {
                            }
                        }
                    }
                }
                t += 1;
            }
            proof {
                assert forall|x: int| 0 <= x < n implies #[trigger] has_cell(marks@, x) == (axis(*s, color, x) > g.reach && exists|j: int, t2: int|
                    0 <= j < i + 1 && marks_of(g.members@, s.board@.len() as int)[j] && 0 <= t2 < neighbours(j % w, j / w, s.size).len() && #[trigger] cell_of(
                        *s,
                        neighbours(j % w, j / w, s.size)[t2],
                    ) == x) by {
                    if exists|u: int| 0 <= u < adj@.len() && cell_of(*s, adj@[u]) == x {
                        let u = choose|u: int| 0 <= u < adj@.len() && cell_of(*s, adj@[u]) == x;
                        assert(cell_of(*s, neighbours(i as int % w, i as int / w, s.size)[u]) == x);
                    }
                    if exists|j: int, t2: int|
                        0 <= j < i + 1 && marks_of(g.members@, s.board@.len() as int)[j] && 0 <= t2 < neighbours(j % w, j / w, s.size).len() && #[trigger] cell_of(
                            *s,
                            neighbours(j % w, j / w, s.size)[t2],
                        ) == x {
                        let (j, t2) = choose|j: int, t2: int|
                            0 <= j < i + 1 && marks_of(g.members@, s.board@.len() as int)[j] && 0 <= t2 < neighbours(j % w, j / w, s.size).len() && #[trigger] cell_of(
                                *s,
                                neighbours(j % w, j / w, s.size)[t2],
                            ) == x;
                        if j == i {
                            assert(cell_of(*s, adj@[t2]) == x);
                        }
                    }
                }
            }
        } else {
            proof {
                assert forall|x: int| 0 <= x < n implies #[trigger] has_cell(marks@, x) == (axis(*s, color, x) > g.reach && exists|j: int, t2: int|
                    0 <= j < i + 1 && marks_of(g.members@, s.board@.len() as int)[j] && 0 <= t2 < neighbours(j % w, j / w, s.size).len() && #[trigger] cell_of(
                        *s,
                        neighbours(j % w, j / w, s.size)[t2],
                    ) == x) by {
                    if exists|j: int, t2: int|
                        0 <= j < i + 1 && marks_of(g.members@, s.board@.len() as int)[j] && 0 <= t2 < neighbours(j % w, j / w, s.size).len() && #[trigger] cell_of(
                            *s,
                            neighbours(j % w, j / w, s.size)[t2],
                        ) == x {
                        let (j, t2) = choose|j: int, t2: int|
                            0 <= j < i + 1 && marks_of(g.members@, s.board@.len() as int)[j] && 0 <= t2 < neighbours(j % w, j / w, s.size).len() && #[trigger] cell_of(
                                *s,
                                neighbours(j % w, j / w, s.size)[t2],
                            ) == x;
                        assert(j != i);
                    }
                }
            }
        }
        i += 1;
    }
    marks
}

/// What the three detectors say of one candidate placement.
#[derive(Clone, Copy, Debug, PartialEq, Eq, Structural)]
pub struct HeuristicFlags {
    /// It touches one of the mover's cells that an opposing lintel could
    /// cover now.
    pub block_threat: bool,
    /// It is a lintel joining the same two of the mover's groups as another
    /// candidate.
    pub defend_fork: bool,
    /// It touches a cell that extends the mover's largest group toward the
    /// far edge, or a cell of the opponent's largest group.
    pub threaten_connection: bool,
}

/// The cells a placement touches: one for a sarsen, three for a lintel.
pub open spec fn touched(s: State, m: PlacedPiece) -> Seq<int> {
    match m.0 {
        Piece::Sarsen => seq![m.1 as int],
        Piece::Lintel(o) => lintel_cells(s, m, o),
    }
}

/// Cell `c` advances the mover's largest group or lies in the opponent's.
pub open spec fn hits(s: State, mover: Player, mine: Seq<bool>, reach: int, theirs: Seq<bool>, c: int) -> bool {
    advances(s, mover, mine, reach, c) || theirs[c]
}

/// The detectors' verdicts on candidate `idx`, given the mover's largest
/// group (`mine`, reaching `reach`) and the opponent's (`theirs`).
pub open spec fn flags_of(
    s: State,
    ds: DisjointSet,
    mover: Player,
    avail: Seq<PlacedPiece>,
    idx: int,
    mine: Seq<bool>,
    reach: int,
    theirs: Seq<bool>,
) -> HeuristicFlags {
    let t = touched(s, avail[idx]);
    HeuristicFlags {
        block_threat: exists|k: int| 0 <= k < t.len() && #[trigger] threatened(s, mover, t[k]),
        defend_fork: is_fork(s, ds, mover, avail, idx),
        threaten_connection: exists|k: int| 0 <= k < t.len() && #[trigger] hits(s, mover, mine, reach, theirs, t[k]),
    }
}

/// The three detectors for every candidate placement of `mover`.
///
/// Which of several equally large groups counts as a player's largest is
/// not fixed: the result holds for some largest group of each player.
pub fn heuristic_flags(state: &HashedState, mover: Player, available: &[PlacedPiece]) -> (r: Vec<HeuristicFlags>)
    requires
        state.0.wf(),
        state.2.faithful_to(state.0.board@, state.0.size),
        forall|j: int| 0 <= j < available@.len() ==> placeable(state.0, #[trigger] available@[j]),
    ensures
        r@.len() == available@.len(),
        exists|mine: Seq<bool>, reach: int, theirs: Seq<bool>, their_reach: int|
            {
                &&& largest_ok(state.0, state.2.set_of(mover), mover, mine, reach)
                &&& largest_ok(state.0, state.2.set_of(opponent(mover)), opponent(mover), theirs, their_reach)
                &&& forall|idx: int|
                    0 <= idx < available@.len() ==> #[trigger] r@[idx] == flags_of(
                        state.0,
                        state.2.set_of(mover),
                        mover,
                        available@,
                        idx,
                        mine,
                        reach,
                        theirs,
                    )
            },
{
    let s = &state.0;
    let opp = match mover {
        Player::Black => Player::White,
        Player::White => Player::Black,
    };
    let ds_mover = state.2.set(mover);
    let ds_opp = state.2.set(opp);
    let threats = threatened_cells(s, mover);
    let forks = fork_moves(s, ds_mover, mover, available);
    let mine = largest_group(s, ds_mover, mover);
    let advance = advance_cells(s, mover, &mine);
    let theirs = largest_group(s, ds_opp, opp);
    let ghost ds = state.2.set_of(mover);
    let mut out: Vec<HeuristicFlags> = Vec::new();
    let mut idx: usize = 0;
    while idx < available.len()
        invariant
            s.wf(),
            *s == state.0,
            *ds_mover == ds,
            ds == state.2.set_of(mover),
            forall|j: int| 0 <= j < available@.len() ==> placeable(*s, #[trigger] available@[j]),
            forall|c: int| 0 <= c < s.board@.len() ==> #[trigger] has_cell(threats@, c) == threatened(*s, mover, c),
            forks@.len() == available@.len(),
            forall|j: int| 0 <= j < available@.len() ==> #[trigger] forks@[j] == is_fork(*s, ds, mover, available@, j),
            forall|c: int| 0 <= c < s.board@.len() ==> #[trigger] has_cell(advance@, c) == advances(*s, mover, marks_of(mine.members@, s.board@.len() as int), mine.reach as int, c),
                        idx <= available.len(),
            out@.len() == idx,
            forall|j: int|
                0 <= j < idx ==> #[trigger] out@[j] == flags_of(*s, ds, mover, available@, j, marks_of(mine.members@, s.board@.len() as int), mine.reach as int, marks_of(theirs.members@, s.board@.len() as int)),
        decreases available.len() - idx,
    {
        let m = available[idx];
        let (cells, n) = s.move_cells(m);
        let ghost t = touched(*s, m);
        proof {
            match m.0 {
                Piece::Sarsen => {
                    assert(t.len() == 1 && t[0] == cells[0] as int);
                },
                Piece::Lintel(o) => {
                    assert(lintel_cell(s.size, m.1 as int, o, 0) == m.1 as int);
                    assert(t.len() == 3);
                    assert(t[0] == cells[0] as int && t[1] == cells[1] as int && t[2] == cells[2] as int);
                },
            }
        }
        let mut block = false;
        let mut threaten = false;
        let mut k: usize = 0;
        while k < n
            invariant
                t.len() == n,
                n <= 3,
                forall|u: int| 0 <= u < n ==> #[trigger] cells[u] as int == t[u],
                forall|u: int| 0 <= u < n ==> #[trigger] cells[u] < s.board@.len(),
                                forall|c: int| 0 <= c < s.board@.len() ==> #[trigger] has_cell(threats@, c) == threatened(*s, mover, c),
                forall|c: int| 0 <= c < s.board@.len() ==> #[trigger] has_cell(advance@, c) == advances(*s, mover, marks_of(mine.members@, s.board@.len() as int), mine.reach as int, c),
                k <= n,
                block == exists|u: int| 0 <= u < k && #[trigger] threatened(*s, mover, t[u]),
                threaten == exists|u: int| 0 <= u < k && #[trigger] hits(*s, mover, marks_of(mine.members@, s.board@.len() as int), mine.reach as int, marks_of(theirs.members@, s.board@.len() as int), t[u]),
            decreases n - k,
        {
            let c = cells[k];
            proof {
                assert(t[k as int] == c as int);
            }
            if cell_set_contains(&threats, c) {
                block = true;
            }
            proof {
                assert(has_cell(threats@, c as int) == threats@.contains(c));
            }
            let theirs_here = cell_set_contains(&theirs.members, c);
            if cell_set_contains(&advance, c) || theirs_here {
                threaten = true;
            }
            proof {
                assert(has_cell(advance@, c as int) == advance@.contains(c));
                assert(hits(*s, mover, marks_of(mine.members@, s.board@.len() as int), mine.reach as int, marks_of(theirs.members@, s.board@.len() as int), t[k as int]) == (has_cell(advance@, c as int) || marks_of(theirs.members@, s.board@.len() as int)[c as int]));
            }
            k += 1;
        }
        out.push(HeuristicFlags { block_threat: block, defend_fork: forks[idx], threaten_connection: threaten });
        idx += 1;
    }
    proof {
        assert(largest_ok(state.0, state.2.set_of(mover), mover, marks_of(mine.members@, s.board@.len() as int), mine.reach as int));
        assert(largest_ok(state.0, state.2.set_of(opponent(mover)), opponent(mover), marks_of(theirs.members@, s.board@.len() as int), theirs.reach as int));
    }
    out
}

} // verus!
