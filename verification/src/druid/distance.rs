//! How many cells a color still needs to join its two edges: the cheapest
//! walk from one edge to the other, where a cell already topped by the
//! color is free and any other cell costs one.

use vstd::prelude::*;
use std::collections::VecDeque;
use crate::druid::connect::{adjacent, col_cells, marked, neighbour_indices, row_cells};
use crate::druid::state::State;
use crate::druid::types::{opponent, Player, Size, Square};

verus! {

/// The cost of cell `i` to `color`: free when `color` tops it, else one.
pub open spec fn step_cost(board: Seq<Square>, color: Player, i: int) -> int {
    if board[i].piece == Some(color) {
        0
    } else {
        1
    }
}

/// The cost of a walk: the number of its cells `color` does not top.
pub open spec fn path_cost(board: Seq<Square>, color: Player, p: Seq<int>) -> int
    decreases p.len(),
{
    if p.len() == 0 {
        0
    } else {
        path_cost(board, color, p.drop_last()) + step_cost(board, color, p.last())
    }
}

/// `p` is a walk over board cells, each step to a neighbour.
pub open spec fn walk(size: Size, p: Seq<int>) -> bool {
    &&& p.len() >= 1
    &&& forall|k: int| 0 <= k < p.len() ==> 0 <= #[trigger] p[k] < size.w * size.h
    &&& forall|k: int| 0 <= k < p.len() - 1 ==> adjacent(size, #[trigger] p[k], p[k + 1])
}

/// `d` is the cost of the cheapest walk from `from` to `to`.
pub open spec fn is_min_cost(board: Seq<Square>, size: Size, color: Player, from: Set<int>, to: Set<int>, d: int) -> bool {
    &&& exists|p: Seq<int>| #[trigger] walk(size, p) && from.contains(p[0]) && to.contains(p.last()) && path_cost(board, color, p) == d
    &&& forall|p: Seq<int>| #[trigger] walk(size, p) && from.contains(p[0]) && to.contains(p.last()) ==> path_cost(board, color, p) >= d
}

/// Some walk from `from` ends at `i` with cost `d`.
pub open spec fn achieves(board: Seq<Square>, size: Size, color: Player, from: Set<int>, i: int, d: int) -> bool {
    exists|p: Seq<int>| #[trigger] walk(size, p) && from.contains(p[0]) && p.last() == i && path_cost(board, color, p) == d
}

/// Every finite distance is the cost of some walk from `from`.
pub open spec fn dist_sound(board: Seq<Square>, size: Size, color: Player, from: Set<int>, dist: Seq<u32>) -> bool {
    forall|i: int| 0 <= i < dist.len() && #[trigger] dist[i] != u32::MAX ==> achieves(board, size, color, from, i, dist[i] as int)
}

/// No start and no step can lower a distance any more.
pub open spec fn dist_relaxed(board: Seq<Square>, size: Size, color: Player, from: Set<int>, dist: Seq<u32>) -> bool {
    &&& forall|s: int| #[trigger] from.contains(s) ==> dist[s] <= step_cost(board, color, s)
    &&& forall|i: int, j: int| #[trigger] adjacent(size, i, j) ==> dist[j] <= dist[i] + step_cost(board, color, j)
}

/// Sum of the first `n` distances.
pub open spec fn dist_sum(d: Seq<u32>, n: int) -> int
    decreases n,
{
    if n <= 0 {
        0
    } else {
        dist_sum(d, n - 1) + d[n - 1]
    }
}

proof fn lemma_dist_sum_update(d: Seq<u32>, j: int, v: u32, n: int)
    requires
        0 <= j < d.len(),
        0 <= n <= d.len(),
    ensures
        dist_sum(d.update(j, v), n) == dist_sum(d, n) + (if j < n { v - d[j] } else { 0 }),
    decreases n,
{
    if n > 0 {
        lemma_dist_sum_update(d, j, v, n - 1);
    }
}

proof fn lemma_dist_sum_nonneg(d: Seq<u32>, n: int)
    ensures
        dist_sum(d, n) >= 0,
    decreases n,
{
    if n > 0 {
        lemma_dist_sum_nonneg(d, n - 1);
    }
}

/// Extending a walk by a cell adds that cell's cost.
proof fn lemma_path_cost_push(board: Seq<Square>, color: Player, p: Seq<int>, j: int)
    ensures
        path_cost(board, color, p.push(j)) == path_cost(board, color, p) + step_cost(board, color, j),
{
    assert(p.push(j).drop_last() =~= p);
}

/// A walk costs at most one per cell.
proof fn lemma_path_cost_bound(board: Seq<Square>, color: Player, p: Seq<int>)
    ensures
        0 <= path_cost(board, color, p) <= p.len(),
    decreases p.len(),
{
    if p.len() > 0 {
        lemma_path_cost_bound(board, color, p.drop_last());
    }
}

/// When no distance can be lowered, each cell of a walk from `from` is at
/// most the cost of the walk up to it.
proof fn lemma_relaxed_lower_bound(
    board: Seq<Square>,
    size: Size,
    color: Player,
    from: Set<int>,
    dist: Seq<u32>,
    p: Seq<int>,
    k: int,
)
    requires
        dist_relaxed(board, size, color, from, dist),
        walk(size, p),
        from.contains(p[0]),
        0 <= k < p.len(),
    ensures
        dist[p[k]] <= path_cost(board, color, p.take(k + 1)),
    decreases k,
{
    if k == 0 {
        assert(p.take(1).drop_last() =~= Seq::<int>::empty());
        assert(p.take(1).last() == p[0]);
        assert(path_cost(board, color, Seq::<int>::empty()) == 0);
        assert(from.contains(p[0]));
    } else {
        lemma_relaxed_lower_bound(board, size, color, from, dist, p, k - 1);
        assert(adjacent(size, p[k - 1], p[k]));
        assert(p.take(k + 1).drop_last() =~= p.take(k));
        assert(p.take(k + 1).last() == p[k]);
    }
}

/// Some walk joins the two edges: a column for Black, a row for White.
proof fn lemma_crossing_exists(board: Seq<Square>, size: Size, color: Player, from: Set<int>, to: Set<int>) -> (p: Seq<int>)
    requires
        size.w >= 1,
        size.h >= 1,
        size.w * size.h <= 127,
        (color == Player::Black && from == row_cells(size, 0) && to == row_cells(size, size.h - 1)) || (color
            == Player::White && from == col_cells(size, 0) && to == col_cells(size, size.w - 1)),
    ensures
        walk(size, p),
        from.contains(p[0]),
        to.contains(p.last()),
        path_cost(board, color, p) <= 127,
{
    let w = size.w as int;
    let h = size.h as int;
    assert(w * h == h * w) by (nonlinear_arith);
    if color == Player::Black {
        let p = Seq::new(size.h as nat, |k: int| k * w);
        assert forall|k: int| 0 <= k < p.len() implies 0 <= #[trigger] p[k] < w * h && p[k] / w == k && p[k] % w == 0 by {
            crate::grid::lemma_grid_pack(k, 0, h, w);
        }
        assert forall|k: int| 0 <= k < p.len() - 1 implies adjacent(size, #[trigger] p[k], p[k + 1]) by {
            assert(p[k] / w == k && p[k + 1] / w == k + 1);
            assert(p[k] % w == 0 && p[k + 1] % w == 0);
        }
        lemma_path_cost_bound(board, color, p);
        assert(h <= 127) by (nonlinear_arith)
            requires
                w * h <= 127,
                w >= 1,
        ;
        p
    } else {
        let p = Seq::new(size.w as nat, |k: int| k);
        assert forall|k: int| 0 <= k < p.len() implies 0 <= #[trigger] p[k] < w * h && p[k] / w == 0 && p[k] % w == k by {
            crate::grid::lemma_grid_pack(0, k, h, w);
        }
        assert forall|k: int| 0 <= k < p.len() - 1 implies adjacent(size, #[trigger] p[k], p[k + 1]) by {
            assert(p[k] / w == 0 && p[k + 1] / w == 0);
        }
        lemma_path_cost_bound(board, color, p);
        assert(w <= 127) by (nonlinear_arith)
            requires
                w * h <= 127,
                h >= 1,
        ;
        p
    }
}

/// A one-cell walk from a start costs that cell.
proof fn lemma_start_achieves(board: Seq<Square>, size: Size, color: Player, from: Set<int>, s: int)
    requires
        0 <= s < size.w * size.h,
        from.contains(s),
    ensures
        achieves(board, size, color, from, s, step_cost(board, color, s)),
{
    let p = seq![s];
    assert(p.drop_last() =~= Seq::<int>::empty());
    assert(path_cost(board, color, Seq::<int>::empty()) == 0);
    assert(path_cost(board, color, p) == step_cost(board, color, s));
    assert(walk(size, p));
    assert(from.contains(p[0]) && p.last() == s);
}

/// A step from a reached cell reaches its neighbour at the added cost.
proof fn lemma_step_achieves(board: Seq<Square>, size: Size, color: Player, from: Set<int>, i: int, d: int, j: int)
    requires
        achieves(board, size, color, from, i, d),
        adjacent(size, i, j),
    ensures
        achieves(board, size, color, from, j, d + step_cost(board, color, j)),
{
    let p = choose|p: Seq<int>| #[trigger] walk(size, p) && from.contains(p[0]) && p.last() == i && path_cost(board, color, p) == d;
    let q = p.push(j);
    lemma_path_cost_push(board, color, p, j);
    assert(q[q.len() - 2] == i);
    assert(walk(size, q));
}

impl State {
    /// The cost of cell `i` to `color`.
    fn cell_cost(&self, i: usize, color: Player) -> (r: u32)
        requires
            i < self.board@.len(),
        ensures
            r == step_cost(self.board@, color, i as int),
    {
        if self.board[i].matches(color) {
            0
        } else {
            1
        }
    }

    /// The cheapest number of cells `color` still needs to join its two
    /// edges (top and bottom for Black, left and right for White), counting
    /// one for every cell of the walk it does not already top.
    pub fn connect_distance(&self, color: Player) -> (r: u32)
        requires
            self.wf(),
        ensures
            color == Player::Black ==> is_min_cost(
                self.board@,
                self.size,
                color,
                row_cells(self.size, 0),
                row_cells(self.size, self.size.h - 1),
                r as int,
            ),
            color == Player::White ==> is_min_cost(
                self.board@,
                self.size,
                color,
                col_cells(self.size, 0),
                col_cells(self.size, self.size.w - 1),
                r as int,
            ),
    {
        proof {
            assert(self.size.w * self.size.h <= 127) by (nonlinear_arith)
                requires
                    2 * self.size.w * self.size.h <= 255,
            ;
        }
        let ghost board = self.board@;
        let ghost size = self.size;
        let area = self.board.len();
        let (start, goal) = match color {
            Player::Black => (self.row_mask(0), self.row_mask(self.size.h - 1)),
            Player::White => (self.col_mask(0), self.col_mask(self.size.w - 1)),
        };
        let ghost from = marked(start@);
        let ghost to = marked(goal@);
        let mut dist: Vec<u32> = Vec::new();
        let mut done: Vec<bool> = Vec::new();
        let mut i: usize = 0;
        while i < area
            invariant
                i <= area,
                dist@.len() == i,
                done@.len() == i,
                forall|k: int| 0 <= k < i ==> #[trigger] dist@[k] == u32::MAX,
            decreases area - i,
        {
            dist.push(u32::MAX);
            done.push(false);
            i += 1;
        }
        let mut deque: VecDeque<usize> = VecDeque::new();
        let mut s: usize = 0;
        while s < area
            invariant
                self.wf(),
                board == self.board@,
                size == self.size,
                area == board.len(),
                area <= 127,
                start@.len() == area,
                from == marked(start@),
                s <= area,
                dist@.len() == area,
                done@.len() == area,
                dist_sound(board, size, color, from, dist@),
                forall|k: int| 0 <= k < deque@.len() ==> #[trigger] deque@[k] < area && dist@[deque@[k] as int] != u32::MAX,
            decreases area - s,
        {
            if start[s] {
                let c = self.cell_cost(s, color);
                if c < dist[s] {
                    proof {
                        lemma_start_achieves(board, size, color, from, s as int);
                    }
                    dist.set(s, c);
                    if c == 0 {
                        deque.push_front(s);
                    } else {
                        deque.push_back(s);
                    }
                }
            }
            s += 1;
        }
        while deque.len() > 0
            invariant
                self.wf(),
                board == self.board@,
                size == self.size,
                area == board.len(),
                area <= 127,
                from == marked(start@),
                dist@.len() == area,
                done@.len() == area,
                dist_sound(board, size, color, from, dist@),
                forall|k: int| 0 <= k < deque@.len() ==> #[trigger] deque@[k] < area && dist@[deque@[k] as int] != u32::MAX,
            decreases 2 * dist_sum(dist@, area as int) + deque@.len(),
        {
            proof {
                lemma_dist_sum_nonneg(dist@, area as int);
            }
            let ghost m0 = 2 * dist_sum(dist@, area as int) + deque@.len();
            let i = match deque.pop_front() {
                Some(i) => i,
                None => {
                    break;
                },
            };
            if done[i] {
                proof {
                    lemma_dist_sum_nonneg(dist@, area as int);
                }
                continue;
            }
            done.set(i, true);
            let d = dist[i];
            let nb = neighbour_indices(self.size, i);
            let mut t: usize = 0;
            while t < nb.len()
                invariant
                    self.wf(),
                    board == self.board@,
                    size == self.size,
                    area == board.len(),
                    area <= 127,
                    from == marked(start@),
                    i < area,
                    d != u32::MAX,
                    achieves(board, size, color, from, i as int, d as int),
                    forall|k: int| 0 <= k < nb@.len() ==> adjacent(size, i as int, #[trigger] nb@[k] as int),
                    t <= nb@.len(),
                    dist@.len() == area,
                    done@.len() == area,
                    dist_sound(board, size, color, from, dist@),
                    forall|k: int| 0 <= k < deque@.len() ==> #[trigger] deque@[k] < area && dist@[deque@[k] as int] != u32::MAX,
                    2 * dist_sum(dist@, area as int) + deque@.len() < m0,
                decreases nb@.len() - t,
            {
                let j = nb[t];
                assert(adjacent(size, i as int, j as int));
                if !done[j] {
                    let step = self.cell_cost(j, color);
                    let nd = d + step;
                    if nd < dist[j] {
                        proof {
                            lemma_step_achieves(board, size, color, from, i as int, d as int, j as int);
                            lemma_dist_sum_update(dist@, j as int, nd, area as int);
                        }
                        dist.set(j, nd);
                        if step == 0 {
                            deque.push_front(j);
                        } else {
                            deque.push_back(j);
                        }
                    }
                }
                t += 1;
            }
            proof {
                lemma_dist_sum_nonneg(dist@, area as int);
            }
        }
        let ghost bfs_dist = dist@;
        let mut changed = true;
        while changed
            invariant
                self.wf(),
                board == self.board@,
                size == self.size,
                area == board.len(),
                area <= 127,
                start@.len() == area,
                from == marked(start@),
                dist@.len() == area,
                dist_sound(board, size, color, from, dist@),
                !changed ==> dist_relaxed(board, size, color, from, dist@),
            decreases dist_sum(dist@, area as int) + (if changed { 1int } else { 0int }),
        {
            proof {
                lemma_dist_sum_nonneg(dist@, area as int);
            }
            let ghost pass_start = dist@;
            changed = false;
            let mut s: usize = 0;
            while s < area
                invariant
                    self.wf(),
                    board == self.board@,
                    size == self.size,
                    area == board.len(),
                    area <= 127,
                    start@.len() == area,
                    from == marked(start@),
                    s <= area,
                    dist@.len() == area,
                    dist_sound(board, size, color, from, dist@),
                    dist_sum(dist@, area as int) <= dist_sum(pass_start, area as int),
                    changed ==> dist_sum(dist@, area as int) < dist_sum(pass_start, area as int),
                    !changed ==> dist@ == pass_start,
                    !changed ==> forall|k: int| 0 <= k < s && #[trigger] from.contains(k) ==> pass_start[k] <= step_cost(board, color, k),
                decreases area - s,
            {
                if start[s] {
                    let c = self.cell_cost(s, color);
                    if c < dist[s] {
                        proof {
                            lemma_start_achieves(board, size, color, from, s as int);
                            lemma_dist_sum_update(dist@, s as int, c, area as int);
                        }
                        dist.set(s, c);
                        changed = true;
                    }
                }
                s += 1;
            }
            let mut i: usize = 0;
            while i < area
                invariant
                    self.wf(),
                    board == self.board@,
                    size == self.size,
                    area == board.len(),
                    area <= 127,
                    from == marked(start@),
                    i <= area,
                    dist@.len() == area,
                    dist_sound(board, size, color, from, dist@),
                    dist_sum(dist@, area as int) <= dist_sum(pass_start, area as int),
                    changed ==> dist_sum(dist@, area as int) < dist_sum(pass_start, area as int),
                    !changed ==> dist@ == pass_start,
                    !changed ==> forall|k: int| 0 <= k < area && #[trigger] from.contains(k) ==> pass_start[k] <= step_cost(board, color, k),
                    !changed ==> forall|a: int, b: int| 0 <= a < i && #[trigger] adjacent(size, a, b) ==> pass_start[b] <= pass_start[a] + step_cost(board, color, b),
                decreases area - i,
            {
                let d = dist[i];
                let nb = neighbour_indices(self.size, i);
                if d != u32::MAX {
                    let mut t: usize = 0;
                    while t < nb.len()
                        invariant
                            self.wf(),
                            board == self.board@,
                            size == self.size,
                            area == board.len(),
                            area <= 127,
                            from == marked(start@),
                            i < area,
                            d != u32::MAX,
                            achieves(board, size, color, from, i as int, d as int),
                            !changed ==> d == dist@[i as int],
                            forall|k: int| 0 <= k < nb@.len() ==> adjacent(size, i as int, #[trigger] nb@[k] as int),
                            t <= nb@.len(),
                            dist@.len() == area,
                            dist_sound(board, size, color, from, dist@),
                            dist_sum(dist@, area as int) <= dist_sum(pass_start, area as int),
                            changed ==> dist_sum(dist@, area as int) < dist_sum(pass_start, area as int),
                            !changed ==> dist@ == pass_start,
                            !changed ==> forall|k: int| 0 <= k < t ==> pass_start[#[trigger] nb@[k] as int] <= d + step_cost(board, color, nb@[k] as int),
                            !changed ==> forall|k: int| 0 <= k < area && #[trigger] from.contains(k) ==> pass_start[k] <= step_cost(board, color, k),
                            !changed ==> forall|a: int, b: int| 0 <= a < i && #[trigger] adjacent(size, a, b) ==> pass_start[b] <= pass_start[a] + step_cost(board, color, b),
                        decreases nb@.len() - t,
                    {
                        let j = nb[t];
                        assert(adjacent(size, i as int, j as int));
                        let c = self.cell_cost(j, color);
                        let nd = d + c;
                        if nd < dist[j] {
                            proof {
                                lemma_step_achieves(board, size, color, from, i as int, d as int, j as int);
                                lemma_dist_sum_update(dist@, j as int, nd, area as int);
                            }
                            dist.set(j, nd);
                            changed = true;
                        }
                        t += 1;
                    }
                }
                proof {
                    if !changed {
                        assert forall|a: int, b: int| 0 <= a < i + 1 && #[trigger] adjacent(size, a, b) implies pass_start[b] <= pass_start[a] + step_cost(board, color, b) by {
                            if a == i {
                                if d != u32::MAX {
                                    let k = choose|k: int| 0 <= k < nb@.len() && #[trigger] nb@[k] == b;
                                    assert(pass_start[nb@[k] as int] <= d + step_cost(board, color, nb@[k] as int));
                                }
                            }
                        }
                    }
                }
                i += 1;
            }
            proof {
                lemma_dist_sum_nonneg(dist@, area as int);
                if !changed {
                    assert(dist_relaxed(board, size, color, from, dist@)) by {
                        assert forall|k: int| #[trigger] from.contains(k) implies dist@[k] <= step_cost(board, color, k) by {
                            assert(0 <= k < area);
                        }
                        assert forall|a: int, b: int| #[trigger] adjacent(size, a, b) implies dist@[b] <= dist@[a] + step_cost(board, color, b) by {
                            assert(0 <= a < area);
                        }
                    }
                }
            }
        }
        let mut best: u32 = u32::MAX;
        let mut g: usize = 0;
        while g < area
            invariant
                self.wf(),
                board == self.board@,
                size == self.size,
                area == board.len(),
                goal@.len() == area,
                to == marked(goal@),
                g <= area,
                dist@.len() == area,
                forall|k: int| 0 <= k < g && #[trigger] goal@[k] ==> best <= dist@[k],
                best == u32::MAX || exists|k: int| 0 <= k < g && #[trigger] goal@[k] && best == dist@[k],
            decreases area - g,
        {
            if goal[g] && dist[g] < best {
                best = dist[g];
            }
            g += 1;
        }
        proof {
            let ghost cross = lemma_crossing_exists(board, size, color, from, to);
            lemma_relaxed_lower_bound(board, size, color, from, dist@, cross, cross.len() - 1);
            assert(cross.take(cross.len() as int) =~= cross);
            assert(goal@[cross.last()]);
            assert(best <= dist@[cross.last()]);
            assert(best != u32::MAX);
            let k = choose|k: int| 0 <= k < area && #[trigger] goal@[k] && best == dist@[k];
            assert(achieves(board, size, color, from, k, best as int));
            let p = choose|p: Seq<int>| #[trigger] walk(size, p) && from.contains(p[0]) && p.last() == k && path_cost(board, color, p) == best as int;
            assert(to.contains(p.last()));
            assert forall|q: Seq<int>| #[trigger] walk(size, q) && from.contains(q[0]) && to.contains(q.last()) implies path_cost(board, color, q) >= best by {
                lemma_relaxed_lower_bound(board, size, color, from, dist@, q, q.len() - 1);
                assert(q.take(q.len() as int) =~= q);
                assert(goal@[q.last()]);
            }
        }
        best
    }
}


/// A walk over cells that cost at least as much on `b2` as on `b1` costs at
/// least as much on `b2`.
proof fn lemma_path_cost_dominated(b1: Seq<Square>, b2: Seq<Square>, color: Player, p: Seq<int>)
    requires
        forall|k: int| 0 <= k < p.len() ==> step_cost(b1, color, #[trigger] p[k]) <= step_cost(b2, color, p[k]),
    ensures
        path_cost(b1, color, p) <= path_cost(b2, color, p),
    decreases p.len(),
{
    if p.len() > 0 {
        let q = p.drop_last();
        assert forall|k: int| 0 <= k < q.len() implies step_cost(b1, color, #[trigger] q[k]) <= step_cost(b2, color, q[k]) by {
            assert(q[k] == p[k]);
        }
        lemma_path_cost_dominated(b1, b2, color, q);
        assert(p.last() == p[p.len() - 1]);
    }
}

/// When no cell costs less on `b2` than on `b1`, the cheapest crossing on
/// `b2` costs no less than the one on `b1`.
proof fn lemma_min_cost_dominated(
    b1: Seq<Square>,
    b2: Seq<Square>,
    size: Size,
    color: Player,
    from: Set<int>,
    to: Set<int>,
    d1: int,
    d2: int,
)
    requires
        forall|j: int| 0 <= j < size.w * size.h ==> step_cost(b1, color, j) <= #[trigger] step_cost(b2, color, j),
        is_min_cost(b1, size, color, from, to, d1),
        is_min_cost(b2, size, color, from, to, d2),
    ensures
        d1 <= d2,
{
    let p = choose|p: Seq<int>| #[trigger] walk(size, p) && from.contains(p[0]) && to.contains(p.last()) && path_cost(b2, color, p) == d2;
    assert forall|k: int| 0 <= k < p.len() implies step_cost(b1, color, #[trigger] p[k]) <= step_cost(b2, color, p[k]) by {
        assert(0 <= p[k] < size.w * size.h);
    }
    lemma_path_cost_dominated(b1, b2, color, p);
}

/// An opposing piece never brings a color closer to joining its edges: a
/// cell topped by the opponent costs one, as an empty cell does, so
/// putting an opposing piece on any cell leaves the cheapest crossing at
/// least as dear.
pub proof fn lemma_opposing_piece_never_helps(
    board: Seq<Square>,
    size: Size,
    color: Player,
    from: Set<int>,
    to: Set<int>,
    i: int,
    sq: Square,
    before: int,
    after: int,
)
    requires
        board.len() == size.w * size.h,
        0 <= i < board.len(),
        sq.piece == Some(opponent(color)),
        is_min_cost(board, size, color, from, to, before),
        is_min_cost(board.update(i, sq), size, color, from, to, after),
    ensures
        before <= after,
{
    let b2 = board.update(i, sq);
    assert(opponent(color) != color);
    assert forall|j: int| 0 <= j < size.w * size.h implies step_cost(board, color, j) <= #[trigger] step_cost(b2, color, j) by {
        if j == i {
            assert(b2[i].piece != Some(color));
        } else if 0 <= j < board.len() {
            assert(b2[j] == board[j]);
        }
    }
    lemma_min_cost_dominated(board, b2, size, color, from, to, before, after);
}

/// To a color, a cell topped by the opponent is no better than an empty
/// one: with cell `i` empty or with an opposing piece on it, the cheapest
/// crossing costs the same.
pub proof fn lemma_opposing_cell_costs_as_empty(
    board: Seq<Square>,
    size: Size,
    color: Player,
    from: Set<int>,
    to: Set<int>,
    i: int,
    taken: Square,
    empty: Square,
    d_taken: int,
    d_empty: int,
)
    requires
        board.len() == size.w * size.h,
        0 <= i < board.len(),
        taken.piece == Some(opponent(color)),
        empty.piece is None,
        is_min_cost(board.update(i, taken), size, color, from, to, d_taken),
        is_min_cost(board.update(i, empty), size, color, from, to, d_empty),
    ensures
        d_taken == d_empty,
{
    let bt = board.update(i, taken);
    let be = board.update(i, empty);
    assert(opponent(color) != color);
    assert forall|j: int| 0 <= j < size.w * size.h implies step_cost(bt, color, j) == #[trigger] step_cost(be, color, j) by {
        if j == i {
            assert(bt[i].piece != Some(color));
            assert(be[i].piece != Some(color));
        } else if 0 <= j < board.len() {
            assert(bt[j] == board[j]);
            assert(be[j] == board[j]);
        }
    }
    lemma_min_cost_dominated(bt, be, size, color, from, to, d_taken, d_empty);
    lemma_min_cost_dominated(be, bt, size, color, from, to, d_empty, d_taken);
}

/// A color's own piece never takes it further from joining its edges: a
/// cell it tops is free, so putting its piece on any cell leaves the
/// cheapest crossing no dearer.
pub proof fn lemma_own_piece_never_hurts(
    board: Seq<Square>,
    size: Size,
    color: Player,
    from: Set<int>,
    to: Set<int>,
    i: int,
    sq: Square,
    before: int,
    after: int,
)
    requires
        board.len() == size.w * size.h,
        0 <= i < board.len(),
        sq.piece == Some(color),
        is_min_cost(board, size, color, from, to, before),
        is_min_cost(board.update(i, sq), size, color, from, to, after),
    ensures
        after <= before,
{
    let b2 = board.update(i, sq);
    assert forall|j: int| 0 <= j < size.w * size.h implies step_cost(b2, color, j) <= #[trigger] step_cost(board, color, j) by {
        if j != i {
            assert(b2[j] == board[j]);
        }
    }
    lemma_min_cost_dominated(b2, board, size, color, from, to, after, before);
}

} // verus!
