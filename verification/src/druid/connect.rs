//! Connections on a Druid board: which cells neighbour which, whether a
//! color joins its two edges, and how many cells it still needs to.

use vstd::prelude::*;
use rustc_hash::FxHashSet;
use crate::druid::cellset::{cell_set_contains, cell_set_insert, has_cell, marks_of};
use crate::druid::state::State;
use crate::druid::types::{hand_sarsens, Player, Pos, Size, Square};

verus! {

/// Whether cells `a` and `b` are orthogonal neighbours on a `size` board.
pub open spec fn adjacent(size: Size, a: int, b: int) -> bool {
    let w = size.w as int;
    &&& 0 <= a < w * size.h
    &&& 0 <= b < w * size.h
    &&& ((a % w == b % w && (a / w == b / w + 1 || b / w == a / w + 1)) || (a / w == b / w && (a % w == b % w + 1
        || b % w == a % w + 1)))
}

/// The neighbours of cell `i`, in the order left, right, down, up.
pub open spec fn neighbour_seq(size: Size, i: int) -> Seq<int> {
    let w = size.w as int;
    let x = i % w;
    let y = i / w;
    let l = if x >= 1 { seq![i - 1] } else { Seq::empty() };
    let r = if x + 1 < w { seq![i + 1] } else { Seq::empty() };
    let d = if y >= 1 { seq![i - w] } else { Seq::empty() };
    let u = if y + 1 < size.h { seq![i + w] } else { Seq::empty() };
    l + r + d + u
}

/// A cell's neighbours are the cells one step left, right, down or up that
/// stay on the board.
pub proof fn lemma_adjacent_iff(size: Size, a: int, b: int)
    requires
        size.w >= 1,
        0 <= a < size.w * size.h,
    ensures
        adjacent(size, a, b) <==> neighbour_seq(size, a).contains(b),
{
    let w = size.w as int;
    let h = size.h as int;
    assert(w * h == h * w) by (nonlinear_arith);
    crate::grid::lemma_grid_split(a, h, w);
    let x = a % w;
    let y = a / w;
    let l = if x >= 1 { seq![a - 1] } else { Seq::<int>::empty() };
    let r = if x + 1 < w { seq![a + 1] } else { Seq::<int>::empty() };
    let d = if y >= 1 { seq![a - w] } else { Seq::<int>::empty() };
    let u = if y + 1 < h { seq![a + w] } else { Seq::<int>::empty() };
    let s = neighbour_seq(size, a);
    assert(s == l + r + d + u);
    let left = x >= 1 && b == a - 1;
    let right = x + 1 < w && b == a + 1;
    let down = y >= 1 && b == a - w;
    let up = y + 1 < h && b == a + w;
    assert(s.contains(b) <==> (left || right || down || up)) by {
        if s.contains(b) {
            let k = choose|k: int| 0 <= k < s.len() && s[k] == b;
            if k < l.len() {
                assert(l[k] == b);
            } else if k < l.len() + r.len() {
                assert(r[k - l.len()] == b);
            } else if k < l.len() + r.len() + d.len() {
                assert(d[k - l.len() - r.len()] == b);
            } else {
                assert(u[k - l.len() - r.len() - d.len()] == b);
            }
        }
        if left {
            assert(s[0] == b);
        }
        if right {
            assert(s[l.len() as int] == b);
        }
        if down {
            assert(s[(l.len() + r.len()) as int] == b);
        }
        if up {
            assert(s[(l.len() + r.len() + d.len()) as int] == b);
        }
    }
    if left {
        crate::grid::lemma_grid_pack(y, x - 1, h, w);
        assert(adjacent(size, a, b));
    }
    if right {
        crate::grid::lemma_grid_pack(y, x + 1, h, w);
        assert(adjacent(size, a, b));
    }
    if down {
        assert((y - 1) * w + x == a - w) by (nonlinear_arith)
            requires
                a == y * w + x,
        ;
        crate::grid::lemma_grid_pack(y - 1, x, h, w);
        assert(adjacent(size, a, b));
    }
    if up {
        assert((y + 1) * w + x == a + w) by (nonlinear_arith)
            requires
                a == y * w + x,
        ;
        crate::grid::lemma_grid_pack(y + 1, x, h, w);
        assert(adjacent(size, a, b));
    }
    if adjacent(size, a, b) {
        crate::grid::lemma_grid_split(b, h, w);
        let xb = b % w;
        let yb = b / w;
        if x == xb && y == yb + 1 {
            assert(b == a - w) by (nonlinear_arith)
                requires
                    a == y * w + x,
                    b == yb * w + xb,
                    x == xb,
                    y == yb + 1,
            ;
            assert(down);
        } else if x == xb && yb == y + 1 {
            assert(b == a + w) by (nonlinear_arith)
                requires
                    a == y * w + x,
                    b == yb * w + xb,
                    x == xb,
                    yb == y + 1,
            ;
            assert(up);
        } else if y == yb && x == xb + 1 {
            assert(left);
        } else {
            assert(right);
        }
    }
}

/// Adjacency is symmetric.
pub proof fn lemma_adjacent_symmetric(size: Size, a: int, b: int)
    ensures
        adjacent(size, a, b) == adjacent(size, b, a),
{
}

/// The board indices of the neighbours of cell `i`, left, right, down, up.
pub fn neighbour_indices(size: Size, i: usize) -> (r: Vec<usize>)
    requires
        size.w >= 1,
        size.h >= 1,
        hand_sarsens(size) <= u8::MAX,
        i < size.w * size.h,
    ensures
        r@.map_values(|v: usize| v as int) == neighbour_seq(size, i as int),
        forall|k: int| 0 <= k < r@.len() ==> adjacent(size, i as int, #[trigger] r@[k] as int),
        forall|u: int| adjacent(size, i as int, u) ==> exists|k: int| 0 <= k < r@.len() && #[trigger] r@[k] == u,
{
    let w = size.w as usize;
    let h = size.h as usize;
    proof {
        assert(size.w * size.h <= 127) by (nonlinear_arith)
            requires
                2 * size.w * size.h <= 255,
        ;
        assert(w * h == h * w) by (nonlinear_arith);
        crate::grid::lemma_grid_split(i as int, h as int, w as int);
    }
    let x = i % w;
    let y = i / w;
    let mut out: Vec<usize> = Vec::new();
    if x >= 1 {
        out.push(i - 1);
    }
    if x + 1 < w {
        out.push(i + 1);
    }
    if y >= 1 {
        proof {
            assert(i >= w) by (nonlinear_arith)
                requires
                    i == y * w + x,
                    y >= 1,
                    x >= 0,
            ;
        }
        out.push(i - w);
    }
    if y + 1 < h {
        proof {
            assert(i + w < w * h) by (nonlinear_arith)
                requires
                    i == y * w + x,
                    x < w,
                    y + 1 < h,
            ;
        }
        out.push(i + w);
    }
    proof {
        let s = neighbour_seq(size, i as int);
        let m = out@.map_values(|v: usize| v as int);
        assert(m =~= s);
        assert forall|t: int| 0 <= t < out@.len() implies adjacent(size, i as int, #[trigger] out@[t] as int) by {
            lemma_adjacent_iff(size, i as int, out@[t] as int);
            assert(m[t] == out@[t] as int);
        }
        assert forall|u: int| adjacent(size, i as int, u) implies exists|t: int| 0 <= t < out@.len() && #[trigger] out@[t] == u by {
            lemma_adjacent_iff(size, i as int, u);
            let t = choose|t: int| 0 <= t < s.len() && s[t] == u;
            assert(m[t] == out@[t] as int);
        }
    }
    out
}

/// `p` is a walk through cells topped by `color`, each step to a
/// neighbour.
pub open spec fn color_path(board: Seq<Square>, size: Size, color: Player, p: Seq<int>) -> bool {
    &&& p.len() >= 1
    &&& forall|k: int| 0 <= k < p.len() ==> 0 <= #[trigger] p[k] < board.len() && board[p[k]].piece == Some(color)
    &&& forall|k: int| 0 <= k < p.len() - 1 ==> adjacent(size, #[trigger] p[k], p[k + 1])
}

/// Some walk through `color`'s cells leads from `from` to cell `v`.
pub open spec fn reaches(board: Seq<Square>, size: Size, color: Player, from: Set<int>, v: int) -> bool {
    exists|p: Seq<int>| #[trigger] color_path(board, size, color, p) && from.contains(p[0]) && p.last() == v
}

/// Some walk through `color`'s cells leads from `from` to `to`.
pub open spec fn joins(board: Seq<Square>, size: Size, color: Player, from: Set<int>, to: Set<int>) -> bool {
    exists|p: Seq<int>| #[trigger] color_path(board, size, color, p) && from.contains(p[0]) && to.contains(p.last())
}

/// The cells marked in a mask.
pub open spec fn marked(mask: Seq<bool>) -> Set<int> {
    Set::new(|i: int| 0 <= i < mask.len() && mask[i])
}

/// Number of marked entries among the first `n` of a mask.
pub open spec fn count_marked(s: Seq<bool>, n: int) -> nat
    decreases n,
{
    if n <= 0 {
        0
    } else {
        count_marked(s, n - 1) + if s[n - 1] {
            1nat
        } else {
            0nat
        }
    }
}

/// Marking one more entry counts one more.
proof fn lemma_count_mark(s: Seq<bool>, j: int, n: int)
    requires
        0 <= j < s.len(),
        0 <= n <= s.len(),
        !s[j],
    ensures
        count_marked(s.update(j, true), n) == count_marked(s, n) + (if j < n { 1nat } else { 0nat }),
    decreases n,
{
    if n > 0 {
        lemma_count_mark(s, j, n - 1);
    }
}

/// No more entries are marked than there are.
proof fn lemma_count_bound(s: Seq<bool>, n: int)
    requires
        0 <= n,
    ensures
        count_marked(s, n) <= n,
    decreases n,
{
    if n > 0 {
        lemma_count_bound(s, n - 1);
    }
}

/// Every colored neighbour of `v` is seen.
pub open spec fn closed(board: Seq<Square>, size: Size, color: Player, seen: Seq<bool>, v: int) -> bool {
    forall|u: int| #[trigger] adjacent(size, v, u) && board[u].piece == Some(color) ==> seen[u]
}

/// When every seen cell has its colored neighbours seen and every colored
/// start is seen, a walk from a start stays among the seen cells.
proof fn lemma_walk_stays_seen(
    board: Seq<Square>,
    size: Size,
    color: Player,
    start: Seq<bool>,
    seen: Seq<bool>,
    p: Seq<int>,
    k: int,
)
    requires
        seen.len() == board.len(),
        start.len() == board.len(),
        color_path(board, size, color, p),
        marked(start).contains(p[0]),
        forall|v: int| 0 <= v < board.len() && #[trigger] start[v] && board[v].piece == Some(color) ==> seen[v],
        forall|v: int| 0 <= v < board.len() && #[trigger] seen[v] ==> closed(board, size, color, seen, v),
        0 <= k < p.len(),
    ensures
        seen[p[k]],
    decreases k,
{
    if k > 0 {
        lemma_walk_stays_seen(board, size, color, start, seen, p, k - 1);
        assert(adjacent(size, p[k - 1], p[k]));
        assert(closed(board, size, color, seen, p[k - 1]));
    } else {
        assert(start[p[0]]);
    }
}

/// The flood's bookkeeping: every seen cell is colored, reached from the
/// starts and not a goal; the stack holds seen cells; every seen cell off
/// the stack (but `exempt`) has its colored neighbours seen; and every
/// colored start below `started` is seen.
pub open spec fn flood_inv(
    board: Seq<Square>,
    size: Size,
    color: Player,
    start: Seq<bool>,
    goal: Seq<bool>,
    seen: Seq<bool>,
    stack: Seq<usize>,
    exempt: int,
    started: int,
) -> bool {
    &&& board.len() == size.w * size.h
    &&& 0 <= started <= board.len()
    &&& seen.len() == board.len()
    &&& start.len() == board.len()
    &&& goal.len() == board.len()
    &&& forall|v: int|
        0 <= v < board.len() && #[trigger] seen[v] ==> board[v].piece == Some(color) && reaches(
            board,
            size,
            color,
            marked(start),
            v,
        ) && !goal[v]
    &&& forall|k: int| 0 <= k < stack.len() ==> #[trigger] stack[k] < board.len() && seen[stack[k] as int]
    &&& forall|v: int|
        0 <= v < board.len() && #[trigger] seen[v] && !stack.contains(v as usize) && v != exempt ==> closed(
            board,
            size,
            color,
            seen,
            v,
        )
    &&& forall|v: int| 0 <= v < started && #[trigger] start[v] && board[v].piece == Some(color) ==> seen[v]
}

/// Marking a new reached cell and pushing it keeps the bookkeeping.
proof fn lemma_flood_mark(
    board: Seq<Square>,
    size: Size,
    color: Player,
    start: Seq<bool>,
    goal: Seq<bool>,
    seen: Seq<bool>,
    stack: Seq<usize>,
    exempt: int,
    started: int,
    j: int,
)
    requires
        flood_inv(board, size, color, start, goal, seen, stack, exempt, started),
        board.len() <= u8::MAX,
        0 <= j < board.len(),
        !seen[j],
        board[j].piece == Some(color),
        reaches(board, size, color, marked(start), j),
        !goal[j],
    ensures
        flood_inv(board, size, color, start, goal, seen.update(j, true), stack.push(j as usize), exempt, started),
{
    let seen2 = seen.update(j, true);
    let stack2 = stack.push(j as usize);
    assert forall|k: int| 0 <= k < stack2.len() implies #[trigger] stack2[k] < board.len() && seen2[stack2[k] as int] by {
        if k < stack.len() {
            assert(stack2[k] == stack[k]);
        }
    }
    assert forall|v: int|
        0 <= v < board.len() && #[trigger] seen2[v] && !stack2.contains(v as usize) && v != exempt implies closed(
        board,
        size,
        color,
        seen2,
        v,
    ) by {
        if v == j {
            assert(stack2[stack.len() as int] == j as usize);
            assert(stack2.contains(v as usize));
        } else {
            if stack.contains(v as usize) {
                let k = choose|k: int| 0 <= k < stack.len() && stack[k] == v as usize;
                assert(stack2[k] == v as usize);
            }
            assert(seen[v]);
            assert(closed(board, size, color, seen, v));
            assert forall|u: int| #[trigger] adjacent(size, v, u) && board[u].piece == Some(color) implies seen2[u] by {
                assert(seen[u]);
            }
        }
    }
    assert forall|v: int|
        0 <= v < board.len() && #[trigger] seen2[v] implies board[v].piece == Some(color) && reaches(
        board,
        size,
        color,
        marked(start),
        v,
    ) && !goal[v] by {
        if v != j {
            assert(seen[v]);
        }
    }
    assert forall|v: int| 0 <= v < started && #[trigger] start[v] && board[v].piece == Some(color) implies seen2[v] by {
        if v != j {
            assert(seen[v]);
        }
    }
}

/// Popping the top cell keeps the bookkeeping, with that cell exempt until
/// its neighbours are visited.
proof fn lemma_flood_pop(
    board: Seq<Square>,
    size: Size,
    color: Player,
    start: Seq<bool>,
    goal: Seq<bool>,
    seen: Seq<bool>,
    stack: Seq<usize>,
    started: int,
)
    requires
        flood_inv(board, size, color, start, goal, seen, stack, -1, started),
        board.len() <= u8::MAX,
        stack.len() > 0,
    ensures
        flood_inv(board, size, color, start, goal, seen, stack.drop_last(), stack.last() as int, started),
{
    let s2 = stack.drop_last();
    assert forall|k: int| 0 <= k < s2.len() implies #[trigger] s2[k] < board.len() && seen[s2[k] as int] by {
        assert(s2[k] == stack[k]);
    }
    assert forall|v: int|
        0 <= v < board.len() && #[trigger] seen[v] && !s2.contains(v as usize) && v != stack.last() as int implies closed(
        board,
        size,
        color,
        seen,
        v,
    ) by {
        if stack.contains(v as usize) {
            let k = choose|k: int| 0 <= k < stack.len() && stack[k] == v as usize;
            if k == stack.len() - 1 {
                assert(stack.last() == v as usize);
                assert(false);
            }
            assert(s2[k] == v as usize);
        }
    }
}

/// Number of steps the flood may still take: two per unseen cell plus one
/// per stacked cell.
pub open spec fn flood_measure(area: int, count: int, stack_len: int) -> int {
    2 * (area - count) + stack_len
}

impl State {
    /// Whether some walk through `color`'s cells leads from a cell marked
    /// in `start` to one marked in `goal`, by flooding out from the starts.
    fn floods_to(&self, start: &Vec<bool>, goal: &FxHashSet<usize>, color: Player) -> (r: bool)
        requires
            self.wf(),
            start@.len() == self.board@.len(),
        ensures
            r == joins(self.board@, self.size, color, marked(start@), marked(marks_of(goal@, self.board@.len() as int))),
    {
        let ghost goal_mask = marks_of(goal@, self.board@.len() as int);
        let ghost board = self.board@;
        let ghost size = self.size;
        let ghost from = marked(start@);
        let ghost to = marked(goal_mask);
        let area = self.board.len();
        proof {
            assert(self.size.w * self.size.h <= 127) by (nonlinear_arith)
                requires
                    2 * self.size.w * self.size.h <= 255,
            ;
        }
        let mut visited: FxHashSet<usize> = FxHashSet::default();
        let ghost mut seen: Seq<bool> = Seq::new(area as nat, |i: int| false);
        proof {
            lemma_count_zero(seen, area as int);
        }
        let mut count: usize = 0;
        let mut stack: Vec<usize> = Vec::new();
        let mut a: usize = 0;
        while a < area
            invariant
                self.wf(),
                board == self.board@,
                size == self.size,
                area == board.len(),
                area <= 127,
                goal_mask == marks_of(goal@, area as int),
                seen.len() == area,
                forall|v: int| 0 <= v < area ==> #[trigger] has_cell(visited@, v) == seen[v],
                from == marked(start@),
                to == marked(goal_mask),
                a <= area,
                count == count_marked(seen, area as int),
                flood_inv(board, size, color, start@, goal_mask, seen, stack@, -1, a as int),
            decreases area - a,
        {
            let seen_a = cell_set_contains(&visited, a);
            proof {
                assert(has_cell(visited@, a as int) == seen[a as int]);
            }
            if start[a] && self.board[a].matches(color) && !seen_a {
                proof {
                    lemma_count_mark(seen, a as int, area as int);
                    lemma_count_bound(seen.update(a as int, true), area as int);
                    let p = seq![a as int];
                    assert(color_path(board, size, color, p));
                    assert(from.contains(p[0]));
                }
                let goal_a = cell_set_contains(goal, a);
                proof {
                    assert(has_cell(goal@, a as int) == goal_mask[a as int]);
                }
                if goal_a {
                    proof {
                        let p = seq![a as int];
                        assert(color_path(board, size, color, p) && from.contains(p[0]) && to.contains(p.last()));
                        assert(joins(board, size, color, from, to));
                    }
                    return true;
                }
                proof {
                    lemma_flood_mark(board, size, color, start@, goal_mask, seen, stack@, -1, a as int, a as int);
                }
                let ghost pv = visited@;
                let ghost ps = seen;
                cell_set_insert(&mut visited, a);
                proof {
                    seen = seen.update(a as int, true);
                    assert forall|v: int| 0 <= v < area implies #[trigger] has_cell(visited@, v) == seen[v] by {
                        assert(has_cell(pv, v) == ps[v]);
                    }
                }
                count += 1;
                stack.push(a);
            }
            a += 1;
        }
        while stack.len() > 0
            invariant
                self.wf(),
                board == self.board@,
                size == self.size,
                area == board.len(),
                area <= 127,
                goal_mask == marks_of(goal@, area as int),
                seen.len() == area,
                forall|v: int| 0 <= v < area ==> #[trigger] has_cell(visited@, v) == seen[v],
                from == marked(start@),
                to == marked(goal_mask),
                count == count_marked(seen, area as int),
                flood_inv(board, size, color, start@, goal_mask, seen, stack@, -1, area as int),
            decreases flood_measure(area as int, count as int, stack@.len() as int),
        {
            proof {
                lemma_count_bound(seen, area as int);
                lemma_flood_pop(board, size, color, start@, goal_mask, seen, stack@, area as int);
            }
            let ghost m0 = flood_measure(area as int, count as int, stack@.len() as int);
            let cell = stack.pop().unwrap();
            let nb = neighbour_indices(self.size, cell);
            let mut t: usize = 0;
            while t < nb.len()
                invariant
                    self.wf(),
                    board == self.board@,
                    size == self.size,
                    area == board.len(),
                    area <= 127,
                    goal_mask == marks_of(goal@, area as int),
                    seen.len() == area,
                    forall|v: int| 0 <= v < area ==> #[trigger] has_cell(visited@, v) == seen[v],
                    from == marked(start@),
                    to == marked(goal_mask),
                    cell < area,
                    seen[cell as int],
                    forall|k: int| 0 <= k < nb@.len() ==> adjacent(size, cell as int, #[trigger] nb@[k] as int),
                    forall|u: int| adjacent(size, cell as int, u) ==> exists|k: int| 0 <= k < nb@.len() && #[trigger] nb@[k] == u,
                    t <= nb@.len(),
                    count == count_marked(seen, area as int),
                    count <= area,
                    flood_inv(board, size, color, start@, goal_mask, seen, stack@, cell as int, area as int),
                    forall|k: int| 0 <= k < t && board[nb@[k] as int].piece == Some(color) ==> seen[#[trigger] nb@[k] as int],
                    flood_measure(area as int, count as int, stack@.len() as int) < m0,
                decreases nb@.len() - t,
            {
                let j = nb[t];
                assert(adjacent(size, cell as int, j as int));
                let seen_j = cell_set_contains(&visited, j);
                proof {
                    assert(has_cell(visited@, j as int) == seen[j as int]);
                }
                if self.board[j].matches(color) && !seen_j {
                    proof {
                        lemma_count_mark(seen, j as int, area as int);
                        lemma_count_bound(seen.update(j as int, true), area as int);
                        let p = choose|p: Seq<int>| #[trigger] color_path(board, size, color, p) && from.contains(p[0]) && p.last() == cell as int;
                        let q = p.push(j as int);
                        assert(q[q.len() - 2] == cell as int);
                        assert(color_path(board, size, color, q));
                        assert(from.contains(q[0]) && q.last() == j as int);
                    }
                    let goal_j = cell_set_contains(goal, j);
                    proof {
                        assert(has_cell(goal@, j as int) == goal_mask[j as int]);
                    }
                    if goal_j {
                        proof {
                            let p = choose|p: Seq<int>| #[trigger] color_path(board, size, color, p) && from.contains(p[0]) && p.last() == j as int;
                            assert(to.contains(p.last()));
                        }
                        return true;
                    }
                    proof {
                        lemma_flood_mark(board, size, color, start@, goal_mask, seen, stack@, cell as int, area as int, j as int);
                    }
                    assert(count < area);
                    let ghost pv = visited@;
                    let ghost ps = seen;
                    cell_set_insert(&mut visited, j);
                    proof {
                        seen = seen.update(j as int, true);
                        assert forall|v: int| 0 <= v < area implies #[trigger] has_cell(visited@, v) == seen[v] by {
                            assert(has_cell(pv, v) == ps[v]);
                        }
                    }
                    count += 1;
                    stack.push(j);
                }
                t += 1;
            }
            proof {
                assert(closed(board, size, color, seen, cell as int)) by {
                    assert forall|u: int| #[trigger] adjacent(size, cell as int, u) && board[u].piece == Some(color) implies seen[u] by {
                        let k = choose|k: int| 0 <= k < nb@.len() && #[trigger] nb@[k] == u;
                        assert(board[nb@[k] as int].piece == Some(color));
                    }
                }
                assert forall|v: int|
                    0 <= v < area && #[trigger] seen[v] && !stack@.contains(v as usize) && v != -1 implies closed(
                    board,
                    size,
                    color,
                    seen,
                    v,
                ) by {
                    if v == cell {
                    }
                }
            }
        }
        proof {
            assert forall|v: int| 0 <= v < area && #[trigger] seen[v] implies closed(board, size, color, seen, v) by {
                assert(!stack@.contains(v as usize));
            }
            if joins(board, size, color, from, to) {
                let p = choose|p: Seq<int>| #[trigger] color_path(board, size, color, p) && from.contains(p[0]) && to.contains(p.last());
                lemma_walk_stays_seen(board, size, color, start@, seen, p, p.len() - 1);
                assert(seen[p.last()]);
            }
        }
        false
    }
}

/// An all-false mask counts nothing.
proof fn lemma_count_zero(s: Seq<bool>, n: int)
    requires
        0 <= n <= s.len(),
        forall|v: int| 0 <= v < s.len() ==> !#[trigger] s[v],
    ensures
        count_marked(s, n) == 0,
    decreases n,
{
    if n > 0 {
        lemma_count_zero(s, n - 1);
    }
}

/// The cells of row `row` (as a set of indices).
pub open spec fn row_cells(size: Size, row: int) -> Set<int> {
    Set::new(|i: int| 0 <= i < size.w * size.h && i / (size.w as int) == row)
}

/// The cells of column `col`.
pub open spec fn col_cells(size: Size, col: int) -> Set<int> {
    Set::new(|i: int| 0 <= i < size.w * size.h && i % (size.w as int) == col)
}

/// The cells at the given positions.
pub open spec fn pos_cells(ps: Seq<Pos>, w: int) -> Set<int> {
    Set::new(|i: int| exists|k: int| 0 <= k < ps.len() && (#[trigger] ps[k]).1 * w + ps[k].0 == i)
}

/// The winner of a position: Black when Black's pieces join the top and
/// bottom rows, else White when White's join the left and right columns.
pub open spec fn winner_of(s: State) -> Option<Player> {
    let size = s.size;
    if joins(s.board@, size, Player::Black, row_cells(size, 0), row_cells(size, size.h - 1)) {
        Some(Player::Black)
    } else if joins(s.board@, size, Player::White, col_cells(size, 0), col_cells(size, size.w - 1)) {
        Some(Player::White)
    } else {
        None
    }
}

impl State {
    /// A mask of the cells in row `row`.
    pub(crate) fn row_mask(&self, row: u8) -> (r: Vec<bool>)
        requires
            self.wf(),
        ensures
            r@.len() == self.board@.len(),
            marked(r@) == row_cells(self.size, row as int),
    {
        let area = self.board.len();
        let w = self.size.w as usize;
        let mut out: Vec<bool> = Vec::new();
        let mut i: usize = 0;
        while i < area
            invariant
                area == self.board@.len(),
                area == self.size.w * self.size.h,
                w == self.size.w,
                w >= 1,
                i <= area,
                out@.len() == i,
                forall|k: int| 0 <= k < i ==> #[trigger] out@[k] == (k / (w as int) == row),
            decreases area - i,
        {
            out.push(i / w == row as usize);
            i += 1;
        }
        proof {
            assert(marked(out@) =~= row_cells(self.size, row as int));
        }
        out
    }

    /// A mask of the cells in column `col`.
    pub(crate) fn col_mask(&self, col: u8) -> (r: Vec<bool>)
        requires
            self.wf(),
        ensures
            r@.len() == self.board@.len(),
            marked(r@) == col_cells(self.size, col as int),
    {
        let area = self.board.len();
        let w = self.size.w as usize;
        let mut out: Vec<bool> = Vec::new();
        let mut i: usize = 0;
        while i < area
            invariant
                area == self.board@.len(),
                area == self.size.w * self.size.h,
                w == self.size.w,
                w >= 1,
                i <= area,
                out@.len() == i,
                forall|k: int| 0 <= k < i ==> #[trigger] out@[k] == (k % (w as int) == col),
            decreases area - i,
        {
            out.push(i % w == col as usize);
            i += 1;
        }
        proof {
            assert(marked(out@) =~= col_cells(self.size, col as int));
        }
        out
    }

    /// A mask of the cells at the given (on-board) positions.
    fn pos_mask(&self, ps: &Vec<Pos>) -> (r: Vec<bool>)
        requires
            self.wf(),
            forall|k: int| 0 <= k < ps@.len() ==> (#[trigger] ps@[k]).0 < self.size.w && ps@[k].1 < self.size.h,
        ensures
            r@.len() == self.board@.len(),
            marked(r@) == pos_cells(ps@, self.size.w as int),
    {
        let area = self.board.len();
        let w = self.size.w;
        proof {
            assert(self.size.w * self.size.h <= 127) by (nonlinear_arith)
                requires
                    2 * self.size.w * self.size.h <= 255,
            ;
        }
        let mut out: Vec<bool> = Vec::new();
        let mut i: usize = 0;
        while i < area
            invariant
                i <= area,
                out@.len() == i,
                forall|k: int| 0 <= k < i ==> !#[trigger] out@[k],
            decreases area - i,
        {
            out.push(false);
            i += 1;
        }
        let mut t: usize = 0;
        while t < ps.len()
            invariant
                self.wf(),
                area == self.board@.len(),
                area == self.size.w * self.size.h,
                area <= 127,
                w == self.size.w,
                forall|k: int| 0 <= k < ps@.len() ==> (#[trigger] ps@[k]).0 < self.size.w && ps@[k].1 < self.size.h,
                t <= ps@.len(),
                out@.len() == area,
                forall|c: int| 0 <= c < area ==> (#[trigger] out@[c] <==> exists|k: int| 0 <= k < t && (#[trigger] ps@[k]).1 * w + ps@[k].0 == c),
            decreases ps@.len() - t,
        {
            let p = ps[t];
            proof {
                assert(p.1 * w + p.0 < self.size.w * self.size.h) by (nonlinear_arith)
                    requires
                        p.1 < self.size.h,
                        p.0 < self.size.w,
                        w == self.size.w,
                {
                    assert(p.1 * w <= (self.size.h - 1) * w);
                }
            }
            let idx = p.index(w);
            let ghost before = out@;
            out.set(idx, true);
            proof {
                assert forall|c: int| 0 <= c < area implies (#[trigger] out@[c] <==> exists|k: int| 0 <= k < t + 1 && (#[trigger] ps@[k]).1 * w + ps@[k].0 == c) by {
                    if c == idx {
                        assert(ps@[t as int].1 * w + ps@[t as int].0 == c);
                    } else {
                        if exists|k: int| 0 <= k < t + 1 && (#[trigger] ps@[k]).1 * w + ps@[k].0 == c {
                            let k = choose|k: int| 0 <= k < t + 1 && (#[trigger] ps@[k]).1 * w + ps@[k].0 == c;
                            assert(k != t);
                            assert(before[c]);
                        }
                    }
                }
            }
            t += 1;
        }
        proof {
            assert forall|c: int| #[trigger] pos_cells(ps@, w as int).contains(c) implies 0 <= c < area by {
                let k = choose|k: int| 0 <= k < ps@.len() && (#[trigger] ps@[k]).1 * (w as int) + ps@[k].0 == c;
                let p = ps@[k];
                assert(p.1 * w + p.0 < self.size.w * self.size.h) by (nonlinear_arith)
                    requires
                        p.1 < self.size.h,
                        p.0 < self.size.w,
                        w == self.size.w,
                {
                    assert(p.1 * w <= (self.size.h - 1) * w);
                }
            }
            assert(marked(out@) =~= pos_cells(ps@, w as int));
        }
        out
    }

    /// The set of the cells marked in `mask`.
    fn mask_set(&self, mask: &Vec<bool>) -> (r: FxHashSet<usize>)
        requires
            mask@.len() == self.board@.len(),
        ensures
            marks_of(r@, self.board@.len() as int) == mask@,
    {
        let n = mask.len();
        let mut set: FxHashSet<usize> = FxHashSet::default();
        let mut k: usize = 0;
        while k < n
            invariant
                k <= n,
                n == mask@.len(),
                forall|x: usize| #[trigger] set@.contains(x) ==> x < k,
                forall|x: int| 0 <= x < k ==> #[trigger] has_cell(set@, x) == mask@[x],
            decreases n - k,
        {
            let ghost prev = set@;
            if mask[k] {
                cell_set_insert(&mut set, k);
            }
            proof {
                assert forall|x: int| 0 <= x < k + 1 implies #[trigger] has_cell(set@, x) == mask@[x] by {
                    if x < k {
                        assert(has_cell(prev, x) == mask@[x]);
                    }
                }
            }
            k += 1;
        }
        proof {
            assert(marks_of(set@, n as int) =~= mask@);
        }
        set
    }

    /// Whether some walk through `color`'s cells leads from one of the
    /// `start` positions to one of the `end` positions.
    pub fn check_connection(&self, start: Vec<Pos>, end: Vec<Pos>, color: Player) -> (r: bool)
        requires
            self.wf(),
            forall|k: int| 0 <= k < start@.len() ==> (#[trigger] start@[k]).0 < self.size.w && start@[k].1 < self.size.h,
            forall|k: int| 0 <= k < end@.len() ==> (#[trigger] end@[k]).0 < self.size.w && end@[k].1 < self.size.h,
        ensures
            r == joins(self.board@, self.size, color, pos_cells(start@, self.size.w as int), pos_cells(end@, self.size.w as int)),
    {
        let from = self.pos_mask(&start);
        let goal = self.mask_set(&self.pos_mask(&end));
        self.floods_to(&from, &goal, color)
    }

    /// The winner: Black when Black joins the top and bottom rows, else
    /// White when White joins the left and right columns.
    pub fn connection(&self) -> (r: Option<Player>)
        requires
            self.wf(),
        ensures
            r == winner_of(*self),
    {
        let top = self.row_mask(0);
        let bottom = self.mask_set(&self.row_mask(self.size.h - 1));
        if self.floods_to(&top, &bottom, Player::Black) {
            return Some(Player::Black);
        }
        let left = self.col_mask(0);
        let right = self.mask_set(&self.col_mask(self.size.w - 1));
        if self.floods_to(&left, &right, Player::White) {
            return Some(Player::White);
        }
        None
    }
}

} // verus!
