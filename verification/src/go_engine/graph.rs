//! The square `n x n` grid graph of a Go board: orthogonal neighbours,
//! stone paths and the groups they form, and counting cells.
//!
//! Cell `row * n + col`; its neighbours are, in order, north (`row + 1`),
//! east (`col + 1`), south (`row - 1`) and west (`col - 1`).

use vstd::prelude::*;
use crate::bigbitboard::BigBitBoard;
use crate::grid::{lemma_grid_pack, lemma_grid_split};

verus! {

/// Neighbour `k` (`0..4`) of cell `i` on an `n x n` board, or `-1` past an
/// edge.
pub open spec fn nbr(n: int, i: int, k: int) -> int {
    let row = i / n;
    let col = i % n;
    if k == 0 {
        if row + 1 < n {
            (row + 1) * n + col
        } else {
            -1
        }
    } else if k == 1 {
        if col + 1 < n {
            row * n + col + 1
        } else {
            -1
        }
    } else if k == 2 {
        if row > 0 {
            (row - 1) * n + col
        } else {
            -1
        }
    } else {
        if col > 0 {
            row * n + col - 1
        } else {
            -1
        }
    }
}

/// The direction opposite to `k`.
pub open spec fn opposite(k: int) -> int {
    if k < 2 {
        k + 2
    } else {
        k - 2
    }
}

/// Cells `a` and `b` are orthogonal neighbours.
pub open spec fn adjacent(n: int, a: int, b: int) -> bool {
    &&& b >= 0
    &&& {
        ||| nbr(n, a, 0) == b
        ||| nbr(n, a, 1) == b
        ||| nbr(n, a, 2) == b
        ||| nbr(n, a, 3) == b
    }
}

/// A neighbour is on the board, differs from the cell, and has the cell as
/// its opposite neighbour.
pub proof fn lemma_nbr(n: int, i: int, k: int)
    requires
        n >= 1,
        0 <= i < n * n,
        0 <= k < 4,
    ensures
        nbr(n, i, k) == -1 || (0 <= nbr(n, i, k) < n * n && nbr(n, i, k) != i && nbr(
            n,
            nbr(n, i, k),
            opposite(k),
        ) == i),
{
    lemma_grid_split(i, n, n);
    let row = i / n;
    let col = i % n;
    let j = nbr(n, i, k);
    if j != -1 {
        lemma_grid_pack(row, col, n, n);
        if k == 0 {
            assert((row + 1) * n + col == row * n + col + n) by (nonlinear_arith);
            lemma_grid_pack(row + 1, col, n, n);
        } else if k == 1 {
            lemma_grid_pack(row, col + 1, n, n);
        } else if k == 2 {
            assert((row - 1) * n + col == row * n + col - n) by (nonlinear_arith);
            lemma_grid_pack(row - 1, col, n, n);
        } else {
            lemma_grid_pack(row, col - 1, n, n);
        }
    }
}

/// Adjacency runs both ways.
pub proof fn lemma_adjacent_symm(n: int, a: int, b: int)
    requires
        n >= 1,
        0 <= a < n * n,
        adjacent(n, a, b),
    ensures
        adjacent(n, b, a),
        0 <= b < n * n,
        a != b,
{
    lemma_nbr(n, a, 0);
    lemma_nbr(n, a, 1);
    lemma_nbr(n, a, 2);
    lemma_nbr(n, a, 3);
}

/// Cell `i` is on the board and holds a stone of `b`.
pub open spec fn on<const N: usize, const WORDS: usize>(b: BigBitBoard<N, N, WORDS>, i: int) -> bool {
    0 <= i < N * N && b.has(i)
}

/// A walk over the stones of `b`, each step to an orthogonal neighbour.
pub open spec fn gpath<const N: usize, const WORDS: usize>(b: BigBitBoard<N, N, WORDS>, p: Seq<int>) -> bool {
    &&& p.len() >= 1
    &&& forall|k: int| 0 <= k < p.len() ==> on(b, #[trigger] p[k])
    &&& forall|k: int| 0 <= k < p.len() - 1 ==> adjacent(N as int, #[trigger] p[k], p[k + 1])
}

/// Stones `x` and `y` of `b` are in one group: a walk over `b` joins them.
pub open spec fn linked<const N: usize, const WORDS: usize>(b: BigBitBoard<N, N, WORDS>, x: int, y: int) -> bool {
    exists|p: Seq<int>| #[trigger] gpath(b, p) && p[0] == x && p.last() == y
}

/// Every stone is in its own group.
pub proof fn lemma_linked_refl<const N: usize, const WORDS: usize>(b: BigBitBoard<N, N, WORDS>, x: int)
    requires
        on(b, x),
    ensures
        linked(b, x, x),
{
    let p = seq![x];
    assert(gpath(b, p));
}

/// A link followed by a step to a neighbouring stone is a link.
pub proof fn lemma_linked_step<const N: usize, const WORDS: usize>(
    b: BigBitBoard<N, N, WORDS>,
    x: int,
    y: int,
    z: int,
)
    requires
        linked(b, x, y),
        adjacent(N as int, y, z),
        on(b, z),
    ensures
        linked(b, x, z),
{
    let p = choose|p: Seq<int>| #[trigger] gpath(b, p) && p[0] == x && p.last() == y;
    let q = p.push(z);
    assert(q[q.len() - 2] == y);
    assert forall|k: int| 0 <= k < q.len() - 1 implies adjacent(N as int, #[trigger] q[k], q[k + 1]) by {
        if k < q.len() - 2 {
            assert(q[k] == p[k] && q[k + 1] == p[k + 1]);
        }
    }
    assert(gpath(b, q));
}

/// Links run both ways.
pub proof fn lemma_linked_symm<const N: usize, const WORDS: usize>(b: BigBitBoard<N, N, WORDS>, x: int, y: int)
    requires
        N >= 1,
        linked(b, x, y),
    ensures
        linked(b, y, x),
{
    let p = choose|p: Seq<int>| #[trigger] gpath(b, p) && p[0] == x && p.last() == y;
    let q = Seq::new(p.len(), |k: int| p[p.len() - 1 - k]);
    assert forall|k: int| 0 <= k < q.len() implies on(b, #[trigger] q[k]) by {
        assert(on(b, p[p.len() - 1 - k]));
    }
    assert forall|k: int| 0 <= k < q.len() - 1 implies adjacent(N as int, #[trigger] q[k], q[k + 1]) by {
        let j = p.len() - 2 - k;
        assert(adjacent(N as int, p[j], p[j + 1]));
        assert(on(b, p[j]));
        lemma_adjacent_symm(N as int, p[j], p[j + 1]);
    }
    assert(gpath(b, q));
}

/// Links compose.
pub proof fn lemma_linked_trans<const N: usize, const WORDS: usize>(
    b: BigBitBoard<N, N, WORDS>,
    x: int,
    y: int,
    z: int,
)
    requires
        linked(b, x, y),
        linked(b, y, z),
    ensures
        linked(b, x, z),
{
    let p = choose|p: Seq<int>| #[trigger] gpath(b, p) && p[0] == x && p.last() == y;
    let q = choose|q: Seq<int>| #[trigger] gpath(b, q) && q[0] == y && q.last() == z;
    let r = p + q.drop_first();
    assert forall|k: int| 0 <= k < r.len() implies on(b, #[trigger] r[k]) by {
        if k >= p.len() {
            assert(r[k] == q[k - p.len() + 1]);
        } else {
            assert(r[k] == p[k]);
        }
    }
    assert forall|k: int| 0 <= k < r.len() - 1 implies adjacent(N as int, #[trigger] r[k], r[k + 1]) by {
        if k < p.len() - 1 {
            assert(r[k] == p[k] && r[k + 1] == p[k + 1]);
        } else if k == p.len() - 1 {
            assert(r[k] == q[0] && r[k + 1] == q[1]);
        } else {
            assert(r[k] == q[k - p.len() + 1] && r[k + 1] == q[k - p.len() + 2]);
        }
    }
    assert(gpath(b, r));
}

/// Linked stones are on the board and hold stones of `b`.
pub proof fn lemma_linked_ends<const N: usize, const WORDS: usize>(b: BigBitBoard<N, N, WORDS>, x: int, y: int)
    requires
        linked(b, x, y),
    ensures
        on(b, x),
        on(b, y),
{
    let p = choose|p: Seq<int>| #[trigger] gpath(b, p) && p[0] == x && p.last() == y;
    assert(on(b, p[0]));
    assert(on(b, p[p.len() - 1]));
}

/// A walk whose stones all stay in `b2` is a walk of `b2` too.
pub proof fn lemma_linked_keep<const N: usize, const WORDS: usize>(
    b1: BigBitBoard<N, N, WORDS>,
    b2: BigBitBoard<N, N, WORDS>,
    x: int,
    y: int,
)
    requires
        linked(b1, x, y),
        forall|i: int| #[trigger] on(b1, i) && linked(b1, x, i) ==> on(b2, i),
    ensures
        linked(b2, x, y),
{
    let p = choose|p: Seq<int>| #[trigger] gpath(b1, p) && p[0] == x && p.last() == y;
    assert forall|k: int| 0 <= k < p.len() implies on(b2, #[trigger] p[k]) by {
        lemma_prefix_linked(b1, p, k);
        assert(on(b1, p[k]));
    }
    assert(gpath(b2, p));
}

/// Every stone of a walk is linked to its start.
pub proof fn lemma_prefix_linked<const N: usize, const WORDS: usize>(
    b: BigBitBoard<N, N, WORDS>,
    p: Seq<int>,
    k: int,
)
    requires
        gpath(b, p),
        0 <= k < p.len(),
    ensures
        linked(b, p[0], p[k]),
{
    let q = p.subrange(0, k + 1);
    assert forall|j: int| 0 <= j < q.len() implies on(b, #[trigger] q[j]) by {
        assert(q[j] == p[j]);
    }
    assert forall|j: int| 0 <= j < q.len() - 1 implies adjacent(N as int, #[trigger] q[j], q[j + 1]) by {
        assert(q[j] == p[j] && q[j + 1] == p[j + 1]);
    }
    assert(gpath(b, q));
}

/// A labelling that agrees across every pair of neighbouring stones of `b`.
pub open spec fn closed_labels<const N: usize, const WORDS: usize>(b: BigBitBoard<N, N, WORDS>, label: Seq<u16>) -> bool {
    forall|i: int, k: int|
        on(b, i) && 0 <= k < 4 && on(b, #[trigger] nbr(N as int, i, k)) ==> label[nbr(N as int, i, k)]
            == #[trigger] label[i]
}

/// Such a labelling is constant over a group.
pub proof fn lemma_closed_constant<const N: usize, const WORDS: usize>(
    b: BigBitBoard<N, N, WORDS>,
    label: Seq<u16>,
    x: int,
    y: int,
)
    requires
        closed_labels(b, label),
        linked(b, x, y),
    ensures
        label[x] == label[y],
{
    let p = choose|p: Seq<int>| #[trigger] gpath(b, p) && p[0] == x && p.last() == y;
    lemma_closed_along(b, label, p, p.len() - 1);
}

/// A closed labelling is constant along a walk.
proof fn lemma_closed_along<const N: usize, const WORDS: usize>(
    b: BigBitBoard<N, N, WORDS>,
    label: Seq<u16>,
    p: Seq<int>,
    k: int,
)
    requires
        closed_labels(b, label),
        gpath(b, p),
        0 <= k < p.len(),
    ensures
        label[p[k]] == label[p[0]],
    decreases k,
{
    if k > 0 {
        lemma_closed_along(b, label, p, k - 1);
        let a = p[k - 1];
        let c = p[k];
        assert(adjacent(N as int, a, c));
        assert(on(b, a) && on(b, c));
        let d = if nbr(N as int, a, 0) == c {
            0int
        } else if nbr(N as int, a, 1) == c {
            1int
        } else if nbr(N as int, a, 2) == c {
            2int
        } else {
            3int
        };
        assert(nbr(N as int, a, d) == c);
        assert(label[nbr(N as int, a, d)] == label[a]);
    }
}

/// Number of `i` in `0..n` where `f` holds.
pub open spec fn count_upto(f: spec_fn(int) -> bool, n: int) -> nat
    decreases n,
{
    if n <= 0 {
        0
    } else {
        count_upto(f, n - 1) + if f(n - 1) {
            1nat
        } else {
            0nat
        }
    }
}

/// Counts of predicates that agree below `n` are equal.
pub proof fn lemma_count_ext(f: spec_fn(int) -> bool, g: spec_fn(int) -> bool, n: int)
    requires
        forall|i: int| #![trigger f(i)] #![trigger g(i)] 0 <= i < n ==> f(i) == g(i),
    ensures
        count_upto(f, n) == count_upto(g, n),
    decreases n,
{
    if n > 0 {
        lemma_count_ext(f, g, n - 1);
    }
}

/// Dropping one point where `f` holds lowers the count by one.
pub proof fn lemma_count_drop(f: spec_fn(int) -> bool, g: spec_fn(int) -> bool, n: int, x: int)
    requires
        0 <= x < n,
        f(x),
        !g(x),
        forall|i: int| #![trigger f(i)] #![trigger g(i)] 0 <= i < n && i != x ==> f(i) == g(i),
    ensures
        count_upto(g, n) + 1 == count_upto(f, n),
    decreases n,
{
    if n - 1 == x {
        lemma_count_ext(f, g, n - 1);
    } else {
        lemma_count_drop(f, g, n - 1, x);
    }
}

/// The count is at most the range.
pub proof fn lemma_count_bound(f: spec_fn(int) -> bool, n: int)
    requires
        n >= 0,
    ensures
        count_upto(f, n) <= n,
    decreases n,
{
    if n > 0 {
        lemma_count_bound(f, n - 1);
    }
}

/// Extending the range over points where `f` fails keeps the count.
pub proof fn lemma_count_extend(f: spec_fn(int) -> bool, n: int, m: int)
    requires
        0 <= n <= m,
        forall|i: int| #![trigger f(i)] n <= i < m ==> !f(i),
    ensures
        count_upto(f, m) == count_upto(f, n),
    decreases m - n,
{
    if m > n {
        lemma_count_extend(f, n, m - 1);
    }
}

/// With a point where `f` holds the count is positive; with two distinct
/// such points it is above one.
pub proof fn lemma_count_witness(f: spec_fn(int) -> bool, n: int, x: int)
    requires
        0 <= x < n,
        f(x),
    ensures
        count_upto(f, n) >= 1,
        forall|y: int| #![trigger f(y)] 0 <= y < n && y != x && f(y) ==> count_upto(f, n) >= 2,
    decreases n,
{
    if n - 1 == x {
        if n - 1 > 0 {
            assert forall|y: int| #![trigger f(y)] 0 <= y < n && y != x && f(y) implies count_upto(f, n) >= 2 by {
                lemma_count_witness(f, n - 1, y);
            }
        }
    } else {
        lemma_count_witness(f, n - 1, x);
    }
}

/// A positive count has a point where `f` holds.
pub proof fn lemma_count_positive(f: spec_fn(int) -> bool, n: int)
    requires
        count_upto(f, n) > 0,
    ensures
        exists|i: int| 0 <= i < n && #[trigger] f(i),
    decreases n,
{
    if n > 0 {
        if f(n - 1) {
            assert(0 <= n - 1 < n && f(n - 1));
        } else {
            lemma_count_positive(f, n - 1);
            let i = choose|i: int| 0 <= i < n - 1 && #[trigger] f(i);
            assert(0 <= i < n && f(i));
        }
    }
}

} // verus!
