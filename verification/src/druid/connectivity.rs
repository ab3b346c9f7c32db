//! Incremental connectivity of a Druid position: one union-find per color
//! over the board cells plus two border nodes (Black: top and bottom rows;
//! White: left and right columns), so a win is one comparison of two
//! roots instead of a flood of the board.
//!
//! The union-find keeps union by rank and no path compression, so `find`
//! only reads.

use vstd::prelude::*;
use crate::druid::connect::{adjacent, col_cells, color_path, joins, neighbour_indices, row_cells, winner_of};
use crate::druid::state::State;
use crate::druid::types::{hand_sarsens, opponent, Player, Pos, Size, Square};

verus! {

/// Every node's parent is a node, and a parent always outranks its child.
pub open spec fn ranked(parent: Seq<u32>, rank: Seq<u8>) -> bool {
    &&& parent.len() == rank.len()
    &&& forall|x: int| 0 <= x < parent.len() ==> (#[trigger] parent[x]) < parent.len()
    &&& forall|x: int| 0 <= x < parent.len() && parent[x] as int != x ==> rank[x] < rank[#[trigger] parent[x] as int]
}

/// The root of `x`'s tree: follow parents until a node is its own parent.
pub open spec fn root_of(parent: Seq<u32>, rank: Seq<u8>, x: int) -> int
    decreases 256 - rank[x],
    when ranked(parent, rank) && 0 <= x < parent.len()
{
    if parent[x] as int == x {
        x
    } else {
        root_of(parent, rank, parent[x] as int)
    }
}

/// Number of roots among the first `n` nodes.
pub open spec fn root_count(parent: Seq<u32>, n: int) -> int
    decreases n,
{
    if n <= 0 {
        0
    } else {
        root_count(parent, n - 1) + if parent[n - 1] as int == n - 1 {
            1int
        } else {
            0int
        }
    }
}

/// A union-find over nodes `0..n`.
#[derive(Clone, Debug)]
pub struct DisjointSet {
    parent: Vec<u32>,
    rank: Vec<u8>,
}

impl DisjointSet {
    /// Number of nodes.
    pub closed spec fn len(&self) -> nat {
        self.parent@.len()
    }

    /// The trees are well formed, and no rank exceeds the number of unions
    /// that made it (nodes minus roots).
    pub closed spec fn wf(&self) -> bool {
        &&& ranked(self.parent@, self.rank@)
        &&& self.parent@.len() <= 255
        &&& forall|x: int| 0 <= x < self.parent@.len() ==> #[trigger] self.rank@[x] + root_count(self.parent@, self.parent@.len() as int) <= self.parent@.len()
    }

    /// The root of node `x`.
    pub closed spec fn root(&self, x: int) -> int {
        root_of(self.parent@, self.rank@, x)
    }

    /// Whether `a` and `b` are in the same set.
    pub open spec fn same(&self, a: int, b: int) -> bool {
        self.root(a) == self.root(b)
    }

    /// A root is a node that is its own root, and roots are nodes.
    pub proof fn lemma_root(&self, x: int)
        requires
            self.wf(),
            0 <= x < self.len(),
        ensures
            0 <= self.root(x) < self.len(),
            self.root(self.root(x)) == self.root(x),
    {
        lemma_root_of(self.parent@, self.rank@, x);
    }

    /// `n` singleton sets.
    pub fn new(n: usize) -> (r: DisjointSet)
        requires
            n <= 255,
        ensures
            r.wf(),
            r.len() == n,
            forall|x: int| 0 <= x < n ==> #[trigger] r.root(x) == x,
    {
        let mut parent: Vec<u32> = Vec::new();
        let mut rank: Vec<u8> = Vec::new();
        let mut i: usize = 0;
        while i < n
            invariant
                i <= n,
                n <= 255,
                parent@.len() == i,
                rank@.len() == i,
                forall|x: int| 0 <= x < i ==> #[trigger] parent@[x] == x && rank@[x] == 0,
            decreases n - i,
        {
            parent.push(i as u32);
            rank.push(0);
            i += 1;
        }
        let r = DisjointSet { parent, rank };
        proof {
            lemma_singletons(r.parent@, r.rank@);
        }
        r
    }

    /// The root of `x`'s set.
    pub fn find(&self, x: usize) -> (r: usize)
        requires
            self.wf(),
            x < self.len(),
        ensures
            r == self.root(x as int),
            r < self.len(),
    {
        proof {
            lemma_root_of(self.parent@, self.rank@, x as int);
        }
        let ghost target = self.root(x as int);
        let mut x = x;
        while self.parent[x] as usize != x
            invariant
                self.wf(),
                x < self.len(),
                self.root(x as int) == target,
            decreases 256 - self.rank@[x as int],
        {
            x = self.parent[x] as usize;
        }
        x
    }

    /// Merge the sets of `a` and `b`: the lower-ranked root goes under the
    /// other, and equal ranks put `b`'s root under `a`'s, which gains one.
    pub fn union(&mut self, a: usize, b: usize)
        requires
            old(self).wf(),
            a < old(self).len(),
            b < old(self).len(),
        ensures
            final(self).wf(),
            final(self).len() == old(self).len(),
            forall|x: int, y: int|
                0 <= x < old(self).len() && 0 <= y < old(self).len() ==> (#[trigger] final(self).same(x, y) <==> (old(
                    self,
                ).same(x, y) || (old(self).same(x, a as int) && old(self).same(y, b as int)) || (old(self).same(
                    x,
                    b as int,
                ) && old(self).same(y, a as int)))),
    {
        let ra = self.find(a);
        let rb = self.find(b);
        if ra == rb {
            return;
        }
        let ghost p0 = self.parent@;
        let ghost k0 = self.rank@;
        proof {
            lemma_root_of(p0, k0, a as int);
            lemma_root_of(p0, k0, b as int);
            lemma_root_count_pos(p0, ra as int, p0.len() as int);
        }
        let ka = self.rank[ra];
        let kb = self.rank[rb];
        if ka < kb {
            self.parent.set(ra, rb as u32);
            proof {
                lemma_link(p0, k0, self.parent@, self.rank@, ra as int, rb as int);
            }
        } else if ka > kb {
            self.parent.set(rb, ra as u32);
            proof {
                lemma_link(p0, k0, self.parent@, self.rank@, rb as int, ra as int);
            }
        } else {
            self.parent.set(rb, ra as u32);
            proof {
                lemma_root_count_pos(p0, rb as int, p0.len() as int);
                lemma_root_count_unlink(p0, rb as int, ra as u32, p0.len() as int);
                assert(k0[ra as int] + root_count(p0, p0.len() as int) <= p0.len());
            }
            self.rank.set(ra, ka + 1);
            proof {
                lemma_link(p0, k0, self.parent@, self.rank@, rb as int, ra as int);
            }
        }
        proof {
            assert forall|x: int, y: int|
                0 <= x < p0.len() && 0 <= y < p0.len() implies (#[trigger] self.same(x, y) <==> (root_of(p0, k0, x)
                == root_of(p0, k0, y) || (root_of(p0, k0, x) == root_of(p0, k0, a as int) && root_of(p0, k0, y)
                == root_of(p0, k0, b as int)) || (root_of(p0, k0, x) == root_of(p0, k0, b as int) && root_of(
                p0,
                k0,
                y,
            ) == root_of(p0, k0, a as int)))) by {
                lemma_root_of(p0, k0, x);
                lemma_root_of(p0, k0, y);
            }
        }
    }

    /// Whether `a` and `b` are in the same set.
    pub fn connected(&self, a: usize, b: usize) -> (r: bool)
        requires
            self.wf(),
            a < self.len(),
            b < self.len(),
        ensures
            r == self.same(a as int, b as int),
    {
        self.find(a) == self.find(b)
    }

    /// Back to singletons.
    pub fn reset(&mut self)
        requires
            old(self).wf(),
        ensures
            final(self).wf(),
            final(self).len() == old(self).len(),
            forall|x: int| 0 <= x < final(self).len() ==> #[trigger] final(self).root(x) == x,
    {
        let n = self.parent.len();
        let mut i: usize = 0;
        while i < n
            invariant
                n == self.parent@.len(),
                n == self.rank@.len(),
                n <= 255,
                i <= n,
                forall|x: int| 0 <= x < i ==> #[trigger] self.parent@[x] == x && self.rank@[x] == 0,
            decreases n - i,
        {
            self.parent.set(i, i as u32);
            self.rank.set(i, 0);
            i += 1;
        }
        proof {
            lemma_singletons(self.parent@, self.rank@);
        }
    }
}

/// A forest of singletons is well formed and every node is its own root.
proof fn lemma_singletons(parent: Seq<u32>, rank: Seq<u8>)
    requires
        parent.len() == rank.len(),
        parent.len() <= 255,
        forall|x: int| 0 <= x < parent.len() ==> #[trigger] parent[x] == x && rank[x] == 0,
    ensures
        ranked(parent, rank),
        forall|x: int| 0 <= x < parent.len() ==> #[trigger] rank[x] + root_count(parent, parent.len() as int) <= parent.len(),
        forall|x: int| 0 <= x < parent.len() ==> #[trigger] root_of(parent, rank, x) == x,
{
    assert forall|x: int| 0 <= x < parent.len() implies (#[trigger] parent[x]) < parent.len() by {
        assert(parent[x] == x);
    }
    lemma_root_count_bound(parent, parent.len() as int);
    assert forall|x: int| 0 <= x < parent.len() implies #[trigger] rank[x] + root_count(parent, parent.len() as int) <= parent.len() by {
        assert(parent[x] == x && rank[x] == 0);
    }
    assert forall|x: int| 0 <= x < parent.len() implies #[trigger] root_of(parent, rank, x) == x by {
        assert(parent[x] == x);
    }
}

/// No more roots than nodes.
proof fn lemma_root_count_bound(parent: Seq<u32>, n: int)
    requires
        0 <= n,
    ensures
        0 <= root_count(parent, n) <= n,
    decreases n,
{
    if n > 0 {
        lemma_root_count_bound(parent, n - 1);
    }
}

/// A root counts.
proof fn lemma_root_count_pos(parent: Seq<u32>, r: int, n: int)
    requires
        0 <= r < n <= parent.len(),
        parent[r] as int == r,
    ensures
        root_count(parent, n) >= 1,
    decreases n,
{
    lemma_root_count_bound(parent, n);
    lemma_root_count_bound(parent, n - 1);
    if r < n - 1 {
        lemma_root_count_pos(parent, r, n - 1);
    }
}

/// Putting a root under another node removes one root.
proof fn lemma_root_count_unlink(parent: Seq<u32>, c: int, p: u32, n: int)
    requires
        0 <= c < parent.len(),
        parent[c] as int == c,
        p as int != c,
        0 <= n <= parent.len(),
    ensures
        root_count(parent.update(c, p), n) == root_count(parent, n) - (if c < n { 1int } else { 0int }),
    decreases n,
{
    if n > 0 {
        lemma_root_count_unlink(parent, c, p, n - 1);
    }
}

/// The root is a node, is its own parent, and outranks or equals `x`.
proof fn lemma_root_of(parent: Seq<u32>, rank: Seq<u8>, x: int)
    requires
        ranked(parent, rank),
        0 <= x < parent.len(),
    ensures
        0 <= root_of(parent, rank, x) < parent.len(),
        parent[root_of(parent, rank, x)] as int == root_of(parent, rank, x),
        root_of(parent, rank, root_of(parent, rank, x)) == root_of(parent, rank, x),
    decreases 256 - rank[x],
{
    if parent[x] as int != x {
        lemma_root_of(parent, rank, parent[x] as int);
    }
}

/// Linking root `c` under root `p` (with `p`'s rank raised by at most one)
/// keeps the forest well formed and sends exactly `c`'s tree to `p`.
proof fn lemma_link(p0: Seq<u32>, k0: Seq<u8>, p1: Seq<u32>, k1: Seq<u8>, c: int, p: int)
    requires
        ranked(p0, k0),
        p0.len() <= 255,
        forall|x: int| 0 <= x < p0.len() ==> #[trigger] k0[x] + root_count(p0, p0.len() as int) <= p0.len(),
        0 <= c < p0.len(),
        0 <= p < p0.len(),
        c != p,
        p0[c] as int == c,
        p0[p] as int == p,
        p1 == p0.update(c, p as u32),
        k1.len() == k0.len(),
        forall|x: int| 0 <= x < k0.len() && x != p ==> #[trigger] k1[x] == k0[x],
        k1[p] == k0[p] || k1[p] == k0[p] + 1,
        k1[p] == k0[p] + 1 ==> k0[c] == k0[p],
        k1[p] == k0[p] ==> k0[c] < k0[p],
    ensures
        ranked(p1, k1),
        forall|x: int| 0 <= x < p1.len() ==> #[trigger] k1[x] + root_count(p1, p1.len() as int) <= p1.len(),
        forall|x: int|
            0 <= x < p0.len() ==> #[trigger] root_of(p1, k1, x) == (if root_of(p0, k0, x) == c {
                p
            } else {
                root_of(p0, k0, x)
            }),
{
    assert forall|x: int| 0 <= x < p1.len() implies (#[trigger] p1[x]) < p1.len() by {}
    assert forall|x: int| 0 <= x < p1.len() && p1[x] as int != x implies k1[x] < k1[#[trigger] p1[x] as int] by {
        if x != c {
            assert(p1[x] == p0[x]);
            assert(x != p);
        }
    }
    lemma_root_count_unlink(p0, c, p as u32, p0.len() as int);
    lemma_root_count_pos(p0, c, p0.len() as int);
    assert forall|x: int| 0 <= x < p1.len() implies #[trigger] k1[x] + root_count(p1, p1.len() as int) <= p1.len() by {
        if x == p && k1[p] == k0[p] + 1 {
            assert(k0[c] + root_count(p0, p0.len() as int) <= p0.len());
        }
    }
    assert forall|x: int| 0 <= x < p0.len() implies #[trigger] root_of(p1, k1, x) == (if root_of(p0, k0, x) == c {
        p
    } else {
        root_of(p0, k0, x)
    }) by {
        lemma_link_root(p0, k0, p1, k1, c, p, x);
    }
}

/// The new root of one node after linking `c` under `p`.
proof fn lemma_link_root(p0: Seq<u32>, k0: Seq<u8>, p1: Seq<u32>, k1: Seq<u8>, c: int, p: int, x: int)
    requires
        ranked(p0, k0),
        ranked(p1, k1),
        0 <= c < p0.len(),
        0 <= p < p0.len(),
        c != p,
        p0[c] as int == c,
        p0[p] as int == p,
        p1 == p0.update(c, p as u32),
        0 <= x < p0.len(),
    ensures
        root_of(p1, k1, x) == (if root_of(p0, k0, x) == c {
            p
        } else {
            root_of(p0, k0, x)
        }),
    decreases 256 - k0[x],
{
    if p0[x] as int == x {
        if x == c {
            assert(p1[c] as int == p);
            assert(p1[p] as int == p);
            assert(root_of(p1, k1, p) == p);
            assert(root_of(p1, k1, c) == root_of(p1, k1, p));
        } else {
            assert(p1[x] == p0[x]);
            assert(root_of(p1, k1, x) == x);
        }
    } else {
        assert(x != c);
        assert(p1[x] == p0[x]);
        lemma_link_root(p0, k0, p1, k1, c, p, p0[x] as int);
    }
}

/// Cell `i` is on the board and topped by `color`.
pub open spec fn colored(board: Seq<Square>, size: Size, color: Player, i: int) -> bool {
    0 <= i < size.w * size.h && board[i].piece == Some(color)
}

/// Cell `i` is on `color`'s first edge (Black: top row, White: left
/// column).
pub open spec fn first_edge(size: Size, color: Player, i: int) -> bool {
    match color {
        Player::Black => i / (size.w as int) == 0,
        Player::White => i % (size.w as int) == 0,
    }
}

/// Cell `i` is on `color`'s last edge (Black: bottom row, White: right
/// column).
pub open spec fn last_edge(size: Size, color: Player, i: int) -> bool {
    match color {
        Player::Black => i / (size.w as int) == size.h - 1,
        Player::White => i % (size.w as int) == size.w - 1,
    }
}

/// An edge of `color`'s graph: two neighbouring `color` cells, or a
/// `color` cell and the border node of an edge it lies on (node `w * h`
/// for the first edge, `w * h + 1` for the last).
pub open spec fn gedge(board: Seq<Square>, size: Size, color: Player, a: int, b: int) -> bool {
    let n = size.w * size.h;
    ||| colored(board, size, color, a) && colored(board, size, color, b) && adjacent(size, a, b)
    ||| colored(board, size, color, a) && b == n && first_edge(size, color, a)
    ||| colored(board, size, color, b) && a == n && first_edge(size, color, b)
    ||| colored(board, size, color, a) && b == n + 1 && last_edge(size, color, a)
    ||| colored(board, size, color, b) && a == n + 1 && last_edge(size, color, b)
}

/// A walk in `color`'s graph.
pub open spec fn gpath(board: Seq<Square>, size: Size, color: Player, p: Seq<int>) -> bool {
    &&& p.len() >= 1
    &&& forall|k: int| 0 <= k < p.len() ==> 0 <= #[trigger] p[k] < size.w * size.h + 2
    &&& forall|k: int| 0 <= k < p.len() - 1 ==> gedge(board, size, color, #[trigger] p[k], p[k + 1])
}

/// Some walk in `color`'s graph leads from `a` to `b`.
pub open spec fn linked(board: Seq<Square>, size: Size, color: Player, a: int, b: int) -> bool {
    exists|p: Seq<int>| #[trigger] gpath(board, size, color, p) && p[0] == a && p.last() == b
}

/// Every two nodes in one set are linked.
pub open spec fn sound(ds: DisjointSet, board: Seq<Square>, size: Size, color: Player) -> bool {
    forall|a: int, b: int|
        0 <= a < size.w * size.h + 2 && 0 <= b < size.w * size.h + 2 && #[trigger] ds.same(a, b) ==> linked(
            board,
            size,
            color,
            a,
            b,
        )
}

/// The two ends of every edge are in one set.
pub open spec fn closed_under(ds: DisjointSet, board: Seq<Square>, size: Size, color: Player) -> bool {
    forall|a: int, b: int| #[trigger] gedge(board, size, color, a, b) ==> ds.same(a, b)
}

/// `ds` holds exactly `color`'s linked classes on `board`.
pub open spec fn faithful(ds: DisjointSet, board: Seq<Square>, size: Size, color: Player) -> bool {
    &&& ds.wf()
    &&& ds.len() == size.w * size.h + 2
    &&& sound(ds, board, size, color)
    &&& closed_under(ds, board, size, color)
}

/// A node is linked to itself.
proof fn lemma_linked_refl(board: Seq<Square>, size: Size, color: Player, a: int)
    requires
        0 <= a < size.w * size.h + 2,
    ensures
        linked(board, size, color, a, a),
{
    let p = seq![a];
    assert(gpath(board, size, color, p));
}

/// A link followed by an edge is a link.
proof fn lemma_linked_step(board: Seq<Square>, size: Size, color: Player, a: int, b: int, c: int)
    requires
        linked(board, size, color, a, b),
        gedge(board, size, color, b, c),
        0 <= c < size.w * size.h + 2,
    ensures
        linked(board, size, color, a, c),
{
    let p = choose|p: Seq<int>| #[trigger] gpath(board, size, color, p) && p[0] == a && p.last() == b;
    let q = p.push(c);
    assert(q[q.len() - 2] == b);
    assert(gpath(board, size, color, q));
}

/// Links run both ways.
proof fn lemma_linked_symm(board: Seq<Square>, size: Size, color: Player, a: int, b: int)
    requires
        linked(board, size, color, a, b),
    ensures
        linked(board, size, color, b, a),
{
    let p = choose|p: Seq<int>| #[trigger] gpath(board, size, color, p) && p[0] == a && p.last() == b;
    let q = Seq::new(p.len(), |k: int| p[p.len() - 1 - k]);
    assert forall|k: int| 0 <= k < q.len() - 1 implies gedge(board, size, color, #[trigger] q[k], q[k + 1]) by {
        let j = p.len() - 2 - k;
        assert(gedge(board, size, color, p[j], p[j + 1]));
        lemma_adjacent_symm_in_gedge(board, size, color, p[j], p[j + 1]);
    }
    assert(gpath(board, size, color, q));
}

/// Edges run both ways.
proof fn lemma_adjacent_symm_in_gedge(board: Seq<Square>, size: Size, color: Player, a: int, b: int)
    requires
        gedge(board, size, color, a, b),
    ensures
        gedge(board, size, color, b, a),
{
}

/// Links compose.
proof fn lemma_linked_trans(board: Seq<Square>, size: Size, color: Player, a: int, b: int, c: int)
    requires
        linked(board, size, color, a, b),
        linked(board, size, color, b, c),
    ensures
        linked(board, size, color, a, c),
{
    let p = choose|p: Seq<int>| #[trigger] gpath(board, size, color, p) && p[0] == a && p.last() == b;
    let q = choose|q: Seq<int>| #[trigger] gpath(board, size, color, q) && q[0] == b && q.last() == c;
    let r = p + q.drop_first();
    assert forall|k: int| 0 <= k < r.len() implies 0 <= #[trigger] r[k] < size.w * size.h + 2 by {
        if k >= p.len() {
            assert(r[k] == q[k - p.len() + 1]);
        }
    }
    assert forall|k: int| 0 <= k < r.len() - 1 implies gedge(board, size, color, #[trigger] r[k], r[k + 1]) by {
        if k < p.len() - 1 {
            assert(r[k] == p[k] && r[k + 1] == p[k + 1]);
        } else if k == p.len() - 1 {
            assert(r[k] == b && r[k + 1] == q[1]);
            assert(gedge(board, size, color, q[0], q[1]));
        } else {
            assert(r[k] == q[k - p.len() + 1] && r[k + 1] == q[k - p.len() + 2]);
            assert(gedge(board, size, color, q[k - p.len() + 1], q[k - p.len() + 2]));
        }
    }
    if q.len() == 1 {
        assert(r =~= p);
    } else {
        assert(r.last() == q.last());
    }
    assert(gpath(board, size, color, r));
}

/// In a set closed under every edge, linked nodes share a set.
proof fn lemma_closed_linked(ds: DisjointSet, board: Seq<Square>, size: Size, color: Player, p: Seq<int>, k: int)
    requires
        ds.wf(),
        ds.len() == size.w * size.h + 2,
        closed_under(ds, board, size, color),
        gpath(board, size, color, p),
        0 <= k < p.len(),
    ensures
        ds.same(p[0], p[k]),
    decreases k,
{
    if k > 0 {
        lemma_closed_linked(ds, board, size, color, p, k - 1);
        assert(gedge(board, size, color, p[k - 1], p[k]));
    }
}

/// A faithful set puts two nodes together exactly when they are linked.
pub proof fn lemma_faithful_same(ds: DisjointSet, board: Seq<Square>, size: Size, color: Player, a: int, b: int)
    requires
        faithful(ds, board, size, color),
        0 <= a < size.w * size.h + 2,
        0 <= b < size.w * size.h + 2,
    ensures
        ds.same(a, b) <==> linked(board, size, color, a, b),
{
    if linked(board, size, color, a, b) {
        let p = choose|p: Seq<int>| #[trigger] gpath(board, size, color, p) && p[0] == a && p.last() == b;
        lemma_closed_linked(ds, board, size, color, p, p.len() - 1);
    }
}

/// Merging the sets of the two ends of an edge keeps every set linked.
proof fn lemma_sound_union(
    before: DisjointSet,
    after: DisjointSet,
    board: Seq<Square>,
    size: Size,
    color: Player,
    a: int,
    b: int,
)
    requires
        before.wf(),
        before.len() == size.w * size.h + 2,
        after.len() == before.len(),
        sound(before, board, size, color),
        gedge(board, size, color, a, b),
        0 <= a < before.len(),
        0 <= b < before.len(),
        forall|x: int, y: int|
            0 <= x < before.len() && 0 <= y < before.len() ==> (#[trigger] after.same(x, y) <==> (before.same(x, y)
                || (before.same(x, a) && before.same(y, b)) || (before.same(x, b) && before.same(y, a)))),
    ensures
        sound(after, board, size, color),
{
    assert forall|x: int, y: int|
        0 <= x < size.w * size.h + 2 && 0 <= y < size.w * size.h + 2 && #[trigger] after.same(x, y) implies linked(
        board,
        size,
        color,
        x,
        y,
    ) by {
        if before.same(x, y) {
        } else if before.same(x, a) && before.same(y, b) {
            assert(linked(board, size, color, x, a));
            assert(linked(board, size, color, y, b));
            lemma_linked_step(board, size, color, x, a, b);
            lemma_linked_symm(board, size, color, y, b);
            lemma_linked_trans(board, size, color, x, b, y);
        } else {
            assert(linked(board, size, color, x, b));
            assert(linked(board, size, color, y, a));
            lemma_adjacent_symm_in_gedge(board, size, color, a, b);
            lemma_linked_step(board, size, color, x, b, a);
            lemma_linked_symm(board, size, color, y, a);
            lemma_linked_trans(board, size, color, x, a, y);
        }
    }
}

/// The cells of `color`'s first edge.
pub open spec fn first_cells(size: Size, color: Player) -> Set<int> {
    match color {
        Player::Black => row_cells(size, 0),
        Player::White => col_cells(size, 0),
    }
}

/// The cells of `color`'s last edge.
pub open spec fn last_cells(size: Size, color: Player) -> Set<int> {
    match color {
        Player::Black => row_cells(size, size.h - 1),
        Player::White => col_cells(size, size.w - 1),
    }
}

/// Walking on from a `color` cell reached by a color walk from the first
/// edge, a graph walk that ends at the last border node joins the edges.
proof fn lemma_walk_to_last(board: Seq<Square>, size: Size, color: Player, q: Seq<int>, s: int, pre: Seq<int>)
    requires
        size.w >= 1,
        board.len() == size.w * size.h,
        gpath(board, size, color, q),
        0 <= s < q.len(),
        q.last() == size.w * size.h + 1,
        colored(board, size, color, q[s]),
        color_path(board, size, color, pre),
        first_cells(size, color).contains(pre[0]),
        pre.last() == q[s],
    ensures
        joins(board, size, color, first_cells(size, color), last_cells(size, color)),
    decreases q.len() - s,
{
    let n = size.w * size.h;
    assert(s + 1 < q.len());
    let next = q[s + 1];
    assert(gedge(board, size, color, q[s], next));
    if next == n + 1 {
        assert(last_edge(size, color, q[s]));
        assert(last_cells(size, color).contains(pre.last()));
    } else if next == n {
        assert(s + 2 < q.len());
        let c = q[s + 2];
        assert(gedge(board, size, color, next, c));
        let p2 = seq![c];
        assert(color_path(board, size, color, p2));
        assert(first_cells(size, color).contains(c));
        lemma_walk_to_last(board, size, color, q, s + 2, p2);
    } else {
        let p2 = pre.push(next);
        assert(p2[p2.len() - 2] == q[s]);
        assert(color_path(board, size, color, p2));
        lemma_walk_to_last(board, size, color, q, s + 1, p2);
    }
}

/// The two border nodes are linked exactly when `color` joins its edges.
pub proof fn lemma_borders_linked(board: Seq<Square>, size: Size, color: Player)
    requires
        size.w >= 1,
        size.h >= 1,
        board.len() == size.w * size.h,
    ensures
        linked(board, size, color, size.w * size.h, size.w * size.h + 1) <==> joins(
            board,
            size,
            color,
            first_cells(size, color),
            last_cells(size, color),
        ),
{
    let n = size.w * size.h;
    if linked(board, size, color, n, n + 1) {
        let q = choose|q: Seq<int>| #[trigger] gpath(board, size, color, q) && q[0] == n && q.last() == n + 1;
        assert(q.len() >= 2);
        let c = q[1];
        assert(gedge(board, size, color, q[0], q[1]));
        let p = seq![c];
        assert(color_path(board, size, color, p));
        lemma_walk_to_last(board, size, color, q, 1, p);
    }
    if joins(board, size, color, first_cells(size, color), last_cells(size, color)) {
        let p = choose|p: Seq<int>| #[trigger] color_path(board, size, color, p) && first_cells(size, color).contains(p[0])
            && last_cells(size, color).contains(p.last());
        let q = seq![n] + p + seq![n + 1];
        assert forall|k: int| 0 <= k < q.len() implies 0 <= #[trigger] q[k] < n + 2 by {
            if 1 <= k < q.len() - 1 {
                assert(q[k] == p[k - 1]);
            }
        }
        assert forall|k: int| 0 <= k < q.len() - 1 implies gedge(board, size, color, #[trigger] q[k], q[k + 1]) by {
            if k == 0 {
                assert(q[1] == p[0]);
            } else if k == q.len() - 2 {
                assert(q[k] == p.last());
            } else {
                assert(q[k] == p[k - 1] && q[k + 1] == p[k]);
            }
        }
        assert(gpath(board, size, color, q));
    }
}

/// With the same `color` cells, two boards have the same graph, so a
/// faithful set for one is faithful for the other.
proof fn lemma_same_cells_faithful(ds: DisjointSet, b1: Seq<Square>, b2: Seq<Square>, size: Size, color: Player)
    requires
        faithful(ds, b1, size, color),
        forall|i: int| #[trigger] colored(b1, size, color, i) == colored(b2, size, color, i),
    ensures
        faithful(ds, b2, size, color),
{
    assert forall|a: int, b: int| #[trigger] gedge(b1, size, color, a, b) == gedge(b2, size, color, a, b) by {
        assert(colored(b1, size, color, a) == colored(b2, size, color, a));
        assert(colored(b1, size, color, b) == colored(b2, size, color, b));
    }
    assert forall|p: Seq<int>| #[trigger] gpath(b1, size, color, p) == gpath(b2, size, color, p) by {
        if gpath(b1, size, color, p) {
            assert forall|k: int| 0 <= k < p.len() - 1 implies gedge(b2, size, color, #[trigger] p[k], p[k + 1]) by {
                assert(gedge(b1, size, color, p[k], p[k + 1]));
            }
        }
        if gpath(b2, size, color, p) {
            assert forall|k: int| 0 <= k < p.len() - 1 implies gedge(b1, size, color, #[trigger] p[k], p[k + 1]) by {
                assert(gedge(b2, size, color, p[k], p[k + 1]));
            }
        }
    }
    assert forall|a: int, b: int|
        0 <= a < size.w * size.h + 2 && 0 <= b < size.w * size.h + 2 && #[trigger] ds.same(a, b) implies linked(
        b2,
        size,
        color,
        a,
        b,
    ) by {
        assert(linked(b1, size, color, a, b));
        let p = choose|p: Seq<int>| #[trigger] gpath(b1, size, color, p) && p[0] == a && p.last() == b;
        assert(gpath(b2, size, color, p));
    }
    assert forall|a: int, b: int| #[trigger] gedge(b2, size, color, a, b) implies ds.same(a, b) by {
        assert(gedge(b1, size, color, a, b));
    }
}

/// A board where every `color` cell of `b1` is still `color`'s has every
/// link `b1` has.
proof fn lemma_more_cells_sound(ds: DisjointSet, b1: Seq<Square>, b2: Seq<Square>, size: Size, color: Player)
    requires
        sound(ds, b1, size, color),
        forall|i: int| #[trigger] colored(b1, size, color, i) ==> colored(b2, size, color, i),
    ensures
        sound(ds, b2, size, color),
{
    assert forall|a: int, b: int|
        0 <= a < size.w * size.h + 2 && 0 <= b < size.w * size.h + 2 && #[trigger] ds.same(a, b) implies linked(
        b2,
        size,
        color,
        a,
        b,
    ) by {
        assert(linked(b1, size, color, a, b));
        let p = choose|p: Seq<int>| #[trigger] gpath(b1, size, color, p) && p[0] == a && p.last() == b;
        assert forall|k: int| 0 <= k < p.len() - 1 implies gedge(b2, size, color, #[trigger] p[k], p[k + 1]) by {
            assert(gedge(b1, size, color, p[k], p[k + 1]));
            assert(colored(b1, size, color, p[k]) ==> colored(b2, size, color, p[k]));
            assert(colored(b1, size, color, p[k + 1]) ==> colored(b2, size, color, p[k + 1]));
        }
        assert(gpath(b2, size, color, p));
    }
}

/// Join cell `i` (topped by `color`) to its `color` neighbours and to the
/// border node of each of `color`'s edges it lies on.
fn union_into(ds: &mut DisjointSet, size: Size, board: &[Square], i: usize, color: Player)
    requires
        size.w >= 1,
        size.h >= 1,
        hand_sarsens(size) <= u8::MAX,
        board@.len() == size.w * size.h,
        colored(board@, size, color, i as int),
        old(ds).wf(),
        old(ds).len() == size.w * size.h + 2,
        sound(*old(ds), board@, size, color),
    ensures
        final(ds).wf(),
        final(ds).len() == old(ds).len(),
        sound(*final(ds), board@, size, color),
        forall|x: int, y: int|
            0 <= x < old(ds).len() && 0 <= y < old(ds).len() && #[trigger] old(ds).same(x, y) ==> final(ds).same(x, y),
        forall|u: int| #[trigger] gedge(board@, size, color, i as int, u) ==> final(ds).same(i as int, u),
{
    let ghost d0 = *ds;
    proof {
        assert(size.w * size.h <= 127) by (nonlinear_arith)
            requires
                2 * size.w * size.h <= 255,
        ;
    }
    let area = size.area() as usize;
    let w = size.w as usize;
    let h = size.h as usize;
    let x = i % w;
    let y = i / w;
    let (first, last) = match color {
        Player::Black => (y == 0, y == h - 1),
        Player::White => (x == 0, x == w - 1),
    };
    if first {
        let ghost before = *ds;
        ds.union(i, area);
        proof {
            lemma_sound_union(before, *ds, board@, size, color, i as int, area as int);
        }
    }
    if last {
        let ghost before = *ds;
        ds.union(i, area + 1);
        proof {
            lemma_sound_union(before, *ds, board@, size, color, i as int, area as int + 1);
        }
    }
    let nb = neighbour_indices(size, i);
    let mut t: usize = 0;
    while t < nb.len()
        invariant
            size.w >= 1,
            size.h >= 1,
            area == size.w * size.h,
            area <= 127,
            board@.len() == area,
            i < area,
            colored(board@, size, color, i as int),
            ds.wf(),
            ds.len() == area + 2,
            sound(*ds, board@, size, color),
            forall|k: int| 0 <= k < nb@.len() ==> adjacent(size, i as int, #[trigger] nb@[k] as int),
            forall|x: int, y: int|
                0 <= x < area + 2 && 0 <= y < area + 2 && #[trigger] d0.same(x, y) ==> ds.same(x, y),
            first_edge(size, color, i as int) ==> ds.same(i as int, area as int),
            last_edge(size, color, i as int) ==> ds.same(i as int, area + 1),
            forall|k: int| 0 <= k < t && colored(board@, size, color, nb@[k] as int) ==> ds.same(i as int, #[trigger] nb@[k] as int),
            t <= nb@.len(),
        decreases nb@.len() - t,
    {
        let j = nb[t];
        assert(adjacent(size, i as int, j as int));
        if board[j].matches(color) {
            let ghost before = *ds;
            ds.union(i, j);
            proof {
                lemma_sound_union(before, *ds, board@, size, color, i as int, j as int);
            }
        }
        t += 1;
    }
    proof {
        assert forall|u: int| #[trigger] gedge(board@, size, color, i as int, u) implies ds.same(i as int, u) by {
            if colored(board@, size, color, u) && adjacent(size, i as int, u) {
                crate::druid::connect::lemma_adjacent_iff(size, i as int, u);
                let k = choose|k: int| 0 <= k < nb@.len() && #[trigger] nb@[k] == u;
                assert(colored(board@, size, color, nb@[k] as int));
            }
        }
    }
}

/// Rebuild `ds` for `color` from scratch against `board`.
fn rebuild_set(ds: &mut DisjointSet, size: Size, board: &[Square], color: Player)
    requires
        size.w >= 1,
        size.h >= 1,
        hand_sarsens(size) <= u8::MAX,
        board@.len() == size.w * size.h,
        old(ds).wf(),
        old(ds).len() == size.w * size.h + 2,
    ensures
        faithful(*final(ds), board@, size, color),
{
    proof {
        assert(size.w * size.h <= 127) by (nonlinear_arith)
            requires
                2 * size.w * size.h <= 255,
        ;
    }
    ds.reset();
    proof {
        assert forall|a: int, b: int|
            0 <= a < size.w * size.h + 2 && 0 <= b < size.w * size.h + 2 && #[trigger] ds.same(a, b) implies linked(
            board@,
            size,
            color,
            a,
            b,
        ) by {
            lemma_linked_refl(board@, size, color, a);
        }
    }
    let area = size.area() as usize;
    let mut i: usize = 0;
    while i < area
        invariant
            size.w >= 1,
            size.h >= 1,
            hand_sarsens(size) <= u8::MAX,
            area == size.w * size.h,
            area <= 127,
            board@.len() == area,
            i <= area,
            ds.wf(),
            ds.len() == area + 2,
            sound(*ds, board@, size, color),
            forall|c: int, u: int| 0 <= c < i && #[trigger] gedge(board@, size, color, c, u) ==> ds.same(c, u),
        decreases area - i,
    {
        if board[i].matches(color) {
            let ghost before = *ds;
            union_into(ds, size, board, i, color);
            proof {
                assert forall|c: int, u: int| 0 <= c < i + 1 && #[trigger] gedge(board@, size, color, c, u) implies ds.same(c, u) by {
                    if c < i {
                        assert(before.same(c, u));
                        assert(0 <= c < area + 2);
                        assert(0 <= u < area + 2);
                    }
                }
            }
        }
        i += 1;
    }
    proof {
        assert forall|a: int, b: int| #[trigger] gedge(board@, size, color, a, b) implies ds.same(a, b) by {
            if a >= area {
                lemma_adjacent_symm_in_gedge(board@, size, color, a, b);
                assert(ds.same(b, a));
            }
        }
    }
}

/// One union-find per color over the cells plus two border nodes.
#[derive(Clone, Debug)]
pub struct Connectivity {
    black: DisjointSet,
    white: DisjointSet,
}

impl Connectivity {
    /// `color`'s union-find.
    pub closed spec fn set_of(&self, color: Player) -> DisjointSet {
        match color {
            Player::Black => self.black,
            Player::White => self.white,
        }
    }

    /// Both colors' sets are exactly their linked classes on `board`.
    pub open spec fn faithful_to(&self, board: Seq<Square>, size: Size) -> bool {
        &&& faithful(self.set_of(Player::Black), board, size, Player::Black)
        &&& faithful(self.set_of(Player::White), board, size, Player::White)
    }

    /// Singleton sets for a board of `size`.
    pub fn new(size: Size) -> (r: Connectivity)
        requires
            hand_sarsens(size) <= u8::MAX,
        ensures
            r.set_of(Player::Black).wf(),
            r.set_of(Player::White).wf(),
            r.set_of(Player::Black).len() == size.w * size.h + 2,
            r.set_of(Player::White).len() == size.w * size.h + 2,
            forall|x: int| 0 <= x < size.w * size.h + 2 ==> #[trigger] r.set_of(Player::Black).root(x) == x,
            forall|x: int| 0 <= x < size.w * size.h + 2 ==> #[trigger] r.set_of(Player::White).root(x) == x,
    {
        proof {
            assert(size.w * size.h <= 127) by (nonlinear_arith)
                requires
                    2 * size.w * size.h <= 255,
            ;
        }
        let n = size.area() as usize + 2;
        Connectivity { black: DisjointSet::new(n), white: DisjointSet::new(n) }
    }

    /// `color`'s union-find.
    pub fn set(&self, color: Player) -> (r: &DisjointSet)
        ensures
            *r == self.set_of(color),
    {
        match color {
            Player::Black => &self.black,
            Player::White => &self.white,
        }
    }

    /// Rebuild `color`'s sets from scratch against `board`.
    pub fn rebuild(&mut self, size: Size, board: &[Square], color: Player)
        requires
            size.w >= 1,
            size.h >= 1,
            hand_sarsens(size) <= u8::MAX,
            board@.len() == size.w * size.h,
            old(self).set_of(color).wf(),
            old(self).set_of(color).len() == size.w * size.h + 2,
        ensures
            faithful(final(self).set_of(color), board@, size, color),
            final(self).set_of(opponent(color)) == old(self).set_of(opponent(color)),
    {
        match color {
            Player::Black => rebuild_set(&mut self.black, size, board, color),
            Player::White => rebuild_set(&mut self.white, size, board, color),
        }
    }

    /// Take in a move that just put `mover`'s pieces on `cells` (their new
    /// squares already in `board`), given each cell's square before (`prior`): if it
    /// covered an opponent cell, the opponent's sets are rebuilt; then each
    /// touched cell joins its neighbours.
    pub fn update(&mut self, size: Size, board: &[Square], cells: &[usize], prior: &[Square], mover: Player)
        requires
            size.w >= 1,
            size.h >= 1,
            hand_sarsens(size) <= u8::MAX,
            board@.len() == size.w * size.h,
            cells@.len() == prior@.len(),
            forall|k: int| 0 <= k < cells@.len() ==> (#[trigger] cells@[k] as int) < board@.len(),
            forall|k: int| 0 <= k < cells@.len() ==> #[trigger] board@[cells@[k] as int].piece == Some(mover),
            forall|u: int, v: int| 0 <= u < v < cells@.len() ==> #[trigger] cells@[u] != #[trigger] cells@[v],
            old(self).faithful_to(restored(board@, cells@, prior@), size),
        ensures
            final(self).faithful_to(board@, size),
    {
        let ghost before = restored(board@, cells@, prior@);
        proof {
            lemma_restored(board@, cells@, prior@);
        }
        let opp = match mover {
            Player::Black => Player::White,
            Player::White => Player::Black,
        };
        let mut covered = false;
        let mut k: usize = 0;
        while k < prior.len()
            invariant
                k <= prior@.len(),
                covered == exists|u: int| 0 <= u < k && (#[trigger] prior@[u]).piece == Some(opp),
            decreases prior@.len() - k,
        {
            match prior[k].piece {
                Some(p) => {
                    if p == opp {
                        covered = true;
                    }
                },
                None => {},
            }
            k += 1;
        }
        if covered {
            self.rebuild(size, board, opp);
        } else {
            proof {
                assert forall|i: int| #[trigger] colored(before, size, opp, i) == colored(board@, size, opp, i) by {
                    if 0 <= i < board@.len() {
                        if exists|u: int| 0 <= u < cells@.len() && cells@[u] as int == i {
                            let u = choose|u: int| 0 <= u < cells@.len() && cells@[u] as int == i;
                            assert(before[i] == prior@[u]);
                            assert(board@[cells@[u] as int].piece == Some(mover));
                        } else {
                            assert(before[i] == board@[i]);
                        }
                    }
                }
                lemma_same_cells_faithful(self.set_of(opp), before, board@, size, opp);
            }
        }
        proof {
            assert forall|i: int| #[trigger] colored(before, size, mover, i) implies colored(board@, size, mover, i) by {
                if exists|u: int| 0 <= u < cells@.len() && cells@[u] as int == i {
                    let u = choose|u: int| 0 <= u < cells@.len() && cells@[u] as int == i;
                    assert(board@[cells@[u] as int].piece == Some(mover));
                } else {
                    assert(before[i] == board@[i]);
                }
            }
            lemma_more_cells_sound(self.set_of(mover), before, board@, size, mover);
        }
        let ghost start = self.set_of(mover);
        let mut t: usize = 0;
        while t < cells.len()
            invariant
                size.w >= 1,
                size.h >= 1,
                hand_sarsens(size) <= u8::MAX,
                board@.len() == size.w * size.h,
                forall|k: int| 0 <= k < cells@.len() ==> (#[trigger] cells@[k] as int) < board@.len(),
                forall|k: int| 0 <= k < cells@.len() ==> #[trigger] board@[cells@[k] as int].piece == Some(mover),
                faithful(self.set_of(opp), board@, size, opp),
                opp == opponent(mover),
                self.set_of(mover).wf(),
                self.set_of(mover).len() == size.w * size.h + 2,
                sound(self.set_of(mover), board@, size, mover),
                forall|x: int, y: int|
                    0 <= x < size.w * size.h + 2 && 0 <= y < size.w * size.h + 2 && #[trigger] start.same(x, y) ==> self.set_of(mover).same(x, y),
                forall|k: int, u: int| 0 <= k < t && #[trigger] gedge(board@, size, mover, cells@[k] as int, u) ==> self.set_of(mover).same(cells@[k] as int, u),
                t <= cells@.len(),
            decreases cells@.len() - t,
        {
            let i = cells[t];
            let ghost prev = self.set_of(mover);
            match mover {
                Player::Black => union_into(&mut self.black, size, board, i, mover),
                Player::White => union_into(&mut self.white, size, board, i, mover),
            }
            proof {
                assert forall|k: int, u: int| 0 <= k < t + 1 && #[trigger] gedge(board@, size, mover, cells@[k] as int, u) implies self.set_of(mover).same(cells@[k] as int, u) by {
                    if k < t {
                        assert(prev.same(cells@[k] as int, u));
                        assert(0 <= u < size.w * size.h + 2);
                    }
                }
            }
            t += 1;
        }
        proof {
            let ds = self.set_of(mover);
            assert forall|a: int, b: int| #[trigger] gedge(board@, size, mover, a, b) implies ds.same(a, b) by {
                let touched_a = exists|u: int| 0 <= u < cells@.len() && cells@[u] as int == a;
                let touched_b = exists|u: int| 0 <= u < cells@.len() && cells@[u] as int == b;
                if touched_a {
                    let u = choose|u: int| 0 <= u < cells@.len() && cells@[u] as int == a;
                    assert(gedge(board@, size, mover, cells@[u] as int, b));
                } else if touched_b {
                    let u = choose|u: int| 0 <= u < cells@.len() && cells@[u] as int == b;
                    lemma_adjacent_symm_in_gedge(board@, size, mover, a, b);
                    assert(gedge(board@, size, mover, cells@[u] as int, a));
                    assert(ds.same(b, a));
                } else {
                    if 0 <= a < board@.len() {
                        assert(before[a] == board@[a]);
                    }
                    if 0 <= b < board@.len() {
                        assert(before[b] == board@[b]);
                    }
                    assert(gedge(before, size, mover, a, b));
                    assert(start.same(a, b));
                }
            }
        }
    }

    /// The winner the sets show: Black when its border nodes share a set,
    /// else White when its do.
    pub fn winner(&self, size: Size) -> (r: Option<Player>)
        requires
            hand_sarsens(size) <= u8::MAX,
            self.set_of(Player::Black).wf(),
            self.set_of(Player::White).wf(),
            self.set_of(Player::Black).len() == size.w * size.h + 2,
            self.set_of(Player::White).len() == size.w * size.h + 2,
        ensures
            r == (if self.set_of(Player::Black).same(size.w * size.h, size.w * size.h + 1) {
                Some(Player::Black)
            } else if self.set_of(Player::White).same(size.w * size.h, size.w * size.h + 1) {
                Some(Player::White)
            } else {
                None
            }),
    {
        proof {
            assert(size.w * size.h <= 127) by (nonlinear_arith)
                requires
                    2 * size.w * size.h <= 255,
            ;
        }
        let area = size.area() as usize;
        if self.black.connected(area, area + 1) {
            return Some(Player::Black);
        }
        if self.white.connected(area, area + 1) {
            return Some(Player::White);
        }
        None
    }
}

/// Singleton sets are faithful to a board with no pieces of the color.
pub proof fn lemma_fresh_faithful(ds: DisjointSet, board: Seq<Square>, size: Size, color: Player)
    requires
        ds.wf(),
        ds.len() == size.w * size.h + 2,
        forall|x: int| 0 <= x < size.w * size.h + 2 ==> #[trigger] ds.root(x) == x,
        forall|i: int| 0 <= i < board.len() ==> (#[trigger] board[i]).piece is None,
        board.len() == size.w * size.h,
    ensures
        faithful(ds, board, size, color),
{
    assert forall|a: int, b: int|
        0 <= a < size.w * size.h + 2 && 0 <= b < size.w * size.h + 2 && #[trigger] ds.same(a, b) implies linked(
        board,
        size,
        color,
        a,
        b,
    ) by {
        assert(ds.root(a) == a && ds.root(b) == b);
        lemma_linked_refl(board, size, color, a);
    }
    assert forall|a: int, b: int| #[trigger] gedge(board, size, color, a, b) implies ds.same(a, b) by {
        if colored(board, size, color, a) {
            assert(board[a].piece is None);
        }
        if colored(board, size, color, b) {
            assert(board[b].piece is None);
        }
    }
}

/// The board before a move, from the board after it, the cells it touched
/// and their squares before.
pub open spec fn restored(board: Seq<Square>, cells: Seq<usize>, prior: Seq<Square>) -> Seq<Square> {
    Seq::new(
        board.len(),
        |i: int|
            if exists|u: int| 0 <= u < cells.len() && cells[u] as int == i {
                prior[choose|u: int| 0 <= u < cells.len() && cells[u] as int == i]
            } else {
                board[i]
            },
    )
}

/// With distinct touched cells, the restored board holds each touched
/// cell's old square and every other cell's square.
proof fn lemma_restored(board: Seq<Square>, cells: Seq<usize>, prior: Seq<Square>)
    requires
        cells.len() == prior.len(),
        forall|u: int, v: int| 0 <= u < v < cells.len() ==> #[trigger] cells[u] != #[trigger] cells[v],
    ensures
        restored(board, cells, prior).len() == board.len(),
        forall|u: int| 0 <= u < cells.len() && (#[trigger] cells[u] as int) < board.len() ==> restored(board, cells, prior)[cells[u] as int] == prior[u],
{
    assert forall|u: int| 0 <= u < cells.len() && (#[trigger] cells[u] as int) < board.len() implies restored(board, cells, prior)[cells[u] as int] == prior[u] by {
        let i = cells[u] as int;
        let v = choose|v: int| 0 <= v < cells.len() && cells[v] as int == i;
        if v != u {
            if v < u {
                assert(cells[v] != cells[u]);
            } else {
                assert(cells[u] != cells[v]);
            }
        }
    }
}

/// Restoring the touched cells of a move's result gives the board before
/// the move.
pub proof fn lemma_restored_is(board: Seq<Square>, cells: Seq<usize>, prior: Seq<Square>, before: Seq<Square>)
    requires
        cells.len() == prior.len(),
        board.len() == before.len(),
        forall|u: int, v: int| 0 <= u < v < cells.len() ==> #[trigger] cells[u] != #[trigger] cells[v],
        forall|u: int| 0 <= u < cells.len() ==> (#[trigger] cells[u] as int) < board.len(),
        forall|u: int| 0 <= u < cells.len() ==> #[trigger] prior[u] == before[cells[u] as int],
        forall|i: int| 0 <= i < board.len() && !cells.contains(i as usize) ==> #[trigger] board[i] == before[i],
        board.len() <= u8::MAX,
    ensures
        restored(board, cells, prior) == before,
{
    lemma_restored(board, cells, prior);
    let r = restored(board, cells, prior);
    assert forall|i: int| 0 <= i < board.len() implies #[trigger] r[i] == before[i] by {
        if exists|u: int| 0 <= u < cells.len() && cells[u] as int == i {
            let u = choose|u: int| 0 <= u < cells.len() && cells[u] as int == i;
            assert(r[cells[u] as int] == prior[u]);
        } else {
            if cells.contains(i as usize) {
                let u = choose|u: int| 0 <= u < cells.len() && cells[u] == i as usize;
                assert(cells[u] as int == i);
            }
        }
    }
    assert(r =~= before);
}

/// Faithful sets show the winner that the board's connections give.
pub proof fn lemma_connectivity_winner(c: Connectivity, s: State)
    requires
        s.wf(),
        c.faithful_to(s.board@, s.size),
    ensures
        (if c.set_of(Player::Black).same(s.size.w * s.size.h, s.size.w * s.size.h + 1) {
            Some(Player::Black)
        } else if c.set_of(Player::White).same(s.size.w * s.size.h, s.size.w * s.size.h + 1) {
            Some(Player::White)
        } else {
            None
        }) == winner_of(s),
{
    let n = s.size.w * s.size.h;
    lemma_faithful_same(c.set_of(Player::Black), s.board@, s.size, Player::Black, n, n + 1);
    lemma_faithful_same(c.set_of(Player::White), s.board@, s.size, Player::White, n, n + 1);
    lemma_borders_linked(s.board@, s.size, Player::Black);
    lemma_borders_linked(s.board@, s.size, Player::White);
}

} // verus!
