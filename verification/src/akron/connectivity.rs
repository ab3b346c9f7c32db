//! Over/under-cut-aware group connectivity: given a board's occupancy and
//! colouring, which same-coloured pieces count as connected under Akron's
//! rule that a lower connection is cut wherever a strictly higher opposing
//! connection shares its projected footprint.
//!
//! The board's geometry comes in as a [`Layout`]: every cell's touching
//! neighbours and, for every touching edge, its pillar (the strictly higher
//! edges sharing its footprint, lowest first). An edge between two pieces
//! of one colour is cut when, walking its pillar from the top down, the
//! nearest connection that is not itself cut belongs to the other colour.
//! [`Groups::compute`] rebuilds the whole structure from scratch.

use vstd::prelude::*;
use crate::akron::forest::{forest_ok, lemma_compress_ok, lemma_link_ok, lemma_root_of, lemma_singleton_forest, root_of};

verus! {

/// A touching edge between two cells.
pub type Edge = (usize, usize);

/// The board to compute connectivity on.
pub struct Layout {
    /// Whether each cell holds a piece.
    pub occupied: Vec<bool>,
    /// Whether each occupied cell's piece is Black.
    pub black: Vec<bool>,
    /// Each cell's touching neighbours.
    pub adjacency: Vec<Vec<usize>>,
    /// For each cell `a` and its `t`-th neighbour, the pillar of the edge
    /// between them: the strictly higher edges sharing its footprint,
    /// lowest first.
    pub pillars: Vec<Vec<Vec<Edge>>>,
}

impl Layout {
    /// Number of cells.
    pub open spec fn cells(&self) -> int {
        self.occupied@.len() as int
    }

    /// All tables cover every cell, and every listed cell is a cell.
    pub open spec fn well_formed(&self) -> bool {
        &&& self.cells() < 0x1_0000_0000
        &&& self.black@.len() == self.cells()
        &&& self.adjacency@.len() == self.cells()
        &&& self.pillars@.len() == self.cells()
        &&& forall|a: int| 0 <= a < self.cells() ==> #[trigger] self.pillars@[a]@.len() == self.adjacency@[a]@.len()
        &&& forall|a: int, t: int|
            0 <= a < self.cells() && 0 <= t < self.adjacency@[a]@.len() ==> #[trigger] self.adjacency@[a]@[t] < self.cells()
        &&& forall|a: int, t: int, k: int|
            0 <= a < self.cells() && 0 <= t < self.adjacency@[a]@.len() && 0 <= k < self.pillars@[a]@[t]@.len()
                ==> (#[trigger] self.pillars@[a]@[t]@[k]).0 < self.cells() && self.pillars@[a]@[t]@[k].1 < self.cells()
    }

    /// The colour on cell `i`, `true` for Black, or `None` when empty.
    pub open spec fn color_at(&self, i: int) -> Option<bool> {
        if self.occupied@[i] {
            Some(self.black@[i])
        } else {
            None
        }
    }

    /// The colour of an edge joining two pieces of one colour, else `None`.
    pub open spec fn edge_color(&self, e: Edge) -> Option<bool> {
        match (self.color_at(e.0 as int), self.color_at(e.1 as int)) {
            (Some(a), Some(b)) => if a == b {
                Some(a)
            } else {
                None
            },
            _ => None,
        }
    }

    /// Walking `chain` from the top down to index `k`: the colour of the
    /// nearest connection not cut by one above it.
    pub open spec fn blocker_from(&self, chain: Seq<Edge>, k: int) -> Option<bool>
        decreases chain.len() - k,
    {
        if k >= chain.len() || k < 0 {
            None
        } else {
            let above = self.blocker_from(chain, k + 1);
            match self.edge_color(chain[k]) {
                Some(c) => if above is None || above == Some(c) {
                    Some(c)
                } else {
                    above
                },
                None => above,
            }
        }
    }

    /// An edge of colour `color` with pillar `chain` is cut: the nearest
    /// uncut connection above it is the other colour's.
    pub open spec fn is_cut(&self, chain: Seq<Edge>, color: bool) -> bool {
        match self.blocker_from(chain, 0) {
            Some(b) => b != color,
            None => false,
        }
    }

    /// The `t`-th edge of cell `a` connects: it leads to a higher-indexed
    /// cell holding a piece of `a`'s colour, and it is not cut.
    pub open spec fn connects(&self, a: int, t: int) -> bool {
        let b = self.adjacency@[a]@[t] as int;
        &&& a < b
        &&& self.color_at(a) is Some
        &&& self.color_at(a) == self.color_at(b)
        &&& !self.is_cut(self.pillars@[a]@[t]@, self.color_at(a)->0)
    }

    /// `x` and `y` are joined by a connecting edge, listed at either end.
    pub open spec fn link(&self, x: int, y: int) -> bool {
        ||| exists|t: int| 0 <= t < self.adjacency@[x]@.len() && self.adjacency@[x]@[t] as int == y && #[trigger] self.connects(x, t)
        ||| exists|t: int| 0 <= t < self.adjacency@[y]@.len() && self.adjacency@[y]@[t] as int == x && #[trigger] self.connects(y, t)
    }

    /// A walk along connecting edges.
    pub open spec fn walk(&self, p: Seq<int>) -> bool {
        &&& p.len() >= 1
        &&& forall|k: int| 0 <= k < p.len() ==> 0 <= #[trigger] p[k] < self.cells()
        &&& forall|k: int| 0 <= k < p.len() - 1 ==> self.link(#[trigger] p[k], p[k + 1])
    }

    /// Some walk along connecting edges leads from `x` to `y`.
    pub open spec fn connected(&self, x: int, y: int) -> bool {
        exists|p: Seq<int>| #[trigger] self.walk(p) && p[0] == x && p.last() == y
    }

    /// `a` and `b` hold pieces of one colour in one connected group.
    pub open spec fn same_group_spec(&self, a: int, b: int) -> bool {
        &&& self.color_at(a) is Some
        &&& self.color_at(a) == self.color_at(b)
        &&& self.connected(a, b)
    }
}

proof fn lemma_connected_refl(l: Layout, x: int)
    requires
        0 <= x < l.cells(),
    ensures
        l.connected(x, x),
{
    let p = seq![x];
    assert(l.walk(p));
}

proof fn lemma_connected_symm(l: Layout, x: int, y: int)
    requires
        l.connected(x, y),
    ensures
        l.connected(y, x),
{
    let p = choose|p: Seq<int>| #[trigger] l.walk(p) && p[0] == x && p.last() == y;
    let q = Seq::new(p.len(), |k: int| p[p.len() - 1 - k]);
    assert forall|k: int| 0 <= k < q.len() implies 0 <= #[trigger] q[k] < l.cells() by {
        assert(0 <= p[p.len() - 1 - k] < l.cells());
    }
    assert forall|k: int| 0 <= k < q.len() - 1 implies l.link(#[trigger] q[k], q[k + 1]) by {
        let j = p.len() - 2 - k;
        assert(l.link(p[j], p[j + 1]));
    }
    assert(l.walk(q));
}

proof fn lemma_connected_trans(l: Layout, x: int, y: int, z: int)
    requires
        l.connected(x, y),
        l.connected(y, z),
    ensures
        l.connected(x, z),
{
    let p = choose|p: Seq<int>| #[trigger] l.walk(p) && p[0] == x && p.last() == y;
    let q = choose|q: Seq<int>| #[trigger] l.walk(q) && q[0] == y && q.last() == z;
    let r = p + q.drop_first();
    assert forall|k: int| 0 <= k < r.len() implies 0 <= #[trigger] r[k] < l.cells() by {
        if k >= p.len() {
            assert(r[k] == q[k - p.len() + 1]);
        } else {
            assert(r[k] == p[k]);
        }
    }
    assert forall|k: int| 0 <= k < r.len() - 1 implies l.link(#[trigger] r[k], r[k + 1]) by {
        if k < p.len() - 1 {
            assert(r[k] == p[k] && r[k + 1] == p[k + 1]);
        } else if k == p.len() - 1 {
            assert(r[k] == q[0] && r[k + 1] == q[1]);
        } else {
            assert(r[k] == q[k - p.len() + 1] && r[k + 1] == q[k - p.len() + 2]);
        }
    }
    assert(l.walk(r));
}

proof fn lemma_connected_link(l: Layout, x: int, y: int)
    requires
        0 <= x < l.cells(),
        0 <= y < l.cells(),
        l.link(x, y),
    ensures
        l.connected(x, y),
{
    let p = seq![x, y];
    assert(l.walk(p));
}

/// Being in one group is an equivalence on the occupied cells: it is
/// reflexive on every piece, symmetric and transitive.
pub proof fn lemma_same_group_equivalence(layout: Layout, a: int, b: int, c: int)
    requires
        0 <= a < layout.cells(),
        0 <= b < layout.cells(),
        0 <= c < layout.cells(),
    ensures
        layout.color_at(a) is Some ==> layout.same_group_spec(a, a),
        layout.same_group_spec(a, b) ==> layout.same_group_spec(b, a),
        layout.same_group_spec(a, b) && layout.same_group_spec(b, c) ==> layout.same_group_spec(a, c),
{
    lemma_connected_refl(layout, a);
    if layout.same_group_spec(a, b) {
        lemma_connected_symm(layout, a, b);
        if layout.same_group_spec(b, c) {
            lemma_connected_trans(layout, a, b, c);
        }
    }
}

/// Walking down from index `k`, a chain with no connection of the other
/// colour never yields that colour as the blocker.
proof fn lemma_no_other_blocker(layout: Layout, chain: Seq<Edge>, color: bool, k: int)
    requires
        forall|j: int| 0 <= j < chain.len() ==> layout.edge_color(#[trigger] chain[j]) != Some(!color),
    ensures
        layout.blocker_from(chain, k) != Some(!color),
    decreases chain.len() - k,
{
    if 0 <= k < chain.len() {
        lemma_no_other_blocker(layout, chain, color, k + 1);
        assert(layout.edge_color(chain[k]) != Some(!color));
    }
}

/// Own-colour connections never contest each other: an edge whose pillar
/// holds no connection of the other colour is not cut. In particular the
/// topmost edge, whose pillar is empty, is never cut.
pub proof fn lemma_own_colour_never_cuts(layout: Layout, chain: Seq<Edge>, color: bool)
    requires
        forall|j: int| 0 <= j < chain.len() ==> layout.edge_color(#[trigger] chain[j]) != Some(!color),
    ensures
        !layout.is_cut(chain, color),
{
    lemma_no_other_blocker(layout, chain, color, 0);
}

/// Cut-aware groups of a board, as a union-find over its cells.
#[derive(Clone, Debug)]
pub struct Groups {
    parent: Vec<u32>,
    size: Vec<u32>,
    /// `Some(colour)` for an occupied cell, `None` for an empty one.
    color: Vec<Option<bool>>,
}

impl Groups {
    /// The union-find is well formed and its sets are exactly the connected
    /// groups of `layout`.
    pub closed spec fn represents(&self, layout: Layout) -> bool {
        &&& forest_ok(self.parent@, self.size@)
        &&& self.parent@.len() == layout.cells()
        &&& self.color@.len() == layout.cells()
        &&& forall|i: int| 0 <= i < layout.cells() ==> #[trigger] self.color@[i] == layout.color_at(i)
        &&& forall|x: int, y: int|
            0 <= x < layout.cells() && 0 <= y < layout.cells() ==> (self.root(x) == self.root(y) <==> #[trigger] layout.connected(
                x,
                y,
            ))
    }

    spec fn root(&self, x: int) -> int {
        root_of(self.parent@, self.size@, x)
    }

    /// The root of `x`'s set; every node on the way now points at it.
    fn find(&mut self, x: usize) -> (r: usize)
        requires
            forest_ok(old(self).parent@, old(self).size@),
            x < old(self).parent@.len(),
        ensures
            r == old(self).root(x as int),
            forest_ok(final(self).parent@, final(self).size@),
            final(self).parent@.len() == old(self).parent@.len(),
            final(self).size == old(self).size,
            final(self).color == old(self).color,
            forall|y: int| 0 <= y < old(self).parent@.len() ==> #[trigger] final(self).root(y) == old(self).root(y),
    {
        let ghost p0 = self.parent@;
        let ghost g0 = *self;
        proof {
            lemma_root_of(self.parent@, self.size@, x as int);
        }
        let mut root = x;
        while self.parent[root] as usize != root
            invariant
                forest_ok(self.parent@, self.size@),
                self.parent@ == p0,
                *self == g0,
                root < p0.len(),
                root_of(p0, self.size@, root as int) == root_of(p0, self.size@, x as int),
            decreases p0.len() - self.size@[root as int],
        {
            proof {
                lemma_root_of(p0, self.size@, root as int);
            }
            root = self.parent[root] as usize;
        }
        let mut cur = x;
        while self.parent[cur] as usize != root
            invariant
                forest_ok(self.parent@, self.size@),
                self.parent@.len() == p0.len(),
                self.size == g0.size,
                self.color == g0.color,
                g0.parent@ == p0,
                cur < p0.len(),
                root < p0.len(),
                root as int == root_of(p0, self.size@, x as int),
                root_of(self.parent@, self.size@, cur as int) == root as int,
                self.parent@[root as int] as int == root,
                forall|y: int| 0 <= y < p0.len() ==> #[trigger] root_of(self.parent@, self.size@, y) == root_of(p0, self.size@, y),
            decreases p0.len() - self.size@[cur as int],
        {
            let next = self.parent[cur] as usize;
            proof {
                lemma_root_of(self.parent@, self.size@, cur as int);
                lemma_compress_ok(self.parent@, self.size@, cur as int);
            }
            let ghost before = self.parent@;
            self.parent.set(cur, root as u32);
            proof {
                assert(self.parent@ == before.update(cur as int, root_of(before, self.size@, cur as int) as u32));
                assert(root_of(self.parent@, self.size@, next as int) == root as int);
            }
            cur = next;
        }
        root
    }

    /// Merge the sets of `a` and `b`, the smaller under the larger.
    fn union(&mut self, a: usize, b: usize)
        requires
            forest_ok(old(self).parent@, old(self).size@),
            a < old(self).parent@.len(),
            b < old(self).parent@.len(),
        ensures
            forest_ok(final(self).parent@, final(self).size@),
            final(self).parent@.len() == old(self).parent@.len(),
            final(self).color == old(self).color,
            forall|y: int|
                0 <= y < old(self).parent@.len() ==> #[trigger] final(self).root(y) == if old(self).root(y) == old(self).root(
                    a as int,
                ) || old(self).root(y) == old(self).root(b as int) {
                    final(self).root(a as int)
                } else {
                    old(self).root(y)
                },
            final(self).root(a as int) == old(self).root(a as int) || final(self).root(a as int) == old(self).root(b as int),
    {
        let ghost g0 = *self;
        let ra = self.find(a);
        let ghost g1 = *self;
        let rb = self.find(b);
        let ghost g2 = *self;
        proof {
            assert(self.root(a as int) == g1.root(a as int));
            assert(g1.root(b as int) == g0.root(b as int));
            assert(self.root(b as int) == g1.root(b as int));
            assert(rb as int == self.root(b as int));
            assert(ra as int == self.root(a as int));
            lemma_root_of(self.parent@, self.size@, a as int);
            lemma_root_of(self.parent@, self.size@, b as int);
        }
        if ra == rb {
            return;
        }
        let (small, big) = if self.size[ra] < self.size[rb] {
            (ra, rb)
        } else {
            (rb, ra)
        };
        let ghost p1 = self.parent@;
        let ghost s1 = self.size@;
        proof {
            lemma_merge(p1, s1, a as int, b as int, small as int, big as int);
        }
        self.parent.set(small, big as u32);
        let grown = self.size[big] + self.size[small];
        self.size.set(big, grown);
        proof {
            assert(self.parent@ == p1.update(small as int, big as u32));
            assert(self.size@ == s1.update(big as int, (s1[big as int] + s1[small as int]) as u32));
            assert forall|y: int| 0 <= y < g0.parent@.len() implies #[trigger] self.root(y) == if g0.root(y) == g0.root(a as int)
                || g0.root(y) == g0.root(b as int) {
                self.root(a as int)
            } else {
                g0.root(y)
            } by {
                assert(g1.root(y) == g0.root(y));
                assert(g2.root(y) == g1.root(y));
                assert(root_of(p1, s1, y) == g2.root(y));
            }
        }
    }

    /// The groups of `layout`: every connecting edge joins the sets of its
    /// two ends.
    pub fn compute(layout: &Layout) -> (g: Groups)
        requires
            layout.well_formed(),
        ensures
            g.represents(*layout),
    {
        let total = layout.occupied.len();
        let mut parent: Vec<u32> = Vec::new();
        let mut size: Vec<u32> = Vec::new();
        let mut color: Vec<Option<bool>> = Vec::new();
        let mut i: usize = 0;
        while i < total
            invariant
                layout.well_formed(),
                total == layout.cells(),
                i <= total,
                parent@.len() == i,
                size@.len() == i,
                color@.len() == i,
                forall|x: int| 0 <= x < i ==> (#[trigger] parent@[x]) as int == x,
                forall|x: int| 0 <= x < i ==> #[trigger] size@[x] == 1,
                forall|x: int| 0 <= x < i ==> #[trigger] color@[x] == layout.color_at(x),
            decreases total - i,
        {
            parent.push(i as u32);
            size.push(1);
            let c = if layout.occupied[i] {
                Some(layout.black[i])
            } else {
                None
            };
            color.push(c);
            i += 1;
        }
        let ghost pv = parent@;
        let ghost sv = size@;
        let ghost cv = color@;
        proof {
            assert(i == total);
            assert forall|x: int| 0 <= x < total implies (#[trigger] pv[x]) as int == x && sv[x] == 1 by {
                assert(parent@[x] as int == x);
                assert(size@[x] == 1);
            }
        }
        let mut groups = Groups { parent, size, color };
        proof {
            assert(groups.parent@ == pv);
            assert(groups.size@ == sv);
            assert(groups.color@ == cv);
            groups.lemma_singletons(*layout);
        }
        let mut a: usize = 0;
        while a < total
            invariant
                layout.well_formed(),
                total == layout.cells(),
                a <= total,
                groups.sound(*layout),
                forall|x: int, t: int|
                    0 <= x < a && 0 <= t < layout.adjacency@[x]@.len() && #[trigger] layout.connects(x, t) ==> groups.root(x)
                        == groups.root(layout.adjacency@[x]@[t] as int),
            decreases total - a,
        {
            let ca = groups.color[a];
            let n_adj = layout.adjacency[a].len();
            let mut t: usize = 0;
            while t < n_adj
                invariant
                    layout.well_formed(),
                    total == layout.cells(),
                    a < total,
                    n_adj == layout.adjacency@[a as int]@.len(),
                    ca == layout.color_at(a as int),
                    t <= n_adj,
                    groups.sound(*layout),
                    forall|x: int, u: int|
                        0 <= x < a && 0 <= u < layout.adjacency@[x]@.len() && #[trigger] layout.connects(x, u) ==> groups.root(x)
                            == groups.root(layout.adjacency@[x]@[u] as int),
                    forall|u: int|
                        0 <= u < t && #[trigger] layout.connects(a as int, u) ==> groups.root(a as int) == groups.root(
                            layout.adjacency@[a as int]@[u] as int,
                        ),
                decreases n_adj - t,
            {
                let b = layout.adjacency[a][t];
                if let Some(c) = ca {
                    if b > a {
                        if let Some(cb) = groups.color[b] {
                            if c == cb {
                                let cut = is_cut(layout, a, t, c);
                                if !cut {
                                    let ghost before = groups;
                                    groups.union(a, b);
                                    proof {
                                        before.lemma_union_faithful(groups, *layout, a as int, t as int);
                                    }
                                }
                            }
                        }
                    }
                }
                t += 1;
            }
            a += 1;
        }
        proof {
            groups.lemma_closed_complete(*layout);
        }
        groups
    }

    /// The colour occupying `index`, or `None` if it is empty.
    pub fn color_of(&self, index: usize) -> (r: Option<bool>)
        requires
            index < self.len(),
        ensures
            r == self.color_spec(index as int),
    {
        self.color[index]
    }

    /// The colour recorded for cell `index`.
    pub closed spec fn color_spec(&self, index: int) -> Option<bool> {
        self.color@[index]
    }

    /// Number of cells.
    pub closed spec fn len(&self) -> nat {
        self.color@.len()
    }

    /// `a` and `b` are in one set.
    pub closed spec fn same_set(&self, a: int, b: int) -> bool {
        self.root(a) == self.root(b)
    }

    /// The union-find is well formed over the cells.
    pub closed spec fn wf(&self) -> bool {
        &&& forest_ok(self.parent@, self.size@)
        &&& self.parent@.len() == self.color@.len()
    }

    /// Computed groups are well formed, record the board's colours, and put
    /// two cells in one set exactly when they are connected.
    pub proof fn lemma_represents(&self, layout: Layout, a: int, b: int)
        requires
            self.represents(layout),
            0 <= a < layout.cells(),
            0 <= b < layout.cells(),
        ensures
            self.wf(),
            self.len() == layout.cells(),
            self.color_spec(a) == layout.color_at(a),
            self.same_set(a, b) == layout.connected(a, b),
    {
    }

    /// Whether `a` and `b` are in the same connected (cut-aware) group:
    /// both occupied by one colour and in one set.
    pub fn same_group(&mut self, a: usize, b: usize) -> (r: bool)
        requires
            old(self).wf(),
            a < old(self).len(),
            b < old(self).len(),
        ensures
            r == (old(self).color_spec(a as int) is Some && old(self).color_spec(a as int) == old(self).color_spec(b as int)
                && old(self).same_set(a as int, b as int)),
            final(self).wf(),
            final(self).len() == old(self).len(),
            forall|i: int| #[trigger] final(self).color_spec(i) == old(self).color_spec(i),
            forall|x: int, y: int|
                0 <= x < old(self).len() && 0 <= y < old(self).len() ==> #[trigger] final(self).same_set(x, y) == old(
                    self,
                ).same_set(x, y),
            forall|l: Layout| #[trigger] old(self).represents(l) ==> final(self).represents(l),
    {
        if self.color[a].is_none() || self.color[a] != self.color[b] {
            return false;
        }
        let ghost g0 = *self;
        let ra = self.find(a);
        let rb = self.find(b);
        proof {
            g0.lemma_roots_kept(*self);
        }
        ra == rb
    }

    /// Re-pointing nodes without changing any root keeps the sets, the
    /// colours and what the groups represent.
    proof fn lemma_roots_kept(self, after: Groups)
        requires
            self.wf(),
            forest_ok(after.parent@, after.size@),
            after.parent@.len() == self.parent@.len(),
            after.color == self.color,
            forall|y: int| 0 <= y < self.parent@.len() ==> #[trigger] after.root(y) == self.root(y),
        ensures
            after.wf(),
            after.len() == self.len(),
            forall|i: int| #[trigger] after.color_spec(i) == self.color_spec(i),
            forall|x: int, y: int|
                0 <= x < self.len() && 0 <= y < self.len() ==> #[trigger] after.same_set(x, y) == self.same_set(x, y),
            forall|l: Layout| #[trigger] self.represents(l) ==> after.represents(l),
    {
        assert forall|x: int, y: int| 0 <= x < self.len() && 0 <= y < self.len() implies #[trigger] after.same_set(x, y)
            == self.same_set(x, y) by {
            assert(after.root(x) == self.root(x));
            assert(after.root(y) == self.root(y));
        }
        assert forall|l: Layout| #[trigger] self.represents(l) implies after.represents(l) by {
            self.lemma_represents_frame(after, l);
        }
    }

    /// Re-pointing nodes without changing any root keeps what the groups
    /// represent.
    proof fn lemma_represents_frame(self, after: Groups, l: Layout)
        requires
            self.represents(l),
            forest_ok(after.parent@, after.size@),
            after.parent@.len() == self.parent@.len(),
            after.color == self.color,
            forall|y: int| 0 <= y < self.parent@.len() ==> #[trigger] after.root(y) == self.root(y),
        ensures
            after.represents(l),
    {
        assert forall|x: int, y: int|
            0 <= x < l.cells() && 0 <= y < l.cells() implies (after.root(x) == after.root(y) <==> #[trigger] l.connected(x, y)) by {
            assert(after.root(x) == self.root(x));
            assert(after.root(y) == self.root(y));
        }
    }
}

/// The colour of an edge's two pieces when they agree.
fn edge_color_of(layout: &Layout, e: Edge) -> (r: Option<bool>)
    requires
        (e.0 as int) < layout.cells(),
        (e.1 as int) < layout.cells(),
        layout.black@.len() == layout.cells(),
    ensures
        r == layout.edge_color(e),
{
    let ca = if layout.occupied[e.0] {
        Some(layout.black[e.0])
    } else {
        None
    };
    let cb = if layout.occupied[e.1] {
        Some(layout.black[e.1])
    } else {
        None
    };
    match (ca, cb) {
        (Some(x), Some(y)) => if x == y {
            Some(x)
        } else {
            None
        },
        _ => None,
    }
}

/// Whether the `t`-th edge of cell `a`, of colour `color`, is cut.
fn is_cut(layout: &Layout, a: usize, t: usize, color: bool) -> (r: bool)
    requires
        layout.well_formed(),
        (a as int) < layout.cells(),
        (t as int) < layout.adjacency@[a as int]@.len(),
    ensures
        r == layout.is_cut(layout.pillars@[a as int]@[t as int]@, color),
{
    let chain = &layout.pillars[a][t];
    let ghost ch = chain@;
    let mut blocker: Option<bool> = None;
    let mut k: usize = chain.len();
    while k > 0
        invariant
            layout.well_formed(),
            (a as int) < layout.cells(),
            (t as int) < layout.adjacency@[a as int]@.len(),
            ch == layout.pillars@[a as int]@[t as int]@,
            *chain == layout.pillars@[a as int]@[t as int],
            k <= ch.len(),
            blocker == layout.blocker_from(ch, k as int),
        decreases k,
    {
        k -= 1;
        proof {
            assert(ch[k as int].0 < layout.cells() && ch[k as int].1 < layout.cells());
        }
        let above = chain[k];
        if let Some(c) = edge_color_of(layout, above) {
            let keep = match blocker {
                None => true,
                Some(b) => b == c,
            };
            if keep {
                blocker = Some(c);
            }
        }
    }
    match blocker {
        Some(b) => b != color,
        None => false,
    }
}

impl Groups {
    /// Sets are connected groups: one set only ever holds connected cells.
    spec fn sound(&self, layout: Layout) -> bool {
        &&& forest_ok(self.parent@, self.size@)
        &&& self.parent@.len() == layout.cells()
        &&& self.color@.len() == layout.cells()
        &&& forall|i: int| 0 <= i < layout.cells() ==> #[trigger] self.color@[i] == layout.color_at(i)
        &&& forall|x: int, y: int|
            0 <= x < layout.cells() && 0 <= y < layout.cells() && #[trigger] self.root(x) == #[trigger] self.root(y)
                ==> layout.connected(x, y)
    }

    /// Singleton sets are sound.
    proof fn lemma_singletons(&self, layout: Layout)
        requires
            self.parent@.len() == layout.cells(),
            self.size@.len() == layout.cells(),
            self.color@.len() == layout.cells(),
            layout.cells() < 0x1_0000_0000,
            forall|x: int| 0 <= x < layout.cells() ==> (#[trigger] self.parent@[x]) as int == x && self.size@[x] == 1,
            forall|x: int| 0 <= x < layout.cells() ==> #[trigger] self.color@[x] == layout.color_at(x),
        ensures
            self.sound(layout),
    {
        lemma_singleton_forest(self.parent@, self.size@);
        assert forall|x: int, y: int|
            0 <= x < layout.cells() && 0 <= y < layout.cells() && #[trigger] self.root(x) == #[trigger] self.root(y) implies layout.connected(x, y) by {
            assert(self.root(x) == x);
            assert(self.root(y) == y);
            lemma_connected_refl(layout, x);
        }
    }

    /// A union along a connecting edge keeps the sets sound and closes them
    /// under that edge.
    proof fn lemma_union_faithful(self, after: Groups, layout: Layout, a: int, t: int)
        requires
            self.sound(layout),
            layout.well_formed(),
            0 <= a < layout.cells(),
            0 <= t < layout.adjacency@[a]@.len(),
            layout.connects(a, t),
            forest_ok(after.parent@, after.size@),
            after.parent@.len() == self.parent@.len(),
            after.color == self.color,
            forall|y: int|
                0 <= y < self.parent@.len() ==> #[trigger] after.root(y) == if self.root(y) == self.root(a) || self.root(y)
                    == self.root(layout.adjacency@[a]@[t] as int) {
                    after.root(a)
                } else {
                    self.root(y)
                },
            after.root(a) == self.root(a) || after.root(a) == self.root(layout.adjacency@[a]@[t] as int),
        ensures
            after.sound(layout),
            after.root(a) == after.root(layout.adjacency@[a]@[t] as int),
            forall|x: int, y: int|
                0 <= x < layout.cells() && 0 <= y < layout.cells() && self.root(x) == self.root(y) ==> #[trigger] after.root(x)
                    == #[trigger] after.root(y),
    {
        let n = layout.cells();
        let b = layout.adjacency@[a]@[t] as int;
        lemma_root_of(self.parent@, self.size@, a);
        lemma_root_of(self.parent@, self.size@, b);
        assert(layout.link(a, b));
        lemma_connected_link(layout, a, b);
        assert forall|x: int, y: int|
            0 <= x < n && 0 <= y < n && #[trigger] after.root(x) == #[trigger] after.root(y) implies layout.connected(x, y) by {
            lemma_root_of(self.parent@, self.size@, x);
            lemma_root_of(self.parent@, self.size@, y);
            let merged = |z: int| self.root(z) == self.root(a) || self.root(z) == self.root(b);
            if self.root(x) == self.root(y) {
            } else if merged(x) && merged(y) {
                // one end joins `a`'s set, the other `b`'s
                let (xa, yb) = if self.root(x) == self.root(a) {
                    (x, y)
                } else {
                    (y, x)
                };
                assert(self.root(xa) == self.root(a));
                assert(self.root(yb) == self.root(b));
                assert(layout.connected(xa, a));
                assert(layout.connected(b, yb));
                lemma_connected_trans(layout, xa, a, b);
                lemma_connected_trans(layout, xa, b, yb);
                if xa != x {
                    lemma_connected_symm(layout, xa, yb);
                }
            } else {
                // a merged set and an untouched one keep different roots
                if merged(x) {
                    assert(after.root(x) == after.root(a));
                    assert(after.root(y) == self.root(y));
                    lemma_root_of(self.parent@, self.size@, self.root(y));
                } else {
                    assert(after.root(y) == after.root(a));
                    assert(after.root(x) == self.root(x));
                }
            }
        }
    }

    /// Sets closed under every connecting edge hold every connected pair.
    proof fn lemma_closed_complete(self, layout: Layout)
        requires
            self.sound(layout),
            layout.well_formed(),
            forall|x: int, t: int|
                0 <= x < layout.cells() && 0 <= t < layout.adjacency@[x]@.len() && #[trigger] layout.connects(x, t)
                    ==> self.root(x) == self.root(layout.adjacency@[x]@[t] as int),
        ensures
            self.represents(layout),
    {
        assert forall|x: int, y: int|
            0 <= x < layout.cells() && 0 <= y < layout.cells() && #[trigger] layout.connected(x, y) implies self.root(x)
                == self.root(y) by {
            let p = choose|p: Seq<int>| #[trigger] layout.walk(p) && p[0] == x && p.last() == y;
            self.lemma_walk_same_root(layout, p, p.len() - 1);
        }
    }

    proof fn lemma_walk_same_root(self, layout: Layout, p: Seq<int>, k: int)
        requires
            layout.well_formed(),
            self.parent@.len() == layout.cells(),
            forall|x: int, t: int|
                0 <= x < layout.cells() && 0 <= t < layout.adjacency@[x]@.len() && #[trigger] layout.connects(x, t)
                    ==> self.root(x) == self.root(layout.adjacency@[x]@[t] as int),
            layout.walk(p),
            0 <= k < p.len(),
        ensures
            self.root(p[k]) == self.root(p[0]),
        decreases k,
    {
        if k > 0 {
            self.lemma_walk_same_root(layout, p, k - 1);
            let u = p[k - 1];
            let v = p[k];
            assert(layout.link(u, v));
            if exists|t: int| 0 <= t < layout.adjacency@[u]@.len() && layout.adjacency@[u]@[t] as int == v && #[trigger] layout.connects(u, t) {
                let t = choose|t: int| 0 <= t < layout.adjacency@[u]@.len() && layout.adjacency@[u]@[t] as int == v && #[trigger] layout.connects(u, t);
                assert(layout.connects(u, t));
            } else {
                let t = choose|t: int| 0 <= t < layout.adjacency@[v]@.len() && layout.adjacency@[v]@[t] as int == u && #[trigger] layout.connects(v, t);
                assert(layout.connects(v, t));
            }
        }
    }
}

/// Hanging the smaller of the roots of `a` and `b` under the larger merges
/// exactly their two sets, under the larger root.
proof fn lemma_merge(p1: Seq<u32>, s1: Seq<u32>, a: int, b: int, small: int, big: int)
    requires
        forest_ok(p1, s1),
        0 <= a < p1.len(),
        0 <= b < p1.len(),
        root_of(p1, s1, a) != root_of(p1, s1, b),
        (small == root_of(p1, s1, a) && big == root_of(p1, s1, b)) || (small == root_of(p1, s1, b) && big == root_of(
            p1,
            s1,
            a,
        )),
        s1[small] <= s1[big],
    ensures
        s1[big] + s1[small] <= p1.len(),
        forest_ok(p1.update(small, big as u32), s1.update(big, (s1[big] + s1[small]) as u32)),
        root_of(p1.update(small, big as u32), s1.update(big, (s1[big] + s1[small]) as u32), a) == big,
        forall|y: int|
            0 <= y < p1.len() ==> #[trigger] root_of(p1.update(small, big as u32), s1.update(big, (s1[big] + s1[small]) as u32), y)
                == if root_of(p1, s1, y) == root_of(p1, s1, a) || root_of(p1, s1, y) == root_of(p1, s1, b) {
                big
            } else {
                root_of(p1, s1, y)
            },
{
    lemma_root_of(p1, s1, a);
    lemma_root_of(p1, s1, b);
    lemma_link_ok(p1, s1, small, big);
    let p2 = p1.update(small, big as u32);
    let s2 = s1.update(big, (s1[big] + s1[small]) as u32);
    assert(root_of(p2, s2, a) == big);
    assert forall|y: int| 0 <= y < p1.len() implies #[trigger] root_of(p2, s2, y) == if root_of(p1, s1, y) == root_of(p1, s1, a)
        || root_of(p1, s1, y) == root_of(p1, s1, b) {
        big
    } else {
        root_of(p1, s1, y)
    } by {
        lemma_root_of(p1, s1, y);
    }
}

} // verus!
