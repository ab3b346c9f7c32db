//! A union-find forest with union by size and path compression, as plain
//! sequences: `parent[x]` is `x`'s parent (a root is its own), and `size[r]`
//! at a root is the number of nodes in its tree.

use vstd::prelude::*;
use crate::go_engine::graph::{count_upto, lemma_count_bound, lemma_count_ext, lemma_count_extend};

verus! {

/// Parents are nodes, sizes are between one and the node count, and a
/// non-root is smaller than its parent.
pub open spec fn sized(parent: Seq<u32>, size: Seq<u32>) -> bool {
    &&& parent.len() == size.len()
    &&& parent.len() < 0x1_0000_0000
    &&& forall|x: int| 0 <= x < parent.len() ==> (#[trigger] parent[x]) < parent.len()
    &&& forall|x: int| 0 <= x < parent.len() ==> 1 <= #[trigger] size[x] <= parent.len()
    &&& forall|x: int| 0 <= x < parent.len() && parent[x] as int != x ==> size[x] < size[#[trigger] parent[x] as int]
}

/// The root of `x`'s tree.
pub open spec fn root_of(parent: Seq<u32>, size: Seq<u32>, x: int) -> int
    decreases parent.len() - size[x],
    when sized(parent, size) && 0 <= x < parent.len()
{
    if parent[x] as int == x {
        x
    } else {
        root_of(parent, size, parent[x] as int)
    }
}

/// Number of nodes whose root is `r`.
pub open spec fn class_size(parent: Seq<u32>, size: Seq<u32>, r: int) -> nat {
    count_upto(|y: int| root_of(parent, size, y) == r, parent.len() as int)
}

/// Every root records the size of its tree.
pub closed spec fn sizes_recorded(parent: Seq<u32>, size: Seq<u32>) -> bool {
    forall|r: int| 0 <= r < parent.len() && parent[r] as int == r ==> #[trigger] size[r] as int == class_size(parent, size, r)
}

/// A well-formed forest whose roots record their trees' sizes.
pub open spec fn forest_ok(parent: Seq<u32>, size: Seq<u32>) -> bool {
    &&& sized(parent, size)
    &&& sizes_recorded(parent, size)
}

/// A predicate that holds at exactly one point in range counts one.
proof fn lemma_count_one(f: spec_fn(int) -> bool, r: int, n: int)
    requires
        0 <= r < n,
        forall|i: int| #![trigger f(i)] 0 <= i < n ==> f(i) == (i == r),
    ensures
        count_upto(f, n) == 1,
    decreases n,
{
    if n - 1 == r {
        lemma_count_extend(f, 0, r);
    } else {
        lemma_count_one(f, r, n - 1);
    }
}

/// Every node its own root, of size one, is a forest of singletons.
pub proof fn lemma_singleton_forest(parent: Seq<u32>, size: Seq<u32>)
    requires
        parent.len() == size.len(),
        parent.len() < 0x1_0000_0000,
        forall|x: int| 0 <= x < parent.len() ==> (#[trigger] parent[x]) as int == x && size[x] == 1,
    ensures
        forest_ok(parent, size),
        forall|x: int| 0 <= x < parent.len() ==> #[trigger] root_of(parent, size, x) == x,
{
    let n = parent.len() as int;
    assert forall|x: int| 0 <= x < n implies (#[trigger] parent[x]) < parent.len() by {
        assert(parent[x] as int == x);
    }
    assert forall|x: int| 0 <= x < n implies 1 <= #[trigger] size[x] <= parent.len() by {
        assert(parent[x] as int == x);
    }
    assert forall|x: int| 0 <= x < n && parent[x] as int != x implies size[x] < size[#[trigger] parent[x] as int] by {
        assert(parent[x] as int == x);
    }
    assert(sized(parent, size));
    assert forall|x: int| 0 <= x < n implies #[trigger] root_of(parent, size, x) == x by {
        assert(parent[x] as int == x);
    }
    assert forall|r: int| 0 <= r < n && parent[r] as int == r implies #[trigger] size[r] as int == class_size(parent, size, r) by {
        let f = |y: int| root_of(parent, size, y) == r;
        assert forall|i: int| 0 <= i < n implies #[trigger] f(i) == (i == r) by {
            assert(root_of(parent, size, i) == i);
        }
        lemma_count_one(f, r, n);
        assert(size[r] == 1);
        assert(class_size(parent, size, r) == count_upto(f, n));
    }
}

/// A root is a node whose parent is itself, reached from every node, and
/// no smaller than the node it is reached from.
pub proof fn lemma_root_of(parent: Seq<u32>, size: Seq<u32>, x: int)
    requires
        sized(parent, size),
        0 <= x < parent.len(),
    ensures
        0 <= root_of(parent, size, x) < parent.len(),
        parent[root_of(parent, size, x)] as int == root_of(parent, size, x),
        root_of(parent, size, root_of(parent, size, x)) == root_of(parent, size, x),
        size[x] <= size[root_of(parent, size, x)],
        parent[x] as int != x ==> size[x] < size[root_of(parent, size, x)],
        root_of(parent, size, parent[x] as int) == root_of(parent, size, x),
    decreases parent.len() - size[x],
{
    if parent[x] as int != x {
        lemma_root_of(parent, size, parent[x] as int);
    }
}

/// Pointing `x` straight at its root changes no node's root.
pub proof fn lemma_compress(parent: Seq<u32>, size: Seq<u32>, x: int, y: int)
    requires
        sized(parent, size),
        0 <= x < parent.len(),
        0 <= y < parent.len(),
    ensures
        sized(parent.update(x, root_of(parent, size, x) as u32), size),
        root_of(parent.update(x, root_of(parent, size, x) as u32), size, y) == root_of(parent, size, y),
    decreases parent.len() - size[y],
{
    let r = root_of(parent, size, x);
    lemma_root_of(parent, size, x);
    let p2 = parent.update(x, r as u32);
    assert(sized(p2, size)) by {
        assert forall|z: int| 0 <= z < p2.len() && p2[z] as int != z implies size[z] < size[#[trigger] p2[z] as int] by {
            if z == x {
            } else {
                assert(p2[z] == parent[z]);
            }
        }
    }
    lemma_root_of(parent, size, y);
    if y == x {
        if r != x {
            assert(p2[r] == parent[r]);
            assert(root_of(p2, size, r) == r);
        }
    } else if parent[y] as int != y {
        assert(p2[y] == parent[y]);
        lemma_compress(parent, size, x, parent[y] as int);
    } else {
        assert(p2[y] == parent[y]);
    }
}

/// Pointing `x` at its root keeps the recorded sizes right.
pub proof fn lemma_compress_ok(parent: Seq<u32>, size: Seq<u32>, x: int)
    requires
        forest_ok(parent, size),
        0 <= x < parent.len(),
    ensures
        forest_ok(parent.update(x, root_of(parent, size, x) as u32), size),
        forall|y: int| 0 <= y < parent.len() ==> #[trigger] root_of(parent.update(x, root_of(parent, size, x) as u32), size, y)
            == root_of(parent, size, y),
{
    let p2 = parent.update(x, root_of(parent, size, x) as u32);
    lemma_compress(parent, size, x, 0);
    assert forall|y: int| 0 <= y < parent.len() implies #[trigger] root_of(p2, size, y) == root_of(parent, size, y) by {
        lemma_compress(parent, size, x, y);
    }
    assert forall|r: int| 0 <= r < p2.len() && p2[r] as int == r implies #[trigger] size[r] as int == class_size(p2, size, r) by {
        lemma_root_of(parent, size, x);
        if r == x {
            assert(parent[x] as int == x);
        } else {
            assert(parent[r] == p2[r]);
        }
        lemma_count_ext(|y: int| root_of(p2, size, y) == r, |y: int| root_of(parent, size, y) == r, parent.len() as int);
    }
}

/// Hanging root `small` under root `big` (whose size grows by `small`'s)
/// sends `small`'s tree to `big` and keeps every other root.
pub proof fn lemma_link(parent: Seq<u32>, size: Seq<u32>, small: int, big: int, y: int)
    requires
        forest_ok(parent, size),
        0 <= small < parent.len(),
        0 <= big < parent.len(),
        small != big,
        parent[small] as int == small,
        parent[big] as int == big,
        size[small] <= size[big],
        size[big] + size[small] <= parent.len(),
        0 <= y < parent.len(),
    ensures
        sized(parent.update(small, big as u32), size.update(big, (size[big] + size[small]) as u32)),
        root_of(parent.update(small, big as u32), size.update(big, (size[big] + size[small]) as u32), y) == if root_of(
            parent,
            size,
            y,
        ) == small {
            big
        } else {
            root_of(parent, size, y)
        },
    decreases parent.len() - size[y],
{
    let p2 = parent.update(small, big as u32);
    let s2 = size.update(big, (size[big] + size[small]) as u32);
    assert(sized(p2, s2)) by {
        assert forall|z: int| 0 <= z < p2.len() && p2[z] as int != z implies s2[z] < s2[#[trigger] p2[z] as int] by {
            if z == small {
            } else {
                assert(p2[z] == parent[z]);
                assert(z != big);
            }
        }
        assert forall|z: int| 0 <= z < p2.len() implies 1 <= #[trigger] s2[z] <= p2.len() by {}
    }
    lemma_root_of(parent, size, y);
    if parent[y] as int == y {
        if y == small {
            assert(p2[big] as int == big);
            assert(root_of(p2, s2, big) == big);
        } else {
            assert(p2[y] == parent[y]);
        }
    } else {
        assert(y != small);
        assert(p2[y] == parent[y]);
        lemma_link(parent, size, small, big, parent[y] as int);
    }
}

/// Two disjoint counts add up.
pub proof fn lemma_count_union(f: spec_fn(int) -> bool, g: spec_fn(int) -> bool, h: spec_fn(int) -> bool, n: int)
    requires
        forall|i: int| #![trigger h(i)] 0 <= i < n ==> h(i) == (f(i) || g(i)),
        forall|i: int| #![trigger f(i), g(i)] 0 <= i < n ==> !(f(i) && g(i)),
    ensures
        count_upto(h, n) == count_upto(f, n) + count_upto(g, n),
    decreases n,
{
    if n > 0 {
        lemma_count_union(f, g, h, n - 1);
        assert(h(n - 1) == (f(n - 1) || g(n - 1)));
        assert(!(f(n - 1) && g(n - 1)));
    }
}

/// Linking keeps the recorded sizes right.
pub proof fn lemma_link_ok(parent: Seq<u32>, size: Seq<u32>, small: int, big: int)
    requires
        forest_ok(parent, size),
        0 <= small < parent.len(),
        0 <= big < parent.len(),
        small != big,
        parent[small] as int == small,
        parent[big] as int == big,
        size[small] <= size[big],
    ensures
        size[big] + size[small] <= parent.len(),
        forest_ok(parent.update(small, big as u32), size.update(big, (size[big] + size[small]) as u32)),
        forall|y: int| 0 <= y < parent.len() ==> #[trigger] root_of(parent.update(small, big as u32), size.update(big, (size[big] + size[small]) as u32), y)
            == if root_of(parent, size, y) == small {
            big
        } else {
            root_of(parent, size, y)
        },
{
    let n = parent.len() as int;
    let fs = |y: int| root_of(parent, size, y) == small;
    let fb = |y: int| root_of(parent, size, y) == big;
    let both = |y: int| root_of(parent, size, y) == small || root_of(parent, size, y) == big;
    lemma_count_union(fs, fb, both, n);
    lemma_count_bound(both, n);
    assert(size[small] as int == class_size(parent, size, small));
    assert(size[big] as int == class_size(parent, size, big));
    let p2 = parent.update(small, big as u32);
    let s2 = size.update(big, (size[big] + size[small]) as u32);
    lemma_link(parent, size, small, big, 0);
    assert forall|y: int| 0 <= y < n implies #[trigger] root_of(p2, s2, y) == if root_of(parent, size, y) == small {
        big
    } else {
        root_of(parent, size, y)
    } by {
        lemma_link(parent, size, small, big, y);
    }
    assert forall|r: int| 0 <= r < p2.len() && p2[r] as int == r implies #[trigger] s2[r] as int == class_size(p2, s2, r) by {
        if r == big {
            lemma_count_ext(|y: int| root_of(p2, s2, y) == r, both, n);
        } else {
            assert(r != small);
            assert(parent[r] as int == r);
            assert(s2[r] == size[r]);
            lemma_count_ext(|y: int| root_of(p2, s2, y) == r, |y: int| root_of(parent, size, y) == r, n);
        }
    }
}

} // verus!
