//! No group without a liberty survives a move: a board on which every
//! stone's group has a liberty keeps that property through every legal
//! placement and its captures.

use vstd::prelude::*;
use crate::bigbitboard::BigBitBoard;
use crate::go_engine::{captured_via, captures, empty_cell, frees, is_liberty, liberty_count, move_legal, opp_stones, own_stones, touches};
use crate::go_engine::graph::{
    adjacent, count_upto, lemma_count_drop, lemma_count_ext, lemma_count_positive, lemma_count_witness, lemma_linked_ends,
    lemma_linked_keep, lemma_linked_refl, lemma_linked_step, lemma_linked_symm, lemma_linked_trans, lemma_nbr, linked, nbr,
    on, opposite,
};

verus! {

/// The stones of the colour on cell `c`.
pub open spec fn stone_board<const N: usize, const WORDS: usize>(
    black: BigBitBoard<N, N, WORDS>,
    white: BigBitBoard<N, N, WORDS>,
    c: int,
) -> BigBitBoard<N, N, WORDS> {
    if black.has(c) {
        black
    } else {
        white
    }
}

/// Every stone on the board belongs to a group with at least one liberty.
pub open spec fn groups_breathe<const N: usize, const WORDS: usize>(
    black: BigBitBoard<N, N, WORDS>,
    white: BigBitBoard<N, N, WORDS>,
) -> bool {
    forall|c: int|
        0 <= c < N * N && (black.has(c) || white.has(c)) ==> #[trigger] liberty_count(
            black,
            white,
            stone_board(black, white, c),
            c,
        ) > 0
}

/// A group with liberties has a liberty on the board.
proof fn lemma_some_liberty<const N: usize, const WORDS: usize>(
    black: BigBitBoard<N, N, WORDS>,
    white: BigBitBoard<N, N, WORDS>,
    own: BigBitBoard<N, N, WORDS>,
    x: int,
) -> (l: int)
    requires
        liberty_count(black, white, own, x) > 0,
    ensures
        0 <= l < N * N,
        is_liberty(black, white, own, x, l),
{
    let f = |c: int| is_liberty(black, white, own, x, c);
    lemma_count_positive(f, (N * N) as int);
    let l = choose|i: int| 0 <= i < N * N && #[trigger] f(i);
    l
}

/// A group with two or more liberties has one besides `idx`.
proof fn lemma_other_liberty<const N: usize, const WORDS: usize>(
    black: BigBitBoard<N, N, WORDS>,
    white: BigBitBoard<N, N, WORDS>,
    own: BigBitBoard<N, N, WORDS>,
    x: int,
    idx: int,
) -> (l: int)
    requires
        liberty_count(black, white, own, x) >= 2,
    ensures
        0 <= l < N * N,
        l != idx,
        is_liberty(black, white, own, x, l),
{
    let n = (N * N) as int;
    let f = |c: int| is_liberty(black, white, own, x, c);
    if 0 <= idx < n && f(idx) {
        let g = |c: int| f(c) && c != idx;
        lemma_count_drop(f, g, n, idx);
        lemma_count_positive(g, n);
        let l = choose|i: int| 0 <= i < n && #[trigger] g(i);
        l
    } else {
        lemma_count_positive(f, n);
        let l = choose|i: int| 0 <= i < n && #[trigger] f(i);
        l
    }
}

/// A liberty is reached from a stone of the group next to it.
proof fn lemma_touch_witness<const N: usize, const WORDS: usize>(own: BigBitBoard<N, N, WORDS>, x: int, l: int) -> (k: int)
    requires
        touches(own, x, l),
    ensures
        0 <= k < 4,
        nbr(N as int, l, k) >= 0,
        linked(own, x, nbr(N as int, l, k)),
{
    if nbr(N as int, l, 0) >= 0 && linked(own, x, nbr(N as int, l, 0)) {
        0
    } else if nbr(N as int, l, 1) >= 0 && linked(own, x, nbr(N as int, l, 1)) {
        1
    } else if nbr(N as int, l, 2) >= 0 && linked(own, x, nbr(N as int, l, 2)) {
        2
    } else {
        3
    }
}

/// A stone linked to `x` next to `l` makes `l` touch `x`'s group.
proof fn lemma_touch_from<const N: usize, const WORDS: usize>(own: BigBitBoard<N, N, WORDS>, x: int, l: int, k: int)
    requires
        0 <= k < 4,
        nbr(N as int, l, k) >= 0,
        linked(own, x, nbr(N as int, l, k)),
    ensures
        touches(own, x, l),
{
}

/// Stones of one group have the same liberties, so the same count.
pub proof fn lemma_count_same_group<const N: usize, const WORDS: usize>(
    black: BigBitBoard<N, N, WORDS>,
    white: BigBitBoard<N, N, WORDS>,
    own: BigBitBoard<N, N, WORDS>,
    x: int,
    y: int,
)
    requires
        N >= 1,
        linked(own, x, y),
    ensures
        liberty_count(black, white, own, x) == liberty_count(black, white, own, y),
{
    let f = |c: int| is_liberty(black, white, own, x, c);
    let g = |c: int| is_liberty(black, white, own, y, c);
    lemma_linked_symm(own, x, y);
    assert forall|c: int| #![trigger f(c)] #![trigger g(c)] 0 <= c < N * N implies f(c) == g(c) by {
        if f(c) {
            let k = lemma_touch_witness(own, x, c);
            lemma_linked_trans(own, y, x, nbr(N as int, c, k));
            lemma_touch_from(own, y, c, k);
        }
        if g(c) {
            let k = lemma_touch_witness(own, y, c);
            lemma_linked_trans(own, x, y, nbr(N as int, c, k));
            lemma_touch_from(own, x, c, k);
        }
    }
    lemma_count_ext(f, g, (N * N) as int);
}

/// `a` and `b` are orthogonal neighbours through direction `k` of `a`.
proof fn lemma_step_back(a: int, k: int, n: int)
    requires
        n >= 1,
        0 <= a < n * n,
        0 <= k < 4,
        nbr(n, a, k) >= 0,
    ensures
        adjacent(n, a, nbr(n, a, k)),
        adjacent(n, nbr(n, a, k), a),
        nbr(n, a, k) != a,
        0 <= nbr(n, a, k) < n * n,
        nbr(n, nbr(n, a, k), opposite(k)) == a,
        0 <= opposite(k) < 4,
{
    lemma_nbr(n, a, k);
    lemma_nbr(n, nbr(n, a, k), opposite(k));
}

/// The boards after a placement on `index` for the side to move, with the
/// captured stones taken off.
pub open spec fn placed_boards<const N: usize, const WORDS: usize>(
    black: BigBitBoard<N, N, WORDS>,
    white: BigBitBoard<N, N, WORDS>,
    black_to_move: bool,
    index: int,
    own2: BigBitBoard<N, N, WORDS>,
    opp2: BigBitBoard<N, N, WORDS>,
) -> bool {
    forall|x: int|
        0 <= x < N * N ==> (#[trigger] own2.has(x) == (own_stones(black, white, black_to_move).has(x) || x == index))
            && opp2.has(x) == (opp_stones(black, white, black_to_move).has(x) && !captures(
            black,
            white,
            black_to_move,
            index,
            x,
        ))
}

/// After a legal placement, every stone's group still has a liberty,
/// whenever every group had one before.
pub proof fn lemma_placement_keeps_liberties<const N: usize, const WORDS: usize>(
    black: BigBitBoard<N, N, WORDS>,
    white: BigBitBoard<N, N, WORDS>,
    black_to_move: bool,
    index: int,
    black2: BigBitBoard<N, N, WORDS>,
    white2: BigBitBoard<N, N, WORDS>,
)
    requires
        N >= 1,
        forall|i: int| 0 <= i < N * N ==> !(#[trigger] black.has(i) && white.has(i)),
        empty_cell(black, white, index),
        move_legal(black, white, black_to_move, index),
        placed_boards(
            black,
            white,
            black_to_move,
            index,
            own_stones(black2, white2, black_to_move),
            opp_stones(black2, white2, black_to_move),
        ),
        groups_breathe(black, white),
    ensures
        groups_breathe(black2, white2),
{
    let own = own_stones(black, white, black_to_move);
    let opp = opp_stones(black, white, black_to_move);
    let own2 = own_stones(black2, white2, black_to_move);
    let opp2 = opp_stones(black2, white2, black_to_move);
    let n = N as int;
    // A cell empty before and other than `index` is empty after.
    assert forall|l: int| 0 <= l < N * N && l != index && empty_cell(black, white, l) implies #[trigger] empty_cell(
        black2,
        white2,
        l,
    ) by {
        assert(own2.has(l) == (own.has(l) || l == index));
    }
    assert forall|c: int| 0 <= c < N * N && (black2.has(c) || white2.has(c)) implies #[trigger] liberty_count(
        black2,
        white2,
        stone_board(black2, white2, c),
        c,
    ) > 0 by {
        let b = if black2.has(c) {
            black2
        } else {
            white2
        };
        assert(own2.has(c) == (own.has(c) || c == index));
        if opp2.has(c) {
            assert(b == opp2);
            // A surviving opposing group: it had a liberty besides `index`.
            assert(on(opp, c) && !captures(black, white, black_to_move, index, c));
            assert(stone_board(black, white, c) == opp);
            let l0 = lemma_some_liberty(black, white, opp, c);
            let l = if l0 == index {
                if liberty_count(black, white, opp, c) == 1 {
                    let k = lemma_touch_witness(opp, c, l0);
                    let s = nbr(n, l0, k);
                    lemma_linked_ends(opp, c, s);
                    lemma_count_same_group(black, white, opp, c, s);
                    lemma_linked_symm(opp, c, s);
                    assert(captured_via(black, white, black_to_move, index, k, c));
                    assert(false);
                    l0
                } else {
                    lemma_other_liberty(black, white, opp, c, index)
                }
            } else {
                l0
            };
            assert(l != index && is_liberty(black, white, opp, c, l));
            let k = lemma_touch_witness(opp, c, l);
            let s = nbr(n, l, k);
            assert forall|i: int| #[trigger] on(opp, i) && linked(opp, c, i) implies on(opp2, i) by {
                assert(own2.has(i) == (own.has(i) || i == index));
                if captures(black, white, black_to_move, index, i) {
                    let kk = if captured_via(black, white, black_to_move, index, 0, i) {
                        0int
                    } else if captured_via(black, white, black_to_move, index, 1, i) {
                        1int
                    } else if captured_via(black, white, black_to_move, index, 2, i) {
                        2int
                    } else {
                        3int
                    };
                    let nb = nbr(n, index, kk);
                    lemma_linked_symm(opp, c, i);
                    lemma_linked_trans(opp, nb, i, c);
                    assert(captured_via(black, white, black_to_move, index, kk, c));
                }
            }
            lemma_linked_keep(opp, opp2, c, s);
            lemma_touch_from(opp2, c, l, k);
            assert(is_liberty(black2, white2, opp2, c, l));
            lemma_count_witness(|x: int| is_liberty(black2, white2, opp2, c, x), (N * N) as int, l);
        } else {
            assert(b == own2);
            assert(own2.has(c));
            lemma_linked_refl(own2, index);
            if linked(own2, c, index) {
                // The group of the new stone: the move was legal.
                let k = if frees(black, white, black_to_move, index, 0) {
                    0int
                } else if frees(black, white, black_to_move, index, 1) {
                    1int
                } else if frees(black, white, black_to_move, index, 2) {
                    2int
                } else {
                    3int
                };
                let nb = nbr(n, index, k);
                lemma_step_back(index, k, n);
                let back = opposite(k);
                if empty_cell(black, white, nb) {
                    lemma_touch_from(own2, c, nb, back);
                    assert(is_liberty(black2, white2, own2, c, nb));
                    lemma_count_witness(|x: int| is_liberty(black2, white2, own2, c, x), (N * N) as int, nb);
                } else if on(own, nb) && liberty_count(black, white, own, nb) > 1 {
                    let l = lemma_other_liberty(black, white, own, nb, index);
                    let kl = lemma_touch_witness(own, nb, l);
                    let s = nbr(n, l, kl);
                    assert forall|i: int| #[trigger] on(own, i) && linked(own, nb, i) implies on(own2, i) by {}
                    lemma_linked_keep(own, own2, nb, s);
                    lemma_linked_step(own2, c, index, nb);
                    lemma_linked_trans(own2, c, nb, s);
                    lemma_touch_from(own2, c, l, kl);
                    assert(is_liberty(black2, white2, own2, c, l));
                    lemma_count_witness(|x: int| is_liberty(black2, white2, own2, c, x), (N * N) as int, l);
                } else {
                    assert(on(opp, nb) && liberty_count(black, white, opp, nb) == 1);
                    lemma_linked_refl(opp, nb);
                    assert(captured_via(black, white, black_to_move, index, k, nb));
                    assert(own2.has(nb) == (own.has(nb) || nb == index));
                    assert(!opp2.has(nb));
                    assert(!own.has(nb));
                    assert(empty_cell(black2, white2, nb));
                    lemma_touch_from(own2, c, nb, back);
                    assert(is_liberty(black2, white2, own2, c, nb));
                    lemma_count_witness(|x: int| is_liberty(black2, white2, own2, c, x), (N * N) as int, nb);
                }
            } else {
                // An untouched own group: it had a liberty other than `index`.
                assert(c != index);
                assert(on(own, c));
                assert(stone_board(black, white, c) == own);
                let l = lemma_some_liberty(black, white, own, c);
                let k = lemma_touch_witness(own, c, l);
                let s = nbr(n, l, k);
                assert forall|i: int| #[trigger] on(own, i) && linked(own, c, i) implies on(own2, i) by {}
                lemma_linked_keep(own, own2, c, s);
                if l == index {
                    lemma_step_back(l, k, n);
                    lemma_linked_step(own2, c, s, index);
                    assert(false);
                }
                lemma_touch_from(own2, c, l, k);
                assert(is_liberty(black2, white2, own2, c, l));
                lemma_count_witness(|x: int| is_liberty(black2, white2, own2, c, x), (N * N) as int, l);
            }
        }
    }
}

} // verus!

verus! {

/// `index` is the only liberty of the group of `x` on `own`.
pub open spec fn lone_liberty<const N: usize, const WORDS: usize>(
    black: BigBitBoard<N, N, WORDS>,
    white: BigBitBoard<N, N, WORDS>,
    own: BigBitBoard<N, N, WORDS>,
    x: int,
    index: int,
) -> bool {
    forall|l: int| 0 <= l < N * N && #[trigger] is_liberty(black, white, own, x, l) ==> l == index
}

/// The group of `x` on `own` has a liberty other than `index`.
pub open spec fn other_liberty<const N: usize, const WORDS: usize>(
    black: BigBitBoard<N, N, WORDS>,
    white: BigBitBoard<N, N, WORDS>,
    own: BigBitBoard<N, N, WORDS>,
    x: int,
    index: int,
) -> bool {
    exists|l: int| 0 <= l < N * N && l != index && #[trigger] is_liberty(black, white, own, x, l)
}

/// Stone `x` is in the opposing group next to `index` in direction `k`,
/// and that group's only liberty is `index`.
pub open spec fn taken_through<const N: usize, const WORDS: usize>(
    black: BigBitBoard<N, N, WORDS>,
    white: BigBitBoard<N, N, WORDS>,
    black_to_move: bool,
    index: int,
    k: int,
    x: int,
) -> bool {
    let nb = nbr(N as int, index, k);
    let opp = opp_stones(black, white, black_to_move);
    &&& nb >= 0
    &&& on(opp, nb)
    &&& linked(opp, nb, x)
    &&& lone_liberty(black, white, opp, nb, index)
}

/// A stone on `index` is legal when it captures, has an empty neighbour,
/// or joins a neighbouring own group that has a liberty besides `index`.
pub open spec fn legal_by_neighbours<const N: usize, const WORDS: usize>(
    black: BigBitBoard<N, N, WORDS>,
    white: BigBitBoard<N, N, WORDS>,
    black_to_move: bool,
    index: int,
) -> bool {
    let own = own_stones(black, white, black_to_move);
    ||| exists|x: int| #[trigger] captures(black, white, black_to_move, index, x)
    ||| exists|k: int| 0 <= k < 4 && nbr(N as int, index, k) >= 0 && #[trigger] empty_cell(black, white, nbr(N as int, index, k))
    ||| exists|k: int|
        0 <= k < 4 && nbr(N as int, index, k) >= 0 && on(own, nbr(N as int, index, k)) && #[trigger] other_liberty(
            black,
            white,
            own,
            nbr(N as int, index, k),
            index,
        )
}

/// An empty `index` next to a stone is a liberty of that stone's group,
/// so the group's liberty count is one exactly when `index` is its only
/// liberty, and more than one exactly when it has another.
proof fn lemma_neighbour_counts<const N: usize, const WORDS: usize>(
    black: BigBitBoard<N, N, WORDS>,
    white: BigBitBoard<N, N, WORDS>,
    g: BigBitBoard<N, N, WORDS>,
    index: int,
    k: int,
)
    requires
        N >= 1,
        empty_cell(black, white, index),
        0 <= k < 4,
        nbr(N as int, index, k) >= 0,
        on(g, nbr(N as int, index, k)),
    ensures
        (liberty_count(black, white, g, nbr(N as int, index, k)) == 1) == lone_liberty(black, white, g, nbr(N as int, index, k), index),
        (liberty_count(black, white, g, nbr(N as int, index, k)) > 1) == other_liberty(black, white, g, nbr(N as int, index, k), index),
{
    let nb = nbr(N as int, index, k);
    let n = (N * N) as int;
    let f = |c: int| is_liberty(black, white, g, nb, c);
    lemma_linked_refl(g, nb);
    lemma_touch_from(g, nb, index, k);
    assert(f(index));
    lemma_count_witness(f, n, index);
    if liberty_count(black, white, g, nb) > 1 {
        let l = lemma_other_liberty(black, white, g, nb, index);
        assert(!lone_liberty(black, white, g, nb, index));
    }
    if other_liberty(black, white, g, nb, index) {
        let l = choose|l: int| 0 <= l < N * N && l != index && #[trigger] is_liberty(black, white, g, nb, l);
        assert(f(l));
    }
}

/// What a stone on an empty `index` captures is the union of the opposing
/// groups next to `index` whose only liberty is `index`, and the stone is
/// legal exactly when it captures, has an empty neighbour, or joins a
/// neighbouring own group with a liberty besides `index`.
pub proof fn lemma_check_in_neighbour_terms<const N: usize, const WORDS: usize>(
    black: BigBitBoard<N, N, WORDS>,
    white: BigBitBoard<N, N, WORDS>,
    black_to_move: bool,
    index: int,
)
    requires
        N >= 1,
        empty_cell(black, white, index),
    ensures
        forall|k: int, x: int|
            0 <= k < 4 ==> #[trigger] captured_via(black, white, black_to_move, index, k, x) == taken_through(
                black,
                white,
                black_to_move,
                index,
                k,
                x,
            ),
        move_legal(black, white, black_to_move, index) == legal_by_neighbours(black, white, black_to_move, index),
{
    let own = own_stones(black, white, black_to_move);
    let opp = opp_stones(black, white, black_to_move);
    assert forall|k: int, x: int| 0 <= k < 4 implies #[trigger] captured_via(black, white, black_to_move, index, k, x)
        == taken_through(black, white, black_to_move, index, k, x) by {
        let nb = nbr(N as int, index, k);
        if nb >= 0 && on(opp, nb) {
            lemma_neighbour_counts(black, white, opp, index, k);
        }
    }
    assert forall|k: int| 0 <= k < 4 implies #[trigger] frees(black, white, black_to_move, index, k) == (nbr(N as int, index, k) >= 0 && (
        empty_cell(black, white, nbr(N as int, index, k)) || (on(own, nbr(N as int, index, k)) && other_liberty(
            black,
            white,
            own,
            nbr(N as int, index, k),
            index,
        )) || captured_via(black, white, black_to_move, index, k, nbr(N as int, index, k)))) by {
        let nb = nbr(N as int, index, k);
        if nb >= 0 && on(own, nb) {
            lemma_neighbour_counts(black, white, own, index, k);
        }
        if nb >= 0 && on(opp, nb) {
            lemma_linked_refl(opp, nb);
        }
    }
    if move_legal(black, white, black_to_move, index) {
        let k = if frees(black, white, black_to_move, index, 0) {
            0int
        } else if frees(black, white, black_to_move, index, 1) {
            1int
        } else if frees(black, white, black_to_move, index, 2) {
            2int
        } else {
            3int
        };
        let nb = nbr(N as int, index, k);
        if captured_via(black, white, black_to_move, index, k, nb) {
            assert(captures(black, white, black_to_move, index, nb));
        }
    }
    if legal_by_neighbours(black, white, black_to_move, index) {
        if exists|x: int| #[trigger] captures(black, white, black_to_move, index, x) {
            let x = choose|x: int| #[trigger] captures(black, white, black_to_move, index, x);
            let k = if captured_via(black, white, black_to_move, index, 0, x) {
                0int
            } else if captured_via(black, white, black_to_move, index, 1, x) {
                1int
            } else if captured_via(black, white, black_to_move, index, 2, x) {
                2int
            } else {
                3int
            };
            let nb = nbr(N as int, index, k);
            lemma_linked_ends(opp, nb, x);
            lemma_linked_refl(opp, nb);
            assert(captured_via(black, white, black_to_move, index, k, nb));
            assert(frees(black, white, black_to_move, index, k));
        } else if exists|k: int| 0 <= k < 4 && nbr(N as int, index, k) >= 0 && #[trigger] empty_cell(black, white, nbr(N as int, index, k)) {
            let k = choose|k: int| 0 <= k < 4 && nbr(N as int, index, k) >= 0 && #[trigger] empty_cell(black, white, nbr(N as int, index, k));
            assert(frees(black, white, black_to_move, index, k));
        } else {
            let k = choose|k: int|
                0 <= k < 4 && nbr(N as int, index, k) >= 0 && on(own, nbr(N as int, index, k)) && #[trigger] other_liberty(
                    black,
                    white,
                    own,
                    nbr(N as int, index, k),
                    index,
                );
            assert(frees(black, white, black_to_move, index, k));
        }
    }
}

} // verus!
