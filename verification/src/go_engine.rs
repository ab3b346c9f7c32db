//! Go capture and liberty bookkeeping on an `N x N` board, kept up to date
//! move by move.
//!
//! Every group of stones keeps a representative cell (`group_rep`), a
//! circular list of its members (`chain_next`) and, at the representative,
//! its liberty count (`liberties`). [`GoEngine::check`] answers whether a
//! stone would be legal and what it would capture from the cached counts
//! of the at most four neighbouring groups; [`GoEngine::play`] does the
//! work proportional to the groups it touches.
//!
//! `CELLS` must be `N * N` and `WORDS` the bitboard word count for it.

pub mod graph;
pub mod alive;

use vstd::prelude::*;
use vstd::std_specs::cmp::PartialEqSpecImpl;
use crate::bigbitboard::{count_bits, BigBitBoard};
use self::graph::{
    adjacent, closed_labels, count_upto, gpath, lemma_adjacent_symm, lemma_closed_constant, lemma_count_bound,
    lemma_count_drop, lemma_count_ext, lemma_count_extend, lemma_count_witness, lemma_linked_ends, lemma_linked_keep,
    lemma_linked_refl, lemma_linked_step, lemma_linked_symm, lemma_linked_trans, lemma_nbr, linked, nbr, on,
    opposite,
};

verus! {

/// `group_rep` of an empty cell.
pub const SENTINEL: u16 = 65535;

/// A Go position with its groups, their member lists and liberty counts.
#[derive(Clone, Copy, Debug)]
pub struct GoEngine<const N: usize, const WORDS: usize, const CELLS: usize> {
    black: BigBitBoard<N, N, WORDS>,
    white: BigBitBoard<N, N, WORDS>,
    /// `black | white`, kept alongside so that `check` need not recompute it.
    occupied: BigBitBoard<N, N, WORDS>,
    /// The representative cell of each stone's group, [`SENTINEL`] on an
    /// empty cell.
    group_rep: [u16; CELLS],
    /// A circular list through each group's members; a lone stone points
    /// to itself. Meaningless on empty cells.
    chain_next: [u16; CELLS],
    /// At a representative, its group's liberty count; stale elsewhere.
    liberties: [u16; CELLS],
}

/// Cell `c` is on the board and empty.
pub open spec fn empty_cell<const N: usize, const WORDS: usize>(
    black: BigBitBoard<N, N, WORDS>,
    white: BigBitBoard<N, N, WORDS>,
    c: int,
) -> bool {
    0 <= c < N * N && !black.has(c) && !white.has(c)
}

/// Some neighbour of `c` is a stone in the group of `x` on `own`.
pub open spec fn touches<const N: usize, const WORDS: usize>(own: BigBitBoard<N, N, WORDS>, x: int, c: int) -> bool {
    ||| nbr(N as int, c, 0) >= 0 && linked(own, x, nbr(N as int, c, 0))
    ||| nbr(N as int, c, 1) >= 0 && linked(own, x, nbr(N as int, c, 1))
    ||| nbr(N as int, c, 2) >= 0 && linked(own, x, nbr(N as int, c, 2))
    ||| nbr(N as int, c, 3) >= 0 && linked(own, x, nbr(N as int, c, 3))
}

/// Cell `c` is a liberty of the group of `x` on `own`: an empty neighbour
/// of one of its stones.
pub open spec fn is_liberty<const N: usize, const WORDS: usize>(
    black: BigBitBoard<N, N, WORDS>,
    white: BigBitBoard<N, N, WORDS>,
    own: BigBitBoard<N, N, WORDS>,
    x: int,
    c: int,
) -> bool {
    empty_cell(black, white, c) && touches(own, x, c)
}

/// Number of liberties of the group of `x` on `own`.
pub open spec fn liberty_count<const N: usize, const WORDS: usize>(
    black: BigBitBoard<N, N, WORDS>,
    white: BigBitBoard<N, N, WORDS>,
    own: BigBitBoard<N, N, WORDS>,
    x: int,
) -> nat {
    count_upto(|c: int| is_liberty(black, white, own, x, c), N * N)
}

/// The stones of the player to move.
pub open spec fn own_stones<const N: usize, const WORDS: usize>(
    black: BigBitBoard<N, N, WORDS>,
    white: BigBitBoard<N, N, WORDS>,
    black_to_move: bool,
) -> BigBitBoard<N, N, WORDS> {
    if black_to_move {
        black
    } else {
        white
    }
}

/// The stones of the other player.
pub open spec fn opp_stones<const N: usize, const WORDS: usize>(
    black: BigBitBoard<N, N, WORDS>,
    white: BigBitBoard<N, N, WORDS>,
    black_to_move: bool,
) -> BigBitBoard<N, N, WORDS> {
    if black_to_move {
        white
    } else {
        black
    }
}

/// Neighbour `k` of `index` makes a stone there safe or capturing: it is
/// empty, or an own group with a liberty besides `index`, or an opposing
/// group whose last liberty is `index`.
pub open spec fn frees<const N: usize, const WORDS: usize>(
    black: BigBitBoard<N, N, WORDS>,
    white: BigBitBoard<N, N, WORDS>,
    black_to_move: bool,
    index: int,
    k: int,
) -> bool {
    let nb = nbr(N as int, index, k);
    let own = own_stones(black, white, black_to_move);
    let opp = opp_stones(black, white, black_to_move);
    &&& nb >= 0
    &&& {
        ||| empty_cell(black, white, nb)
        ||| on(own, nb) && liberty_count(black, white, own, nb) > 1
        ||| on(opp, nb) && liberty_count(black, white, opp, nb) == 1
    }
}

/// A stone at `index` is legal: it has a liberty, joins a group that keeps
/// another, or captures.
pub open spec fn move_legal<const N: usize, const WORDS: usize>(
    black: BigBitBoard<N, N, WORDS>,
    white: BigBitBoard<N, N, WORDS>,
    black_to_move: bool,
    index: int,
) -> bool {
    ||| frees(black, white, black_to_move, index, 0)
    ||| frees(black, white, black_to_move, index, 1)
    ||| frees(black, white, black_to_move, index, 2)
    ||| frees(black, white, black_to_move, index, 3)
}

/// Neighbour `k` of `index` is an opposing stone whose group `x` is in and
/// whose only liberty is `index`.
pub open spec fn captured_via<const N: usize, const WORDS: usize>(
    black: BigBitBoard<N, N, WORDS>,
    white: BigBitBoard<N, N, WORDS>,
    black_to_move: bool,
    index: int,
    k: int,
    x: int,
) -> bool {
    let nb = nbr(N as int, index, k);
    let opp = opp_stones(black, white, black_to_move);
    &&& nb >= 0
    &&& on(opp, nb)
    &&& liberty_count(black, white, opp, nb) == 1
    &&& linked(opp, nb, x)
}

/// A stone at `index` would capture the stone at `x`.
pub open spec fn captures<const N: usize, const WORDS: usize>(
    black: BigBitBoard<N, N, WORDS>,
    white: BigBitBoard<N, N, WORDS>,
    black_to_move: bool,
    index: int,
    x: int,
) -> bool {
    ||| captured_via(black, white, black_to_move, index, 0, x)
    ||| captured_via(black, white, black_to_move, index, 1, x)
    ||| captured_via(black, white, black_to_move, index, 2, x)
    ||| captured_via(black, white, black_to_move, index, 3, x)
}

/// Neighbour `k` of `index` keeps a stone there alive by itself: it is
/// empty, or an own group with a liberty besides `index`.
pub open spec fn safe_via<const N: usize, const WORDS: usize>(
    black: BigBitBoard<N, N, WORDS>,
    white: BigBitBoard<N, N, WORDS>,
    black_to_move: bool,
    index: int,
    k: int,
) -> bool {
    let nb = nbr(N as int, index, k);
    let own = own_stones(black, white, black_to_move);
    &&& nb >= 0
    &&& {
        ||| empty_cell(black, white, nb)
        ||| on(own, nb) && liberty_count(black, white, own, nb) > 1
    }
}

/// Cell `k` steps along the member list from `r`.
pub open spec fn walk(next: Seq<u16>, r: int, k: nat) -> int
    decreases k,
{
    if k == 0 {
        r
    } else {
        next[walk(next, r, (k - 1) as nat)] as int
    }
}

/// `c` is an empty cell next to a stone labelled `r` in `rep`.
pub open spec fn elib_of<const N: usize, const WORDS: usize, const CELLS: usize>(
    black: BigBitBoard<N, N, WORDS>,
    white: BigBitBoard<N, N, WORDS>,
    rep: Seq<u16>,
    r: int,
    c: int,
) -> bool {
    &&& 0 <= c < CELLS
    &&& !(black.has(c) || white.has(c))
    &&& {
        ||| nbr(N as int, c, 0) >= 0 && (0 <= nbr(N as int, c, 0) < CELLS && rep[nbr(N as int, c, 0)] as int == r)
        ||| nbr(N as int, c, 1) >= 0 && (0 <= nbr(N as int, c, 1) < CELLS && rep[nbr(N as int, c, 1)] as int == r)
        ||| nbr(N as int, c, 2) >= 0 && (0 <= nbr(N as int, c, 2) < CELLS && rep[nbr(N as int, c, 2)] as int == r)
        ||| nbr(N as int, c, 3) >= 0 && (0 <= nbr(N as int, c, 3) < CELLS && rep[nbr(N as int, c, 3)] as int == r)
    }
}

/// Number of empty cells next to a stone labelled `r` in `rep`.
pub open spec fn ecount_of<const N: usize, const WORDS: usize, const CELLS: usize>(
    black: BigBitBoard<N, N, WORDS>,
    white: BigBitBoard<N, N, WORDS>,
    rep: Seq<u16>,
    r: int,
) -> nat {
    count_upto(|c: int| elib_of::<N, WORDS, CELLS>(black, white, rep, r, c), CELLS as int)
}

impl<const N: usize, const WORDS: usize, const CELLS: usize> GoEngine<N, WORDS, CELLS> {
    /// The board geometry the engine needs: `CELLS == N * N`, cell indices
    /// below the sentinel, and a matching bitboard word count.
    pub open spec fn geometry() -> bool {
        &&& N >= 1
        &&& N * N == CELLS
        &&& CELLS < 65535
        &&& BigBitBoard::<N, N, WORDS>::dims_ok()
    }

    /// Black stones.
    pub closed spec fn black_stones(&self) -> BigBitBoard<N, N, WORDS> {
        self.black
    }

    /// White stones.
    pub closed spec fn white_stones(&self) -> BigBitBoard<N, N, WORDS> {
        self.white
    }

    spec fn occ(&self, i: int) -> bool {
        self.black.has(i) || self.white.has(i)
    }

    spec fn rep_at(&self, i: int) -> int {
        self.group_rep@[i] as int
    }

    /// `x` is a member of the group represented by `r`.
    spec fn member(&self, r: int, x: int) -> bool {
        0 <= x < CELLS && self.group_rep@[x] as int == r
    }

    /// `r` represents a group.
    spec fn is_rep(&self, r: int) -> bool {
        0 <= r < CELLS && self.group_rep@[r] as int == r && r != SENTINEL
    }

    /// The member list from `r` returns to `r` after exactly `len` steps,
    /// visiting members of `r` only, and every member on the way.
    spec fn cycle(&self, r: int, len: nat) -> bool {
        &&& 1 <= len
        &&& walk(self.chain_next@, r, len) == r
        &&& forall|k: nat| 0 < k < len ==> #[trigger] walk(self.chain_next@, r, k) != r
        &&& forall|k: nat| k < len ==> self.member(r, #[trigger] walk(self.chain_next@, r, k))
        &&& forall|x: int| #[trigger] self.member(r, x) ==> exists|k: nat| k < len && #[trigger] walk(self.chain_next@, r, k) == x
    }

    /// `c` is an empty cell next to a member of `r`.
    spec fn elib(&self, r: int, c: int) -> bool {
        elib_of::<N, WORDS, CELLS>(self.black, self.white, self.group_rep@, r, c)
    }

    /// Liberty count of the group represented by `r`, from the tables.
    spec fn ecount(&self, r: int) -> nat {
        ecount_of::<N, WORDS, CELLS>(self.black, self.white, self.group_rep@, r)
    }

    /// The occupancy boards agree with each other and leave the padding
    /// past the last cell clear.
    spec fn boards_ok(&self) -> bool {
        &&& Self::geometry()
        &&& forall|i: int| 0 <= i < BigBitBoard::<N, N, WORDS>::capacity() ==> (#[trigger] self.occupied.has(i)
            <==> (self.black.has(i) || self.white.has(i)))
        &&& forall|i: int| 0 <= i < BigBitBoard::<N, N, WORDS>::capacity() ==> !(#[trigger] self.black.has(i)
            && self.white.has(i))
        &&& forall|i: int| CELLS <= i < BigBitBoard::<N, N, WORDS>::capacity() ==> !#[trigger] self.black.has(i)
        &&& forall|i: int| CELLS <= i < BigBitBoard::<N, N, WORDS>::capacity() ==> !#[trigger] self.white.has(i)
    }

    /// The tables partition the stones into groups, each with a
    /// same-coloured representative and a member list.
    spec fn partition_ok(&self) -> bool {
        &&& self.boards_ok()
        &&& forall|i: int| 0 <= i < CELLS ==> ((#[trigger] self.group_rep@[i] == SENTINEL) <==> !self.occ(i))
        &&& forall|i: int|
            0 <= i < CELLS && #[trigger] self.occ(i) ==> {
                let r = self.rep_at(i);
                &&& 0 <= r < CELLS
                &&& self.group_rep@[r] as int == r
                &&& self.black.has(r) == self.black.has(i)
            }
        &&& forall|r: int| #[trigger] self.is_rep(r) ==> exists|len: nat| self.cycle(r, len)
    }

    /// Groups are exactly the connected same-coloured stones.
    spec fn groups_ok(&self) -> bool {
        &&& closed_labels(self.black, self.group_rep@)
        &&& closed_labels(self.white, self.group_rep@)
        &&& forall|i: int|
            0 <= i < CELLS && #[trigger] self.occ(i) ==> linked(
                if self.black.has(i) {
                    self.black
                } else {
                    self.white
                },
                self.rep_at(i),
                i,
            )
    }

    /// Every representative holds its group's liberty count.
    spec fn counts_ok(&self) -> bool {
        forall|r: int| #[trigger] self.is_rep(r) ==> self.liberties@[r] as int == self.ecount(r)
    }

    /// The engine's invariant.
    pub closed spec fn inv(&self) -> bool {
        &&& self.partition_ok()
        &&& self.groups_ok()
        &&& self.counts_ok()
    }

    /// A consistent engine has a supported geometry, and its stones lie on
    /// the board and never share a cell.
    pub proof fn lemma_inv_boards(&self)
        requires
            self.inv(),
        ensures
            Self::geometry(),
            forall|i: int| 0 <= i < BigBitBoard::<N, N, WORDS>::capacity() ==> !(#[trigger] self.black_stones().has(i) && self.white_stones().has(i)),
            forall|i: int| CELLS <= i < BigBitBoard::<N, N, WORDS>::capacity() ==> !#[trigger] self.black_stones().has(i),
            forall|i: int| CELLS <= i < BigBitBoard::<N, N, WORDS>::capacity() ==> !#[trigger] self.white_stones().has(i),
    {
    }

    /// The stones after a legal placement keep a liberty in every group
    /// when the stones before did.
    proof fn lemma_play_breathes(&self, e0: Self, black_to_move: bool, i: int, captured: BigBitBoard<N, N, WORDS>)
        requires
            e0.inv(),
            empty_cell(e0.black_stones(), e0.white_stones(), i),
            move_legal(e0.black_stones(), e0.white_stones(), black_to_move, i),
            forall|x: int|
                0 <= x < BigBitBoard::<N, N, WORDS>::capacity() ==> #[trigger] self.black_stones().has(x) == if black_to_move {
                    e0.black_stones().has(x) || x == i
                } else {
                    e0.black_stones().has(x) && !captures(e0.black_stones(), e0.white_stones(), black_to_move, i, x)
                },
            forall|x: int|
                0 <= x < BigBitBoard::<N, N, WORDS>::capacity() ==> #[trigger] self.white_stones().has(x) == if black_to_move {
                    e0.white_stones().has(x) && !captures(e0.black_stones(), e0.white_stones(), black_to_move, i, x)
                } else {
                    e0.white_stones().has(x) || x == i
                },
        ensures
            crate::go_engine::alive::groups_breathe(e0.black_stones(), e0.white_stones())
                ==> crate::go_engine::alive::groups_breathe(self.black_stones(), self.white_stones()),
    {
        e0.lemma_inv_boards();
        if crate::go_engine::alive::groups_breathe(e0.black_stones(), e0.white_stones()) {
            assert(BigBitBoard::<N, N, WORDS>::capacity() >= N * N);
            assert forall|x: int| 0 <= x < N * N implies (#[trigger] own_stones(self.black_stones(), self.white_stones(), black_to_move).has(x)
                == (own_stones(e0.black_stones(), e0.white_stones(), black_to_move).has(x) || x == i))
                && own_stones(self.black_stones(), self.white_stones(), !black_to_move).has(x) == (opp_stones(e0.black_stones(), e0.white_stones(), black_to_move).has(x) && !captures(e0.black_stones(), e0.white_stones(), black_to_move, i, x)) by {
                assert(self.black_stones().has(x) == self.black_stones().has(x));
                assert(self.white_stones().has(x) == self.white_stones().has(x));
            }
            assert(opp_stones(self.black_stones(), self.white_stones(), black_to_move) == own_stones(self.black_stones(), self.white_stones(), !black_to_move));
            crate::go_engine::alive::lemma_placement_keeps_liberties(
                e0.black_stones(),
                e0.white_stones(),
                black_to_move,
                i,
                self.black_stones(),
                self.white_stones(),
            );
        }
    }
}

impl<const N: usize, const WORDS: usize, const CELLS: usize> GoEngine<N, WORDS, CELLS> {
    /// The stones of `x`'s colour.
    spec fn board_of(&self, x: int) -> BigBitBoard<N, N, WORDS> {
        if self.black.has(x) {
            self.black
        } else {
            self.white
        }
    }

    /// Membership in `x`'s group is being linked to `x`.
    proof fn lemma_member_iff(&self, x: int, m: int)
        requires
            self.partition_ok(),
            self.groups_ok(),
            0 <= x < CELLS,
            self.occ(x),
        ensures
            self.member(self.rep_at(x), m) <==> linked(self.board_of(x), x, m),
    {
        let r = self.rep_at(x);
        let b = self.board_of(x);
        if linked(b, x, m) {
            lemma_linked_ends(b, x, m);
            lemma_closed_constant(b, self.group_rep@, x, m);
        }
        if self.member(r, m) {
            assert(self.occ(m));
            assert(self.black.has(r) == self.black.has(x));
            assert(self.black.has(r) == self.black.has(m));
            assert(self.board_of(m) == b);
            assert(linked(b, r, m));
            assert(linked(b, r, x));
            lemma_linked_symm(b, r, x);
            lemma_linked_trans(b, x, r, m);
        }
    }

    /// The table count of a stone's group is its liberty count.
    proof fn lemma_ecount_is_liberties(&self, x: int)
        requires
            self.partition_ok(),
            self.groups_ok(),
            0 <= x < CELLS,
            self.occ(x),
        ensures
            self.ecount(self.rep_at(x)) == liberty_count(self.black, self.white, self.board_of(x), x),
    {
        let r = self.rep_at(x);
        let b = self.board_of(x);
        assert forall|c: int| 0 <= c < CELLS implies #[trigger] elib_of::<N, WORDS, CELLS>(self.black, self.white, self.group_rep@, r, c)
            == is_liberty(self.black, self.white, b, x, c) by {
            self.lemma_member_iff(x, nbr(N as int, c, 0));
            self.lemma_member_iff(x, nbr(N as int, c, 1));
            self.lemma_member_iff(x, nbr(N as int, c, 2));
            self.lemma_member_iff(x, nbr(N as int, c, 3));
        }
        lemma_count_ext(|c: int| elib_of::<N, WORDS, CELLS>(self.black, self.white, self.group_rep@, r, c), |c: int| is_liberty(self.black, self.white, b, x, c), CELLS as int);
    }

    /// The stored count of a stone's group is its liberty count.
    proof fn lemma_count_is_liberties(&self, x: int)
        requires
            self.inv(),
            0 <= x < CELLS,
            self.occ(x),
        ensures
            self.liberties@[self.rep_at(x)] as int == liberty_count(self.black, self.white, self.board_of(x), x),
            self.ecount(self.rep_at(x)) == liberty_count(self.black, self.white, self.board_of(x), x),
    {
        self.lemma_ecount_is_liberties(x);
        assert(self.is_rep(self.rep_at(x)));
    }
}

impl<const N: usize, const WORDS: usize, const CELLS: usize> GoEngine<N, WORDS, CELLS> {
    /// The empty board.
    pub fn new() -> (e: Self)
        ensures
            Self::geometry() ==> e.inv(),
            forall|i: int| 0 <= i < BigBitBoard::<N, N, WORDS>::capacity() ==> !#[trigger] e.black_stones().has(i),
            forall|i: int| 0 <= i < BigBitBoard::<N, N, WORDS>::capacity() ==> !#[trigger] e.white_stones().has(i),
            Self::geometry() ==> crate::go_engine::alive::groups_breathe(e.black_stones(), e.white_stones()),
    {
        let e = GoEngine {
            black: BigBitBoard::empty(),
            white: BigBitBoard::empty(),
            occupied: BigBitBoard::empty(),
            group_rep: [SENTINEL; CELLS],
            chain_next: [SENTINEL; CELLS],
            liberties: [0u16; CELLS],
        };
        assert forall|r: int| #[trigger] e.is_rep(r) implies exists|len: nat| e.cycle(r, len) by {
            assert(e.group_rep@[r] == SENTINEL);
        }
        assert(Self::geometry() ==> BigBitBoard::<N, N, WORDS>::capacity() >= N * N);
        e
    }

    /// Black stones.
    pub fn black(&self) -> (r: BigBitBoard<N, N, WORDS>)
        ensures
            r == self.black_stones(),
    {
        self.black
    }

    /// White stones.
    pub fn white(&self) -> (r: BigBitBoard<N, N, WORDS>)
        ensures
            r == self.white_stones(),
    {
        self.white
    }

    fn occupied(&self) -> (r: BigBitBoard<N, N, WORDS>)
        ensures
            r == self.occupied,
    {
        self.occupied
    }

    fn own_board(&self, black_to_move: bool) -> (r: BigBitBoard<N, N, WORDS>)
        ensures
            r == own_stones(self.black, self.white, black_to_move),
    {
        if black_to_move {
            self.black
        } else {
            self.white
        }
    }

    fn opp_board(&self, black_to_move: bool) -> (r: BigBitBoard<N, N, WORDS>)
        ensures
            r == opp_stones(self.black, self.white, black_to_move),
    {
        if black_to_move {
            self.white
        } else {
            self.black
        }
    }

    /// The representative of `cell`'s group, if it holds a stone.
    fn rep(&self, cell: usize) -> (r: Option<u16>)
        requires
            cell < CELLS,
        ensures
            r == if self.group_rep@[cell as int] == SENTINEL {
                None
            } else {
                Some(self.group_rep@[cell as int])
            },
    {
        let r = self.group_rep[cell];
        if r != SENTINEL {
            Some(r)
        } else {
            None
        }
    }

    /// The liberty count of the group on `cell`, or `None` if it is empty.
    pub fn liberties_at(&self, cell: usize) -> (r: Option<u32>)
        requires
            self.inv(),
            cell < CELLS,
        ensures
            r == if empty_cell(self.black_stones(), self.white_stones(), cell as int) {
                None::<u32>
            } else {
                Some(
                    liberty_count(
                        self.black_stones(),
                        self.white_stones(),
                        if self.black_stones().has(cell as int) {
                            self.black_stones()
                        } else {
                            self.white_stones()
                        },
                        cell as int,
                    ) as u32,
                )
            },
            crate::go_engine::alive::groups_breathe(self.black_stones(), self.white_stones()) ==> r != Some(0u32),
    {
        proof {
            self.lemma_inv_boards();
            let own = crate::go_engine::alive::stone_board(self.black_stones(), self.white_stones(), cell as int);
            assert(BigBitBoard::<N, N, WORDS>::capacity() >= N * N);
            lemma_count_bound(|c: int| is_liberty(self.black_stones(), self.white_stones(), own, cell as int, c), (N * N) as int);
            if crate::go_engine::alive::groups_breathe(self.black_stones(), self.white_stones()) && !empty_cell(
                self.black_stones(),
                self.white_stones(),
                cell as int,
            ) {
                assert(liberty_count(self.black_stones(), self.white_stones(), own, cell as int) > 0);
            }
        }
        match self.rep(cell) {
            Some(r) => {
                proof {
                    self.lemma_count_is_liberties(cell as int);
                }
                Some(self.liberties[r as usize] as u32)
            },
            None => None,
        }
    }

    /// The up to four neighbours of `index` (north, east, south, west).
    fn neighbors(index: usize) -> (r: [Option<usize>; 4])
        requires
            Self::geometry(),
            index < CELLS,
        ensures
            forall|k: int|
                0 <= k < 4 ==> #[trigger] r[k] == if nbr(N as int, index as int, k) >= 0 {
                    Some(nbr(N as int, index as int, k) as usize)
                } else {
                    None
                },
    {
        let (row, col) = BigBitBoard::<N, N, WORDS>::to_coord(index);
        let north = if row + 1 < N {
            Some(BigBitBoard::<N, N, WORDS>::to_index(row + 1, col))
        } else {
            None
        };
        let east = if col + 1 < N {
            Some(BigBitBoard::<N, N, WORDS>::to_index(row, col + 1))
        } else {
            None
        };
        let south = if row > 0 {
            Some(BigBitBoard::<N, N, WORDS>::to_index(row - 1, col))
        } else {
            None
        };
        let west = if col > 0 {
            Some(BigBitBoard::<N, N, WORDS>::to_index(row, col - 1))
        } else {
            None
        };
        [north, east, south, west]
    }
}

/// A bitboard's set-bit count is the count of its cells.
proof fn lemma_count_bits_upto<const N: usize, const WORDS: usize>(b: BigBitBoard<N, N, WORDS>, n: int)
    requires
        0 <= n,
    ensures
        count_bits(b@, n) == count_upto(|c: int| b.has(c), n),
    decreases n,
{
    if n > 0 {
        lemma_count_bits_upto(b, n - 1);
    }
}

impl<const N: usize, const WORDS: usize, const CELLS: usize> GoEngine<N, WORDS, CELLS> {
    /// A representative has a member list.
    proof fn lemma_rep_cycle(&self, r: int)
        requires
            self.partition_ok(),
            self.is_rep(r),
        ensures
            self.boards_ok(),
            exists|len: nat| self.cycle(r, len),
    {
    }

    /// The cells of the group represented by `rep`, by walking its list.
    fn group_cells(&self, rep: u16) -> (mask: BigBitBoard<N, N, WORDS>)
        requires
            self.partition_ok(),
            self.is_rep(rep as int),
        ensures
            forall|i: int|
                0 <= i < BigBitBoard::<N, N, WORDS>::capacity() ==> (#[trigger] mask.has(i) <==> self.member(
                    rep as int,
                    i,
                )),
    {
        let ghost r = rep as int;
        let ghost next = self.chain_next@;
        let ghost len = choose|len: nat| self.cycle(r, len);
        let mut mask = BigBitBoard::<N, N, WORDS>::empty();
        let mut cell = rep;
        let ghost mut k: nat = 0;
        loop
            invariant_except_break
                k < len,
                cell as int == walk(next, r, k),
            invariant
                self.partition_ok(),
                self.is_rep(r),
                self.cycle(r, len),
                next == self.chain_next@,
                r == rep as int,
                k <= len,
                forall|i: int|
                    0 <= i < BigBitBoard::<N, N, WORDS>::capacity() ==> (#[trigger] mask.has(i) <==> exists|j: nat|
                        j < k && #[trigger] walk(next, r, j) == i),
            ensures
                k == len,
            decreases len - k,
        {
            assert(self.member(r, walk(next, r, k)));
            let ghost before = mask;
            mask.set(cell as usize);
            proof {
                assert forall|i: int|
                    0 <= i < BigBitBoard::<N, N, WORDS>::capacity() implies (#[trigger] mask.has(i) <==> exists|j: nat|
                        j < k + 1 && #[trigger] walk(next, r, j) == i) by {
                    if mask.has(i) && i != cell as int {
                        assert(before.has(i));
                    }
                    if i == cell as int {
                        assert(walk(next, r, k) == i);
                    }
                    if exists|j: nat| j < k + 1 && #[trigger] walk(next, r, j) == i {
                        let j = choose|j: nat| j < k + 1 && #[trigger] walk(next, r, j) == i;
                        if j < k {
                            assert(before.has(i));
                        }
                    }
                }
            }
            cell = self.chain_next[cell as usize];
            proof {
                k = k + 1;
                assert(cell as int == walk(next, r, k));
            }
            if cell == rep {
                break;
            }
        }
        proof {
            assert forall|i: int|
                0 <= i < BigBitBoard::<N, N, WORDS>::capacity() implies (#[trigger] mask.has(i) <==> self.member(r, i)) by {
                if self.member(r, i) {
                    let j = choose|j: nat| j < len && #[trigger] walk(next, r, j) == i;
                    assert(walk(next, r, j) == i);
                }
                if mask.has(i) {
                    let j = choose|j: nat| j < k && #[trigger] walk(next, r, j) == i;
                    assert(self.member(r, walk(next, r, j)));
                }
            }
        }
        mask
    }

    /// Recount the liberties of the group represented by `rep` against the
    /// current board.
    fn rescan_liberties(&mut self, rep: u16)
        requires
            old(self).boards_ok(),
            old(self).is_rep(rep as int),
            exists|len: nat| old(self).cycle(rep as int, len),
        ensures
            final(self).black == old(self).black,
            final(self).white == old(self).white,
            final(self).occupied == old(self).occupied,
            final(self).group_rep == old(self).group_rep,
            final(self).chain_next == old(self).chain_next,
            final(self).liberties@ == old(self).liberties@.update(rep as int, old(self).ecount(rep as int) as u16),
    {
        let ghost r = rep as int;
        let ghost next = self.chain_next@;
        let ghost len = choose|len: nat| self.cycle(r, len);
        let occupied = self.occupied();
        let mut liberty_mask = BigBitBoard::<N, N, WORDS>::empty();
        let mut cell = rep;
        let ghost mut k: nat = 0;
        loop
            invariant_except_break
                k < len,
                cell as int == walk(next, r, k),
            invariant
                self.boards_ok(),
                self.is_rep(r),
                self.cycle(r, len),
                next == self.chain_next@,
                occupied == self.occupied,
                r == rep as int,
                k <= len,
                forall|c: int|
                    0 <= c < BigBitBoard::<N, N, WORDS>::capacity() ==> (#[trigger] liberty_mask.has(c) <==> (0 <= c
                        < CELLS && !self.occ(c) && exists|j: nat, d: int|
                        j < k && 0 <= d < 4 && #[trigger] nbr(N as int, walk(next, r, j), d) == c)),
            ensures
                k == len,
            decreases len - k,
        {
            assert(self.member(r, walk(next, r, k)));
            let nbs = Self::neighbors(cell as usize);
            let mut d: usize = 0;
            while d < 4
                invariant
                    self.boards_ok(),
                    occupied == self.occupied,
                    k < len,
                    cell as int == walk(next, r, k),
                    (cell as int) < CELLS,
                    d <= 4,
                    forall|t: int|
                        0 <= t < 4 ==> #[trigger] nbs[t] == if nbr(N as int, cell as int, t) >= 0 {
                            Some(nbr(N as int, cell as int, t) as usize)
                        } else {
                            None
                        },
                    forall|c: int|
                        0 <= c < BigBitBoard::<N, N, WORDS>::capacity() ==> (#[trigger] liberty_mask.has(c) <==> (0
                            <= c < CELLS && !self.occ(c) && (exists|j: nat, e: int|
                            j < k && 0 <= e < 4 && #[trigger] nbr(N as int, walk(next, r, j), e) == c) || (0 <= c
                            < CELLS && !self.occ(c) && exists|e: int|
                            0 <= e < d && #[trigger] nbr(N as int, cell as int, e) == c))),
                decreases 4 - d,
            {
                proof {
                    lemma_nbr(N as int, cell as int, d as int);
                }
                if let Some(nb) = nbs[d] {
                    if !occupied.get(nb) {
                        let ghost before = liberty_mask;
                        liberty_mask.set(nb);
                        proof {
                            assert(nbr(N as int, cell as int, d as int) == nb as int);
                        }
                    }
                }
                d += 1;
            }
            proof {
                assert forall|c: int|
                    0 <= c < BigBitBoard::<N, N, WORDS>::capacity() implies (#[trigger] liberty_mask.has(c) <==> (0
                        <= c < CELLS && !self.occ(c) && exists|j: nat, e: int|
                        j < k + 1 && 0 <= e < 4 && #[trigger] nbr(N as int, walk(next, r, j), e) == c)) by {
                    if exists|e: int| 0 <= e < 4 && #[trigger] nbr(N as int, cell as int, e) == c {
                        let e = choose|e: int| 0 <= e < 4 && #[trigger] nbr(N as int, cell as int, e) == c;
                        assert(nbr(N as int, walk(next, r, k), e) == c);
                    }
                    if exists|j: nat, e: int| j < k + 1 && 0 <= e < 4 && #[trigger] nbr(N as int, walk(next, r, j), e) == c {
                        let (j, e) = choose|j: nat, e: int| j < k + 1 && 0 <= e < 4 && #[trigger] nbr(N as int, walk(next, r, j), e) == c;
                        if j == k {
                            assert(nbr(N as int, cell as int, e) == c);
                        }
                    }
                }
            }
            cell = self.chain_next[cell as usize];
            proof {
                k = k + 1;
                assert(cell as int == walk(next, r, k));
            }
            if cell == rep {
                break;
            }
        }
        proof {
            assert forall|c: int| 0 <= c < CELLS implies #[trigger] liberty_mask.has(c) == self.elib(r, c) by {
                if liberty_mask.has(c) {
                    let (j, e) = choose|j: nat, e: int| j < len && 0 <= e < 4 && #[trigger] nbr(N as int, walk(next, r, j), e) == c;
                    let m = walk(next, r, j);
                    assert(self.member(r, m));
                    lemma_nbr(N as int, m, e);
                    let o = opposite(e);
                    assert(nbr(N as int, c, o) == m);
                    assert(0 <= o < 4);
                    if o == 0 {
                    } else if o == 1 {
                    } else if o == 2 {
                    } else {
                    }
                }
                if self.elib(r, c) {
                    let e = if nbr(N as int, c, 0) >= 0 && self.member(r, nbr(N as int, c, 0)) {
                        0int
                    } else if nbr(N as int, c, 1) >= 0 && self.member(r, nbr(N as int, c, 1)) {
                        1int
                    } else if nbr(N as int, c, 2) >= 0 && self.member(r, nbr(N as int, c, 2)) {
                        2int
                    } else {
                        3int
                    };
                    let m = nbr(N as int, c, e);
                    assert(self.member(r, m));
                    let j = choose|j: nat| j < len && #[trigger] walk(next, r, j) == m;
                    lemma_nbr(N as int, c, e);
                    assert(nbr(N as int, walk(next, r, j), opposite(e)) == c);
                }
            }
            lemma_count_bits_upto(liberty_mask, BigBitBoard::<N, N, WORDS>::capacity());
            lemma_count_extend(|c: int| liberty_mask.has(c), CELLS as int, BigBitBoard::<N, N, WORDS>::capacity());
            lemma_count_ext(|c: int| liberty_mask.has(c), |c: int| elib_of::<N, WORDS, CELLS>(self.black, self.white, self.group_rep@, r, c), CELLS as int);
            lemma_count_bound(|c: int| elib_of::<N, WORDS, CELLS>(self.black, self.white, self.group_rep@, r, c), CELLS as int);
        }
        let count = liberty_mask.count_ones();
        self.liberties[rep as usize] = count as u16;
    }
}

/// Walks agree while every cell passed has the same successor.
proof fn lemma_walk_agree(next1: Seq<u16>, next2: Seq<u16>, r: int, k: nat)
    requires
        forall|j: nat| j < k ==> next2[#[trigger] walk(next1, r, j)] == next1[walk(next1, r, j)],
    ensures
        walk(next2, r, k) == walk(next1, r, k),
    decreases k,
{
    if k > 0 {
        lemma_walk_agree(next1, next2, r, (k - 1) as nat);
        assert(next2[walk(next1, r, (k - 1) as nat)] == next1[walk(next1, r, (k - 1) as nat)]);
    }
}

/// After the splice, the walk from `a` first runs through `b`'s list.
proof fn lemma_walk_splice_first(next: Seq<u16>, next2: Seq<u16>, a: int, b: int, k: nat)
    requires
        next2[a] == next[b],
        1 <= k,
        forall|j: nat| 0 < j < k ==> next2[#[trigger] walk(next, b, j)] == next[walk(next, b, j)],
    ensures
        walk(next2, a, k) == walk(next, b, k),
    decreases k,
{
    if k > 1 {
        lemma_walk_splice_first(next, next2, a, b, (k - 1) as nat);
        assert(next2[walk(next, b, (k - 1) as nat)] == next[walk(next, b, (k - 1) as nat)]);
        assert(walk(next2, a, k) == next2[walk(next2, a, (k - 1) as nat)]);
        assert(walk(next, b, k) == next[walk(next, b, (k - 1) as nat)]);
    } else {
        assert(walk(next2, a, 0) == a);
        assert(walk(next, b, 0) == b);
        assert(walk(next2, a, 1) == next2[a]);
        assert(walk(next, b, 1) == next[b]);
    }
}

/// ... and then through `a`'s own list.
proof fn lemma_walk_splice_second(next: Seq<u16>, next2: Seq<u16>, a: int, b: int, lb: nat, j: nat)
    requires
        walk(next2, a, lb) == b,
        next2[b] == next[a],
        1 <= j,
        forall|i: nat| 0 < i < j ==> next2[#[trigger] walk(next, a, i)] == next[walk(next, a, i)],
    ensures
        walk(next2, a, lb + j) == walk(next, a, j),
    decreases j,
{
    if j > 1 {
        lemma_walk_splice_second(next, next2, a, b, lb, (j - 1) as nat);
        assert(next2[walk(next, a, (j - 1) as nat)] == next[walk(next, a, (j - 1) as nat)]);
        assert(walk(next2, a, lb + j) == next2[walk(next2, a, (lb + j - 1) as nat)]);
        assert(walk(next, a, j) == next[walk(next, a, (j - 1) as nat)]);
    } else {
        assert(walk(next2, a, lb + 1) == next2[walk(next2, a, lb)]);
        assert(walk(next, a, 0) == a);
        assert(walk(next, a, 1) == next[a]);
    }
}

impl<const N: usize, const WORDS: usize, const CELLS: usize> GoEngine<N, WORDS, CELLS> {
    /// Fold the group represented by `old_rep` into the one represented by
    /// `new_rep`: relabel its members, then join the two member lists by
    /// swapping the representatives' successors.
    fn splice_and_relabel(&mut self, new_rep: u16, old_rep: u16)
        requires
            old(self).partition_ok(),
            old(self).is_rep(new_rep as int),
            old(self).is_rep(old_rep as int),
            new_rep != old_rep,
            old(self).black.has(new_rep as int) == old(self).black.has(old_rep as int),
        ensures
            final(self).partition_ok(),
            final(self).black == old(self).black,
            final(self).white == old(self).white,
            final(self).occupied == old(self).occupied,
            final(self).liberties == old(self).liberties,
            forall|i: int|
                0 <= i < CELLS ==> #[trigger] final(self).group_rep@[i] == if old(self).member(old_rep as int, i) {
                    new_rep
                } else {
                    old(self).group_rep@[i]
                },
    {
        let ghost a = new_rep as int;
        let ghost b = old_rep as int;
        let ghost e0 = *self;
        let ghost next = self.chain_next@;
        let ghost lb = choose|len: nat| e0.cycle(b, len);
        let ghost la = choose|len: nat| e0.cycle(a, len);
        assert(e0.cycle(b, lb));
        assert(e0.cycle(a, la));
        let mut cell = old_rep;
        let ghost mut k: nat = 0;
        loop
            invariant_except_break
                k < lb,
                cell as int == walk(next, b, k),
            invariant
                e0.partition_ok(),
                e0.cycle(b, lb),
                self.chain_next@ == next,
                next == e0.chain_next@,
                self.black == e0.black,
                self.white == e0.white,
                self.occupied == e0.occupied,
                self.liberties == e0.liberties,
                b == old_rep as int,
                a == new_rep as int,
                k <= lb,
                forall|i: int|
                    0 <= i < CELLS ==> #[trigger] self.group_rep@[i] == if exists|j: nat|
                        j < k && #[trigger] walk(next, b, j) == i {
                        new_rep
                    } else {
                        e0.group_rep@[i]
                    },
            ensures
                k == lb,
            decreases lb - k,
        {
            assert(e0.member(b, walk(next, b, k)));
            let ghost before = self.group_rep@;
            self.group_rep[cell as usize] = new_rep;
            proof {
                assert forall|i: int| 0 <= i < CELLS implies #[trigger] self.group_rep@[i] == if exists|j: nat|
                    j < k + 1 && #[trigger] walk(next, b, j) == i {
                    new_rep
                } else {
                    e0.group_rep@[i]
                } by {
                    if i == cell as int {
                        assert(walk(next, b, k) == i);
                    } else {
                        assert(self.group_rep@[i] == before[i]);
                        if exists|j: nat| j < k + 1 && #[trigger] walk(next, b, j) == i {
                            let j = choose|j: nat| j < k + 1 && #[trigger] walk(next, b, j) == i;
                            assert(j < k);
                        }
                    }
                }
            }
            cell = self.chain_next[cell as usize];
            proof {
                k = k + 1;
                assert(cell as int == walk(next, b, k));
            }
            if cell == old_rep {
                break;
            }
        }
        proof {
            assert forall|i: int| 0 <= i < CELLS implies (exists|j: nat| j < lb && #[trigger] walk(next, b, j) == i)
                == e0.member(b, i) by {
                if e0.member(b, i) {
                    let j = choose|j: nat| j < lb && #[trigger] walk(next, b, j) == i;
                }
                if exists|j: nat| j < lb && #[trigger] walk(next, b, j) == i {
                    let j = choose|j: nat| j < lb && #[trigger] walk(next, b, j) == i;
                    assert(e0.member(b, walk(next, b, j)));
                }
            }
        }
        let a_next = self.chain_next[new_rep as usize];
        let b_next = self.chain_next[old_rep as usize];
        self.chain_next[new_rep as usize] = b_next;
        self.chain_next[old_rep as usize] = a_next;
        proof {
            e0.lemma_splice_partition(*self, a, b, la, lb);
        }
    }
}

impl<const N: usize, const WORDS: usize, const CELLS: usize> GoEngine<N, WORDS, CELLS> {
    /// The tables after a splice still partition the stones.
    proof fn lemma_splice_partition(self, e: Self, a: int, b: int, la: nat, lb: nat)
        requires
            self.partition_ok(),
            self.is_rep(a),
            self.is_rep(b),
            a != b,
            self.black.has(a) == self.black.has(b),
            self.cycle(a, la),
            self.cycle(b, lb),
            e.black == self.black,
            e.white == self.white,
            e.occupied == self.occupied,
            forall|i: int|
                0 <= i < CELLS ==> #[trigger] e.group_rep@[i] == if self.member(b, i) {
                    a as u16
                } else {
                    self.group_rep@[i]
                },
            e.chain_next@ == self.chain_next@.update(a, self.chain_next@[b]).update(b, self.chain_next@[a]),
        ensures
            e.partition_ok(),
    {
        let next = self.chain_next@;
        let next2 = e.chain_next@;
        assert(e.group_rep@.len() == CELLS);
        assert forall|i: int| 0 <= i < CELLS implies ((#[trigger] e.group_rep@[i] == SENTINEL) <==> !e.occ(i)) by {
            if self.member(b, i) {
                assert(self.occ(i));
            }
        }
        assert forall|i: int|
            0 <= i < CELLS && #[trigger] e.occ(i) implies {
                let r = e.rep_at(i);
                &&& 0 <= r < CELLS
                &&& e.group_rep@[r] as int == r
                &&& e.black.has(r) == e.black.has(i)
            } by {
            assert(self.occ(i));
            let r0 = self.rep_at(i);
            if self.member(b, i) {
                assert(!self.member(b, a));
            } else {
                assert(r0 != b);
                assert(!self.member(b, r0));
            }
        }
        // The walk from `a` after the splice.
        assert forall|j: nat| 0 < j < lb implies next2[#[trigger] walk(next, b, j)] == next[walk(next, b, j)] by {
            assert(self.member(b, walk(next, b, j)));
        }
        assert forall|k: nat| 1 <= k <= lb implies #[trigger] walk(next2, a, k) == walk(next, b, k) by {
            lemma_walk_splice_first(next, next2, a, b, k);
        }
        assert(walk(next2, a, lb) == b);
        assert forall|i: nat| 0 < i < la implies next2[#[trigger] walk(next, a, i)] == next[walk(next, a, i)] by {
            assert(self.member(a, walk(next, a, i)));
        }
        assert forall|j: nat| 1 <= j <= la implies #[trigger] walk(next2, a, lb + j) == walk(next, a, j) by {
            lemma_walk_splice_second(next, next2, a, b, lb, j);
        }
        let l = la + lb;
        assert(walk(next2, a, (lb + la) as nat) == walk(next, a, la));
        assert(e.cycle(a, l)) by {
            assert forall|k: nat| 0 < k < l implies #[trigger] walk(next2, a, k) != a by {
                if k <= lb {
                    assert(walk(next2, a, k) == walk(next, b, k));
                    if k < lb {
                        assert(self.member(b, walk(next, b, k)));
                    }
                } else {
                    let j = (k - lb) as nat;
                    assert(walk(next2, a, lb + j) == walk(next, a, j));
                }
            }
            assert forall|k: nat| k < l implies e.member(a, #[trigger] walk(next2, a, k)) by {
                if k == 0 {
                } else if k <= lb {
                    assert(walk(next2, a, k) == walk(next, b, k));
                    if k < lb {
                        assert(self.member(b, walk(next, b, k)));
                    }
                } else {
                    let j = (k - lb) as nat;
                    assert(walk(next2, a, lb + j) == walk(next, a, j));
                    assert(self.member(a, walk(next, a, j)));
                }
            }
            assert forall|x: int| #[trigger] e.member(a, x) implies exists|k: nat| k < l && #[trigger] walk(next2, a, k) == x by {
                if self.member(b, x) {
                    let j = choose|j: nat| j < lb && #[trigger] walk(next, b, j) == x;
                    if j == 0 {
                        assert(walk(next2, a, lb) == x);
                    } else {
                        assert(walk(next2, a, j) == x);
                    }
                } else {
                    assert(self.member(a, x));
                    let j = choose|j: nat| j < la && #[trigger] walk(next, a, j) == x;
                    if j == 0 {
                        assert(walk(next2, a, 0) == x);
                    } else {
                        assert(walk(next2, a, lb + j) == x);
                    }
                }
            }
        }
        assert forall|r: int| #[trigger] e.is_rep(r) implies exists|len: nat| e.cycle(r, len) by {
            if r == a {
                assert(e.cycle(a, l));
            } else {
                assert(!self.member(b, r));
                assert(self.is_rep(r));
                assert(r != b);
                let lr = choose|len: nat| self.cycle(r, len);
                assert(self.cycle(r, lr));
                assert forall|j: nat| j < lr implies next2[#[trigger] walk(next, r, j)] == next[walk(next, r, j)] by {
                    assert(self.member(r, walk(next, r, j)));
                }
                assert forall|k: nat| k <= lr implies #[trigger] walk(next2, r, k) == walk(next, r, k) by {
                    lemma_walk_agree(next, next2, r, k);
                }
                assert forall|x: int| #[trigger] e.member(r, x) == self.member(r, x) by {
                    if 0 <= x < CELLS && self.member(b, x) {
                    }
                }
                assert(e.cycle(r, lr)) by {
                    assert forall|k: nat| 0 < k < lr implies #[trigger] walk(next2, r, k) != r by {
                        assert(walk(next, r, k) != r);
                    }
                    assert forall|k: nat| k < lr implies e.member(r, #[trigger] walk(next2, r, k)) by {
                        assert(self.member(r, walk(next, r, k)));
                    }
                    assert forall|x: int| #[trigger] e.member(r, x) implies exists|k: nat| k < lr && #[trigger] walk(next2, r, k) == x by {
                        assert(self.member(r, x));
                        let j = choose|j: nat| j < lr && #[trigger] walk(next, r, j) == x;
                        assert(walk(next2, r, j) == x);
                    }
                }
            }
        }
    }
}

/// Whether `r` is among the first `n` entries of `seen`.
fn seen_contains(seen: &[u16; 4], n: usize, r: u16) -> (found: bool)
    requires
        n <= 4,
    ensures
        found == exists|t: int| 0 <= t < n && #[trigger] seen@[t] == r,
{
    let mut t: usize = 0;
    while t < n
        invariant
            t <= n,
            n <= 4,
            forall|u: int| 0 <= u < t ==> #[trigger] seen@[u] != r,
        decreases n - t,
    {
        if seen[t] == r {
            return true;
        }
        t += 1;
    }
    false
}

impl<const N: usize, const WORDS: usize, const CELLS: usize> GoEngine<N, WORDS, CELLS> {
    /// Two stones of one group have one colour, one liberty count and the
    /// same group.
    proof fn lemma_same_group(&self, x: int, y: int)
        requires
            self.inv(),
            0 <= x < CELLS,
            0 <= y < CELLS,
            self.occ(x),
            self.occ(y),
            self.rep_at(x) == self.rep_at(y),
        ensures
            self.board_of(x) == self.board_of(y),
            liberty_count(self.black, self.white, self.board_of(x), x) == liberty_count(
                self.black,
                self.white,
                self.board_of(y),
                y,
            ),
            forall|z: int| linked(self.board_of(x), x, z) == #[trigger] linked(self.board_of(y), y, z),
    {
        let r = self.rep_at(x);
        assert(self.black.has(r) == self.black.has(x));
        assert(self.black.has(r) == self.black.has(y));
        self.lemma_count_is_liberties(x);
        self.lemma_count_is_liberties(y);
        assert forall|z: int| linked(self.board_of(x), x, z) == #[trigger] linked(self.board_of(y), y, z) by {
            self.lemma_member_iff(x, z);
            self.lemma_member_iff(y, z);
        }
    }

    /// Whether a stone at `index` for the side to move would be legal, and
    /// which stones it would capture: the opposing groups next to it whose
    /// last liberty it fills. Reads only the cached counts of the at most
    /// four neighbouring groups.
    #[verifier::rlimit(50)]
    pub fn check(&self, black_to_move: bool, index: usize) -> (r: (bool, BigBitBoard<N, N, WORDS>))
        requires
            self.inv(),
            index < CELLS,
            empty_cell(self.black_stones(), self.white_stones(), index as int),
        ensures
            r.0 == move_legal(self.black_stones(), self.white_stones(), black_to_move, index as int),
            forall|x: int|
                0 <= x < BigBitBoard::<N, N, WORDS>::capacity() ==> (#[trigger] r.1.has(x) <==> captures(
                    self.black_stones(),
                    self.white_stones(),
                    black_to_move,
                    index as int,
                    x,
                )),
    {
        let ghost blk = self.black;
        let ghost wht = self.white;
        let ghost i = index as int;
        let own_board = self.own_board(black_to_move);
        let opp_board = self.opp_board(black_to_move);
        let occupied = self.occupied();
        let nbs = Self::neighbors(index);
        let mut safe = false;
        let mut opp_reps_seen = [SENTINEL; 4];
        let mut n_opp_seen: usize = 0;
        let mut will_capture = BigBitBoard::<N, N, WORDS>::empty();
        let ghost mut dirs: Seq<int> = Seq::empty();
        let mut d: usize = 0;
        while d < 4
            invariant
                self.inv(),
                blk == self.black,
                wht == self.white,
                i == index as int,
                index < CELLS,
                own_board == own_stones(blk, wht, black_to_move),
                opp_board == opp_stones(blk, wht, black_to_move),
                occupied == self.occupied,
                forall|t: int|
                    0 <= t < 4 ==> #[trigger] nbs[t] == if nbr(N as int, i, t) >= 0 {
                        Some(nbr(N as int, i, t) as usize)
                    } else {
                        None
                    },
                d <= 4,
                n_opp_seen <= d,
                safe == exists|e: int| 0 <= e < d && #[trigger] safe_via(blk, wht, black_to_move, i, e),
                forall|x: int|
                    0 <= x < BigBitBoard::<N, N, WORDS>::capacity() ==> (#[trigger] will_capture.has(x) <==> exists|e: int|
                        0 <= e < d && #[trigger] captured_via(blk, wht, black_to_move, i, e, x)),
                dirs.len() == n_opp_seen,
                forall|t: int|
                    0 <= t < n_opp_seen ==> 0 <= #[trigger] dirs[t] < d && nbr(N as int, i, dirs[t]) >= 0 && on(
                        opp_board,
                        nbr(N as int, i, dirs[t]),
                    ) && self.group_rep@[nbr(N as int, i, dirs[t])] == opp_reps_seen@[t],
            decreases 4 - d,
        {
            proof {
                lemma_nbr(N as int, i, d as int);
            }
            let ghost dd = d as int;
            let ghost nbi = nbr(N as int, i, dd);
            if let Some(nb) = nbs[d] {
                assert(nb as int == nbi);
                if !occupied.get(nb) {
                    assert(empty_cell(blk, wht, nbi));
                    assert(safe_via(blk, wht, black_to_move, i, dd));
                    safe = true;
                    proof {
                        assert forall|x: int| 0 <= x < BigBitBoard::<N, N, WORDS>::capacity() implies (#[trigger] will_capture.has(x) <==> exists|e: int|
                            0 <= e < d + 1 && #[trigger] captured_via(blk, wht, black_to_move, i, e, x)) by {
                            assert(!captured_via(blk, wht, black_to_move, i, dd, x));
                        }
                    }
                } else {
                    let r = self.group_rep[nb];
                    proof {
                        assert(self.occ(nbi));
                        self.lemma_count_is_liberties(nbi);
                    }
                    if opp_board.get(nb) {
                        assert(self.board_of(nbi) == opp_board);
                        assert(!safe_via(blk, wht, black_to_move, i, dd));
                        let seen = seen_contains(&opp_reps_seen, n_opp_seen, r);
                        if !seen {
                            let ghost before = will_capture;
                            let ghost seen0 = opp_reps_seen@;
                            let ghost n0 = n_opp_seen as int;
                            opp_reps_seen[n_opp_seen] = r;
                            assert(opp_reps_seen@ == seen0.update(n0, r));
                            n_opp_seen += 1;
                            if self.liberties[r as usize] == 1 {
                                let group = self.group_cells(r);
                                will_capture = will_capture.or(group);
                                proof {
                                    assert forall|x: int| 0 <= x < BigBitBoard::<N, N, WORDS>::capacity() implies (#[trigger] will_capture.has(x) <==> exists|e: int|
                                        0 <= e < d + 1 && #[trigger] captured_via(blk, wht, black_to_move, i, e, x)) by {
                                        self.lemma_member_iff(nbi, x);
                                        if group.has(x) {
                                            assert(captured_via(blk, wht, black_to_move, i, dd, x));
                                        }
                                        if captured_via(blk, wht, black_to_move, i, dd, x) {
                                            lemma_linked_ends(opp_board, nbi, x);
                                        }
                                    }
                                }
                            } else {
                                proof {
                                    assert forall|x: int| 0 <= x < BigBitBoard::<N, N, WORDS>::capacity() implies (#[trigger] will_capture.has(x) <==> exists|e: int|
                                        0 <= e < d + 1 && #[trigger] captured_via(blk, wht, black_to_move, i, e, x)) by {
                                        assert(!captured_via(blk, wht, black_to_move, i, dd, x));
                                    }
                                }
                            }
                            proof {
                                assert(opp_reps_seen@[n_opp_seen - 1] == r);
                                dirs = dirs.push(dd);
                                assert forall|t: int| 0 <= t < n_opp_seen implies 0 <= #[trigger] dirs[t] < d + 1 && nbr(N as int, i, dirs[t]) >= 0 && on(
                                    opp_board,
                                    nbr(N as int, i, dirs[t]),
                                ) && self.group_rep@[nbr(N as int, i, dirs[t])] == opp_reps_seen@[t] by {
                                    if t < n0 {
                                        assert(opp_reps_seen@[t] == seen0[t]);
                                    }
                                }
                            }
                        } else {
                            proof {
                                let t = choose|t: int| 0 <= t < n_opp_seen && #[trigger] opp_reps_seen@[t] == r;
                                let e = dirs[t];
                                let other = nbr(N as int, i, e);
                                lemma_nbr(N as int, i, e);
                                assert(self.occ(other));
                                self.lemma_same_group(nbi, other);
                                assert(self.board_of(other) == opp_board);
                                assert forall|x: int| 0 <= x < BigBitBoard::<N, N, WORDS>::capacity() implies (#[trigger] will_capture.has(x) <==> exists|f: int|
                                    0 <= f < d + 1 && #[trigger] captured_via(blk, wht, black_to_move, i, f, x)) by {
                                    if captured_via(blk, wht, black_to_move, i, dd, x) {
                                        assert(linked(opp_board, other, x));
                                        assert(captured_via(blk, wht, black_to_move, i, e, x));
                                    }
                                }
                            }
                        }
                    } else {
                        assert(self.board_of(nbi) == own_board);
                        assert(on(own_board, nbi));
                        if self.liberties[r as usize] > 1 {
                            assert(safe_via(blk, wht, black_to_move, i, dd));
                            safe = true;
                        }
                        proof {
                            assert forall|x: int| 0 <= x < BigBitBoard::<N, N, WORDS>::capacity() implies (#[trigger] will_capture.has(x) <==> exists|e: int|
                                0 <= e < d + 1 && #[trigger] captured_via(blk, wht, black_to_move, i, e, x)) by {
                                assert(!captured_via(blk, wht, black_to_move, i, dd, x));
                            }
                        }
                    }
                }
            } else {
                proof {
                    assert forall|x: int| 0 <= x < BigBitBoard::<N, N, WORDS>::capacity() implies (#[trigger] will_capture.has(x) <==> exists|e: int|
                        0 <= e < d + 1 && #[trigger] captured_via(blk, wht, black_to_move, i, e, x)) by {
                        assert(!captured_via(blk, wht, black_to_move, i, dd, x));
                    }
                }
            }
            d += 1;
        }
        let empty = will_capture.is_empty();
        proof {
            assert forall|x: int| 0 <= x < BigBitBoard::<N, N, WORDS>::capacity() implies (#[trigger] will_capture.has(x) <==> captures(blk, wht, black_to_move, i, x)) by {
                if will_capture.has(x) {
                    let e = choose|e: int| 0 <= e < 4 && #[trigger] captured_via(blk, wht, black_to_move, i, e, x);
                    assert(captured_via(blk, wht, black_to_move, i, e, x));
                }
                if captures(blk, wht, black_to_move, i, x) {
                    if captured_via(blk, wht, black_to_move, i, 0, x) {
                    } else if captured_via(blk, wht, black_to_move, i, 1, x) {
                    } else if captured_via(blk, wht, black_to_move, i, 2, x) {
                    } else {
                        assert(captured_via(blk, wht, black_to_move, i, 3, x));
                    }
                }
            }
            assert forall|e: int| 0 <= e < 4 implies #[trigger] frees(blk, wht, black_to_move, i, e) == (safe_via(blk, wht, black_to_move, i, e)
                || (nbr(N as int, i, e) >= 0 && on(opp_board, nbr(N as int, i, e)) && liberty_count(blk, wht, opp_board, nbr(N as int, i, e)) == 1)) by {
                lemma_nbr(N as int, i, e);
            }
            if !empty {
                let x = choose|x: int| 0 <= x < BigBitBoard::<N, N, WORDS>::capacity() && #[trigger] will_capture.has(x);
                let e = choose|e: int| 0 <= e < 4 && #[trigger] captured_via(blk, wht, black_to_move, i, e, x);
                assert(frees(blk, wht, black_to_move, i, e));
            }
            if safe {
                let e = choose|e: int| 0 <= e < 4 && #[trigger] safe_via(blk, wht, black_to_move, i, e);
                assert(frees(blk, wht, black_to_move, i, e));
            }
            if move_legal(blk, wht, black_to_move, i) {
                let e = if frees(blk, wht, black_to_move, i, 0) {
                    0int
                } else if frees(blk, wht, black_to_move, i, 1) {
                    1int
                } else if frees(blk, wht, black_to_move, i, 2) {
                    2int
                } else {
                    3int
                };
                assert(frees(blk, wht, black_to_move, i, e));
                if !safe_via(blk, wht, black_to_move, i, e) {
                    let nb = nbr(N as int, i, e);
                    lemma_nbr(N as int, i, e);
                    lemma_linked_refl(opp_board, nb);
                    assert(captured_via(blk, wht, black_to_move, i, e, nb));
                    assert(will_capture.has(nb));
                }
            }
        }
        (safe || !empty, will_capture)
    }
}

/// `x` is among the first `t` entries of `cells`.
pub open spec fn in_prefix(cells: Seq<usize>, t: int, x: int) -> bool {
    exists|a: int| 0 <= a < t && cells[a] as int == x
}

impl<const N: usize, const WORDS: usize, const CELLS: usize> GoEngine<N, WORDS, CELLS> {
    /// Every group meeting `capture` lies wholly inside it.
    spec fn whole_groups(&self, capture: BigBitBoard<N, N, WORDS>) -> bool {
        forall|x: int, y: int|
            0 <= x < CELLS && 0 <= y < CELLS && #[trigger] capture.has(x) && self.occ(x) && #[trigger] self.group_rep@[y]
                == self.group_rep@[x] ==> capture.has(y)
    }

    /// Put a stone of the side to move on the empty `index`, as a group of
    /// its own, and take the stones of `capture` off the board.
    fn place_and_capture(&mut self, black_to_move: bool, index: usize, capture: BigBitBoard<N, N, WORDS>)
        requires
            old(self).partition_ok(),
            index < CELLS,
            !old(self).occ(index as int),
            forall|x: int|
                0 <= x < BigBitBoard::<N, N, WORDS>::capacity() && #[trigger] capture.has(x) ==> x < CELLS && on(
                    opp_stones(old(self).black, old(self).white, black_to_move),
                    x,
                ),
            old(self).whole_groups(capture),
        ensures
            final(self).partition_ok(),
            forall|x: int|
                0 <= x < BigBitBoard::<N, N, WORDS>::capacity() ==> #[trigger] final(self).black.has(x) == if black_to_move {
                    old(self).black.has(x) || x == index
                } else {
                    old(self).black.has(x) && !capture.has(x)
                },
            forall|x: int|
                0 <= x < BigBitBoard::<N, N, WORDS>::capacity() ==> #[trigger] final(self).white.has(x) == if black_to_move {
                    old(self).white.has(x) && !capture.has(x)
                } else {
                    old(self).white.has(x) || x == index
                },
            forall|x: int|
                0 <= x < CELLS ==> #[trigger] final(self).group_rep@[x] == if x == index {
                    index as u16
                } else if capture.has(x) {
                    SENTINEL
                } else {
                    old(self).group_rep@[x]
                },
            final(self).chain_next@ == old(self).chain_next@.update(index as int, index as u16),
            final(self).liberties == old(self).liberties,
    {
        let ghost e0 = *self;
        if black_to_move {
            self.black.set(index);
        } else {
            self.white.set(index);
        }
        self.occupied.set(index);
        self.group_rep[index] = index as u16;
        self.chain_next[index] = index as u16;
        let cells = capture.set_indices();
        let mut t: usize = 0;
        while t < cells.len()
            invariant
                BigBitBoard::<N, N, WORDS>::dims_ok(),
                e0.partition_ok(),
                index < CELLS,
                !e0.occ(index as int),
                t <= cells.len(),
                forall|a: int, b: int| 0 <= a < b < cells.len() ==> cells@[a] < cells@[b],
                forall|a: int|
                    0 <= a < cells.len() ==> cells@[a] < BigBitBoard::<N, N, WORDS>::capacity() && capture.has(
                        #[trigger] cells@[a] as int),
                forall|x: int|
                    0 <= x < BigBitBoard::<N, N, WORDS>::capacity() && #[trigger] capture.has(x) ==> x < CELLS && on(
                        opp_stones(e0.black, e0.white, black_to_move),
                        x,
                    ),
                forall|x: int|
                    0 <= x < BigBitBoard::<N, N, WORDS>::capacity() ==> #[trigger] self.black.has(x) == if black_to_move {
                        e0.black.has(x) || x == index
                    } else {
                        e0.black.has(x) && !in_prefix(cells@, t as int, x)
                    },
                forall|x: int|
                    0 <= x < BigBitBoard::<N, N, WORDS>::capacity() ==> #[trigger] self.white.has(x) == if black_to_move {
                        e0.white.has(x) && !in_prefix(cells@, t as int, x)
                    } else {
                        e0.white.has(x) || x == index
                    },
                forall|x: int|
                    0 <= x < BigBitBoard::<N, N, WORDS>::capacity() ==> #[trigger] self.occupied.has(x) == (self.black.has(x)
                        || self.white.has(x)),
                self.group_rep@.len() == CELLS,
                forall|x: int|
                    0 <= x < CELLS ==> #[trigger] self.group_rep@[x] == if x == index {
                        index as u16
                    } else if in_prefix(cells@, t as int, x) {
                        SENTINEL
                    } else {
                        e0.group_rep@[x]
                    },
                self.chain_next@ == e0.chain_next@.update(index as int, index as u16),
                self.liberties == e0.liberties,
            decreases cells.len() - t,
        {
            let cell = cells[t];
            proof {
                assert(capture.has(cell as int));
            }
            if black_to_move {
                self.white.clear(cell);
            } else {
                self.black.clear(cell);
            }
            self.occupied.clear(cell);
            self.group_rep[cell] = SENTINEL;
            proof {
                assert forall|x: int| #[trigger] in_prefix(cells@, t + 1, x) == (in_prefix(cells@, t as int, x)
                    || x == cell as int) by {
                    if x == cell as int {
                        assert(cells@[t as int] == x);
                    }
                    if in_prefix(cells@, t as int, x) {
                        let a = choose|a: int| 0 <= a < t && cells@[a] as int == x;
                        assert(0 <= a < t + 1 && cells@[a] as int == x);
                    }
                }
            }
            t += 1;
        }
        proof {
            assert forall|x: int| 0 <= x < BigBitBoard::<N, N, WORDS>::capacity() implies in_prefix(cells@, cells.len() as int, x)
                == #[trigger] capture.has(x) by {
                if capture.has(x) {
                    assert(cells@.contains(x as usize));
                    let a = choose|a: int| 0 <= a < cells.len() && cells@[a] == x as usize;
                    assert(cells@[a] as int == x);
                }
                if in_prefix(cells@, cells.len() as int, x) {
                    let a = choose|a: int| 0 <= a < cells.len() && cells@[a] as int == x;
                    assert(capture.has(cells@[a] as int));
                }
            }
            e0.lemma_placed_partition(*self, black_to_move, index as int, capture);
        }
    }

    /// The tables after placing a lone stone and removing whole groups
    /// still partition the stones.
    proof fn lemma_placed_partition(self, e: Self, black_to_move: bool, index: int, capture: BigBitBoard<N, N, WORDS>)
        requires
            self.partition_ok(),
            0 <= index < CELLS,
            !self.occ(index),
            forall|x: int|
                0 <= x < BigBitBoard::<N, N, WORDS>::capacity() && #[trigger] capture.has(x) ==> x < CELLS && on(
                    opp_stones(self.black, self.white, black_to_move),
                    x,
                ),
            self.whole_groups(capture),
            forall|x: int|
                0 <= x < BigBitBoard::<N, N, WORDS>::capacity() ==> #[trigger] e.black.has(x) == if black_to_move {
                    self.black.has(x) || x == index
                } else {
                    self.black.has(x) && !capture.has(x)
                },
            forall|x: int|
                0 <= x < BigBitBoard::<N, N, WORDS>::capacity() ==> #[trigger] e.white.has(x) == if black_to_move {
                    self.white.has(x) && !capture.has(x)
                } else {
                    self.white.has(x) || x == index
                },
            forall|x: int|
                0 <= x < BigBitBoard::<N, N, WORDS>::capacity() ==> #[trigger] e.occupied.has(x) == (e.black.has(x)
                    || e.white.has(x)),
            e.group_rep@.len() == CELLS,
            forall|x: int|
                0 <= x < CELLS ==> #[trigger] e.group_rep@[x] == if x == index {
                    index as u16
                } else if capture.has(x) {
                    SENTINEL
                } else {
                    self.group_rep@[x]
                },
            e.chain_next@ == self.chain_next@.update(index, index as u16),
        ensures
            e.partition_ok(),
    {
        assert(BigBitBoard::<N, N, WORDS>::capacity() >= CELLS);
        assert forall|i: int| 0 <= i < CELLS implies ((#[trigger] e.group_rep@[i] == SENTINEL) <==> !e.occ(i)) by {
            if i != index && !capture.has(i) && self.occ(i) {
                assert(self.group_rep@[i] != SENTINEL);
            }
        }
        assert forall|x: int| 0 <= x < CELLS && self.occ(x) && #[trigger] self.group_rep@[x] as int == index implies false by {
            let r = self.rep_at(x);
            assert(self.group_rep@[r] as int == r);
        }
        assert forall|i: int|
            0 <= i < CELLS && #[trigger] e.occ(i) implies {
                let r = e.rep_at(i);
                &&& 0 <= r < CELLS
                &&& e.group_rep@[r] as int == r
                &&& e.black.has(r) == e.black.has(i)
            } by {
            if i != index {
                assert(self.occ(i));
                assert(!capture.has(i));
                let r = self.rep_at(i);
                assert(self.group_rep@[r] as int == r);
                if capture.has(r) {
                    assert(self.group_rep@[i] == self.group_rep@[r]);
                }
                assert(r != index);
            }
        }
        assert forall|r: int| #[trigger] e.is_rep(r) implies exists|len: nat| e.cycle(r, len) by {
            let next = self.chain_next@;
            let next2 = e.chain_next@;
            if r == index {
                assert(walk(next2, index, 1) == next2[walk(next2, index, 0)]);
                assert(walk(next2, index, 1) == index);
                assert(e.member(index, walk(next2, index, 0)));
                assert forall|x: int| #[trigger] e.member(index, x) implies exists|k: nat| k < 1 && #[trigger] walk(next2, index, k) == x by {
                    if x != index {
                        if capture.has(x) {
                        } else if self.occ(x) {
                        } else {
                            assert(self.group_rep@[x] == SENTINEL);
                        }
                    }
                    assert(walk(next2, index, 0) == x);
                }
                assert(e.cycle(index, 1));
            } else {
                assert(!capture.has(r));
                assert(self.group_rep@[r] as int == r);
                assert(self.is_rep(r));
                let lr = choose|len: nat| self.cycle(r, len);
                assert(self.cycle(r, lr));
                assert forall|x: int| #[trigger] e.member(r, x) == self.member(r, x) by {
                    if 0 <= x < CELLS && capture.has(x) && self.member(r, x) {
                        assert(self.occ(x));
                        assert(self.group_rep@[r] == self.group_rep@[x]);
                    }
                    if x == index && self.member(r, x) {
                        assert(self.group_rep@[index] == SENTINEL);
                    }
                }
                assert forall|j: nat| j < lr implies next2[#[trigger] walk(next, r, j)] == next[walk(next, r, j)] by {
                    assert(self.member(r, walk(next, r, j)));
                    if walk(next, r, j) == index {
                        assert(self.group_rep@[index] == SENTINEL);
                    }
                }
                assert forall|k: nat| k <= lr implies #[trigger] walk(next2, r, k) == walk(next, r, k) by {
                    lemma_walk_agree(next, next2, r, k);
                }
                assert(e.cycle(r, lr)) by {
                    assert forall|k: nat| 0 < k < lr implies #[trigger] walk(next2, r, k) != r by {
                        assert(walk(next, r, k) != r);
                    }
                    assert forall|k: nat| k < lr implies e.member(r, #[trigger] walk(next2, r, k)) by {
                        assert(self.member(r, walk(next, r, k)));
                    }
                    assert forall|x: int| #[trigger] e.member(r, x) implies exists|k: nat| k < lr && #[trigger] walk(next2, r, k) == x by {
                        assert(self.member(r, x));
                        let j = choose|j: nat| j < lr && #[trigger] walk(next, r, j) == x;
                        assert(walk(next2, r, j) == x);
                    }
                }
            }
        }
    }
}

/// Neighbour `k` of `index` is a stone of `own` whose label in `rep` is `r`.
pub open spec fn neighbour_rep<const N: usize, const WORDS: usize>(
    rep: Seq<u16>,
    own: BigBitBoard<N, N, WORDS>,
    index: int,
    k: int,
    r: int,
) -> bool {
    &&& 0 <= k < 4
    &&& nbr(N as int, index, k) >= 0
    &&& on(own, nbr(N as int, index, k))
    &&& rep[nbr(N as int, index, k)] as int == r
}

/// `r` labels a stone of `own` among the first `d` neighbours of `index`.
pub open spec fn joins<const N: usize, const WORDS: usize>(
    rep: Seq<u16>,
    own: BigBitBoard<N, N, WORDS>,
    index: int,
    d: int,
    r: int,
) -> bool {
    exists|k: int| 0 <= k < d && #[trigger] neighbour_rep(rep, own, index, k, r)
}

impl<const N: usize, const WORDS: usize, const CELLS: usize> GoEngine<N, WORDS, CELLS> {
    /// Fold every own group next to the lone stone at `index` into its
    /// group.
    fn merge_around(&mut self, black_to_move: bool, index: usize)
        requires
            old(self).partition_ok(),
            index < CELLS,
            on(own_stones(old(self).black, old(self).white, black_to_move), index as int),
            old(self).group_rep@[index as int] == index as u16,
            forall|x: int| 0 <= x < CELLS && #[trigger] old(self).group_rep@[x] == index as u16 ==> x == index,
        ensures
            final(self).partition_ok(),
            final(self).black == old(self).black,
            final(self).white == old(self).white,
            final(self).occupied == old(self).occupied,
            final(self).liberties == old(self).liberties,
            forall|x: int|
                0 <= x < CELLS ==> #[trigger] final(self).group_rep@[x] == if x == index || joins(
                    old(self).group_rep@,
                    own_stones(old(self).black, old(self).white, black_to_move),
                    index as int,
                    4,
                    old(self).group_rep@[x] as int,
                ) {
                    index as u16
                } else {
                    old(self).group_rep@[x]
                },
    {
        let ghost e1 = *self;
        let ghost rep1 = self.group_rep@;
        let ghost i = index as int;
        let own_board = self.own_board(black_to_move);
        let nbs = Self::neighbors(index);
        let mut own_reps_seen = [SENTINEL; 4];
        let mut n_own_seen: usize = 0;
        let ghost mut dirs: Seq<int> = Seq::empty();
        let mut d: usize = 0;
        while d < 4
            invariant
                e1.partition_ok(),
                self.partition_ok(),
                i == index as int,
                index < CELLS,
                rep1 == e1.group_rep@,
                own_board == own_stones(e1.black, e1.white, black_to_move),
                on(own_board, i),
                rep1[i] == index as u16,
                forall|x: int| 0 <= x < CELLS && #[trigger] rep1[x] == index as u16 ==> x == i,
                self.black == e1.black,
                self.white == e1.white,
                self.occupied == e1.occupied,
                self.liberties == e1.liberties,
                forall|t: int|
                    0 <= t < 4 ==> #[trigger] nbs[t] == if nbr(N as int, i, t) >= 0 {
                        Some(nbr(N as int, i, t) as usize)
                    } else {
                        None
                    },
                d <= 4,
                n_own_seen <= d,
                dirs.len() == n_own_seen,
                forall|t: int|
                    0 <= t < n_own_seen ==> 0 <= #[trigger] dirs[t] < d && neighbour_rep(
                        rep1,
                        own_board,
                        i,
                        dirs[t],
                        own_reps_seen@[t] as int,
                    ),
                forall|x: int|
                    0 <= x < CELLS ==> #[trigger] self.group_rep@[x] == if x == i || joins(
                        rep1,
                        own_board,
                        i,
                        d as int,
                        rep1[x] as int,
                    ) {
                        index as u16
                    } else {
                        rep1[x]
                    },
            decreases 4 - d,
        {
            proof {
                lemma_nbr(N as int, i, d as int);
            }
            let ghost dd = d as int;
            if let Some(nb) = nbs[d] {
                if nb != index && own_board.get(nb) {
                    let ghost nbi = nb as int;
                    assert(neighbour_rep(rep1, own_board, i, dd, rep1[nbi] as int));
                    proof {
                        assert(e1.occ(nbi));
                    }
                    let r = self.group_rep[nb];
                    if r != index as u16 {
                        assert(!joins(rep1, own_board, i, dd, rep1[nbi] as int));
                        assert(r == rep1[nbi]);
                        let seen = seen_contains(&own_reps_seen, n_own_seen, r);
                        if !seen {
                            let ghost seen0 = own_reps_seen@;
                            own_reps_seen[n_own_seen] = r;
                            n_own_seen += 1;
                            proof {
                                dirs = dirs.push(dd);
                                assert forall|t: int|
                                    0 <= t < n_own_seen implies 0 <= #[trigger] dirs[t] < d + 1 && neighbour_rep(
                                        rep1,
                                        own_board,
                                        i,
                                        dirs[t],
                                        own_reps_seen@[t] as int,
                                    ) by {
                                    if t < n_own_seen - 1 {
                                        assert(own_reps_seen@[t] == seen0[t]);
                                    }
                                }
                                let ri = r as int;
                                assert(e1.group_rep@[ri] as int == ri);
                                assert(e1.black.has(ri) == e1.black.has(nbi));
                                if joins(rep1, own_board, i, dd, ri) {
                                    let k = choose|k: int| 0 <= k < dd && #[trigger] neighbour_rep(rep1, own_board, i, k, ri);
                                }
                                assert(self.group_rep@[ri] == r);
                                assert(self.is_rep(ri));
                                assert(self.is_rep(i));
                            }
                            let ghost before = self.group_rep@;
                            let ghost cur = *self;
                            self.splice_and_relabel(index as u16, r);
                            proof {
                                assert forall|x: int|
                                    0 <= x < CELLS implies #[trigger] self.group_rep@[x] == if x == i || joins(
                                        rep1,
                                        own_board,
                                        i,
                                        dd + 1,
                                        rep1[x] as int,
                                    ) {
                                        index as u16
                                    } else {
                                        rep1[x]
                                    } by {
                                    if joins(rep1, own_board, i, dd + 1, rep1[x] as int) && !joins(rep1, own_board, i, dd, rep1[x] as int) {
                                        let k = choose|k: int| 0 <= k < dd + 1 && #[trigger] neighbour_rep(rep1, own_board, i, k, rep1[x] as int);
                                        assert(k == dd);
                                        assert(cur.member(r as int, x));
                                    }
                                    if joins(rep1, own_board, i, dd, rep1[x] as int) {
                                        let k = choose|k: int| 0 <= k < dd && #[trigger] neighbour_rep(rep1, own_board, i, k, rep1[x] as int);
                                        assert(neighbour_rep(rep1, own_board, i, k, rep1[x] as int));
                                    }
                                    if cur.member(r as int, x) && x != i {
                                        assert(neighbour_rep(rep1, own_board, i, dd, rep1[x] as int));
                                    }
                                }
                            }
                        } else {
                            proof {
                                let t = choose|t: int| 0 <= t < n_own_seen && #[trigger] own_reps_seen@[t] == r;
                                assert(neighbour_rep(rep1, own_board, i, dirs[t], r as int));
                                assert(joins(rep1, own_board, i, dd, rep1[nbi] as int));
                            }
                        }
                    } else {
                        proof {
                            assert(joins(rep1, own_board, i, dd, rep1[nbi] as int));
                            let k = choose|k: int| 0 <= k < dd && #[trigger] neighbour_rep(rep1, own_board, i, k, rep1[nbi] as int);
                            assert forall|x: int|
                                0 <= x < CELLS implies #[trigger] joins(rep1, own_board, i, dd + 1, rep1[x] as int) == joins(
                                    rep1,
                                    own_board,
                                    i,
                                    dd,
                                    rep1[x] as int,
                                ) by {
                                if joins(rep1, own_board, i, dd + 1, rep1[x] as int) {
                                    let k2 = choose|k2: int| 0 <= k2 < dd + 1 && #[trigger] neighbour_rep(rep1, own_board, i, k2, rep1[x] as int);
                                    if k2 == dd {
                                        assert(neighbour_rep(rep1, own_board, i, k, rep1[x] as int));
                                    }
                                }
                                if joins(rep1, own_board, i, dd, rep1[x] as int) {
                                    let k2 = choose|k2: int| 0 <= k2 < dd && #[trigger] neighbour_rep(rep1, own_board, i, k2, rep1[x] as int);
                                    assert(neighbour_rep(rep1, own_board, i, k2, rep1[x] as int));
                                }
                            }
                        }
                    }
                } else {
                    proof {
                        assert forall|x: int|
                            0 <= x < CELLS implies #[trigger] joins(rep1, own_board, i, dd + 1, rep1[x] as int) == joins(
                                rep1,
                                own_board,
                                i,
                                dd,
                                rep1[x] as int,
                            ) by {
                            if joins(rep1, own_board, i, dd + 1, rep1[x] as int) {
                                let k2 = choose|k2: int| 0 <= k2 < dd + 1 && #[trigger] neighbour_rep(rep1, own_board, i, k2, rep1[x] as int);
                                if k2 == dd {
                                    assert(nbr(N as int, i, dd) == i || !on(own_board, nbr(N as int, i, dd)));
                                }
                            }
                            if joins(rep1, own_board, i, dd, rep1[x] as int) {
                                let k2 = choose|k2: int| 0 <= k2 < dd && #[trigger] neighbour_rep(rep1, own_board, i, k2, rep1[x] as int);
                                assert(neighbour_rep(rep1, own_board, i, k2, rep1[x] as int));
                            }
                        }
                    }
                }
            } else {
                proof {
                    assert forall|x: int|
                        0 <= x < CELLS implies #[trigger] joins(rep1, own_board, i, dd + 1, rep1[x] as int) == joins(
                            rep1,
                            own_board,
                            i,
                            dd,
                            rep1[x] as int,
                        ) by {
                        if joins(rep1, own_board, i, dd + 1, rep1[x] as int) {
                            let k2 = choose|k2: int| 0 <= k2 < dd + 1 && #[trigger] neighbour_rep(rep1, own_board, i, k2, rep1[x] as int);
                        }
                        if joins(rep1, own_board, i, dd, rep1[x] as int) {
                            let k2 = choose|k2: int| 0 <= k2 < dd && #[trigger] neighbour_rep(rep1, own_board, i, k2, rep1[x] as int);
                            assert(neighbour_rep(rep1, own_board, i, k2, rep1[x] as int));
                        }
                    }
                }
            }
            d += 1;
        }
    }
}

/// Neighbour `k` of cell `c` is a stone whose label in `rep` is `r`.
pub open spec fn touch<const N: usize>(rep: Seq<u16>, c: int, k: int, r: int) -> bool {
    &&& 0 <= k < 4
    &&& nbr(N as int, c, k) >= 0
    &&& rep[nbr(N as int, c, k)] != SENTINEL
    &&& rep[nbr(N as int, c, k)] as int == r
}

/// Some stone labelled `r` neighbours one of the first `t` cells listed.
pub open spec fn bordered<const N: usize>(rep: Seq<u16>, cells: Seq<usize>, t: int, r: int) -> bool {
    exists|a: int, k: int| 0 <= a < t && #[trigger] touch::<N>(rep, cells[a] as int, k, r)
}

impl<const N: usize, const WORDS: usize, const CELLS: usize> GoEngine<N, WORDS, CELLS> {
    /// The partition does not depend on the liberty counts.
    proof fn lemma_partition_frame(self, e: Self)
        requires
            self.partition_ok(),
            e.black == self.black,
            e.white == self.white,
            e.occupied == self.occupied,
            e.group_rep == self.group_rep,
            e.chain_next == self.chain_next,
        ensures
            e.partition_ok(),
    {
        let next = self.chain_next@;
        assert(e.chain_next@ == next);
        assert(e.group_rep@ == self.group_rep@);
        assert forall|r: int| #[trigger] e.is_rep(r) implies exists|len: nat| e.cycle(r, len) by {
            assert(self.is_rep(r));
            let len = choose|len: nat| self.cycle(r, len);
            assert(self.cycle(r, len));
            assert(e.cycle(r, len)) by {
                assert forall|k: nat| 0 < k < len implies #[trigger] walk(e.chain_next@, r, k) != r by {
                    assert(walk(next, r, k) != r);
                }
                assert forall|k: nat| k < len implies e.member(r, #[trigger] walk(e.chain_next@, r, k)) by {
                    assert(self.member(r, walk(next, r, k)));
                }
                assert forall|x: int| #[trigger] e.member(r, x) implies exists|k: nat| k < len && #[trigger] walk(e.chain_next@, r, k) == x by {
                    assert(self.member(r, x));
                    let k = choose|k: nat| k < len && #[trigger] walk(next, r, k) == x;
                    assert(walk(e.chain_next@, r, k) == x);
                }
            }
        }
    }

    /// Take `index` off the liberty count of every opposing group next to
    /// it, once per group.
    fn release_liberties(&mut self, black_to_move: bool, index: usize)
        requires
            old(self).partition_ok(),
            index < CELLS,
            forall|r: int|
                #[trigger] joins(
                    old(self).group_rep@,
                    opp_stones(old(self).black, old(self).white, black_to_move),
                    index as int,
                    4,
                    r,
                ) ==> old(self).liberties@[r] >= 1,
        ensures
            final(self).black == old(self).black,
            final(self).white == old(self).white,
            final(self).occupied == old(self).occupied,
            final(self).group_rep == old(self).group_rep,
            final(self).chain_next == old(self).chain_next,
            final(self).liberties@.len() == CELLS,
            forall|r: int|
                0 <= r < CELLS ==> #[trigger] final(self).liberties@[r] == if joins(
                    old(self).group_rep@,
                    opp_stones(old(self).black, old(self).white, black_to_move),
                    index as int,
                    4,
                    r,
                ) {
                    (old(self).liberties@[r] - 1) as u16
                } else {
                    old(self).liberties@[r]
                },
    {
        let ghost e = *self;
        let ghost rep = self.group_rep@;
        let ghost lib0 = self.liberties@;
        let ghost i = index as int;
        let opp_board = self.opp_board(black_to_move);
        let nbs = Self::neighbors(index);
        let mut opp_reps_seen = [SENTINEL; 4];
        let mut n_opp_seen: usize = 0;
        let ghost mut dirs: Seq<int> = Seq::empty();
        let mut d: usize = 0;
        while d < 4
            invariant
                e.partition_ok(),
                i == index as int,
                index < CELLS,
                rep == e.group_rep@,
                lib0 == e.liberties@,
                opp_board == opp_stones(e.black, e.white, black_to_move),
                forall|r: int| #[trigger] joins(rep, opp_board, i, 4, r) ==> lib0[r] >= 1,
                self.black == e.black,
                self.white == e.white,
                self.occupied == e.occupied,
                self.group_rep == e.group_rep,
                self.chain_next == e.chain_next,
                self.liberties@.len() == CELLS,
                forall|t: int|
                    0 <= t < 4 ==> #[trigger] nbs[t] == if nbr(N as int, i, t) >= 0 {
                        Some(nbr(N as int, i, t) as usize)
                    } else {
                        None
                    },
                d <= 4,
                n_opp_seen <= d,
                dirs.len() == n_opp_seen,
                forall|t: int|
                    0 <= t < n_opp_seen ==> 0 <= #[trigger] dirs[t] < d && neighbour_rep(
                        rep,
                        opp_board,
                        i,
                        dirs[t],
                        opp_reps_seen@[t] as int,
                    ),
                forall|r: int|
                    #[trigger] joins(rep, opp_board, i, d as int, r) ==> exists|t: int|
                        0 <= t < n_opp_seen && #[trigger] opp_reps_seen@[t] as int == r,
                forall|r: int|
                    0 <= r < CELLS ==> #[trigger] self.liberties@[r] == if joins(rep, opp_board, i, d as int, r) {
                        (lib0[r] - 1) as u16
                    } else {
                        lib0[r]
                    },
            decreases 4 - d,
        {
            proof {
                lemma_nbr(N as int, i, d as int);
            }
            let ghost dd = d as int;
            let ghost libs_before = self.liberties@;
            if let Some(nb) = nbs[d] {
                if opp_board.get(nb) {
                    let ghost nbi = nb as int;
                    let r = self.group_rep[nb];
                    proof {
                        assert(e.occ(nbi));
                        assert(neighbour_rep(rep, opp_board, i, dd, r as int));
                        assert(joins(rep, opp_board, i, 4, r as int));
                    }
                    let seen = seen_contains(&opp_reps_seen, n_opp_seen, r);
                    if !seen {
                        let ghost seen0 = opp_reps_seen@;
                        opp_reps_seen[n_opp_seen] = r;
                        n_opp_seen += 1;
                        proof {
                            if joins(rep, opp_board, i, dd, r as int) {
                                let t = choose|t: int| 0 <= t < n_opp_seen - 1 && #[trigger] seen0[t] as int == r as int;
                                assert(seen0[t] == r);
                            }
                            dirs = dirs.push(dd);
                            assert forall|t: int|
                                0 <= t < n_opp_seen implies 0 <= #[trigger] dirs[t] < d + 1 && neighbour_rep(
                                    rep,
                                    opp_board,
                                    i,
                                    dirs[t],
                                    opp_reps_seen@[t] as int,
                                ) by {
                                if t < n_opp_seen - 1 {
                                    assert(opp_reps_seen@[t] == seen0[t]);
                                }
                            }
                        }
                        let l = self.liberties[r as usize];
                        self.liberties[r as usize] = l - 1;
                        proof {
                            assert forall|q: int|
                                #[trigger] joins(rep, opp_board, i, dd + 1, q) implies exists|t: int|
                                    0 <= t < n_opp_seen && #[trigger] opp_reps_seen@[t] as int == q by {
                                let k = choose|k: int| 0 <= k < dd + 1 && #[trigger] neighbour_rep(rep, opp_board, i, k, q);
                                if k < dd {
                                    assert(joins(rep, opp_board, i, dd, q));
                                    let t = choose|t: int| 0 <= t < n_opp_seen - 1 && #[trigger] seen0[t] as int == q;
                                    assert(opp_reps_seen@[t] == seen0[t]);
                                } else {
                                    assert(opp_reps_seen@[n_opp_seen - 1] as int == q);
                                }
                            }
                        }
                    } else {
                        proof {
                            let t = choose|t: int| 0 <= t < n_opp_seen && #[trigger] opp_reps_seen@[t] == r;
                            assert(neighbour_rep(rep, opp_board, i, dirs[t], r as int));
                            assert forall|q: int|
                                #[trigger] joins(rep, opp_board, i, dd + 1, q) implies exists|u: int|
                                    0 <= u < n_opp_seen && #[trigger] opp_reps_seen@[u] as int == q by {
                                let k = choose|k: int| 0 <= k < dd + 1 && #[trigger] neighbour_rep(rep, opp_board, i, k, q);
                                if k < dd {
                                    assert(joins(rep, opp_board, i, dd, q));
                                } else {
                                    assert(opp_reps_seen@[t] as int == q);
                                }
                            }
                        }
                    }
                } else {
                    proof {
                        assert forall|q: int|
                            #[trigger] joins(rep, opp_board, i, dd + 1, q) implies exists|u: int|
                                0 <= u < n_opp_seen && #[trigger] opp_reps_seen@[u] as int == q by {
                            let k = choose|k: int| 0 <= k < dd + 1 && #[trigger] neighbour_rep(rep, opp_board, i, k, q);
                            assert(joins(rep, opp_board, i, dd, q));
                        }
                    }
                }
            } else {
                proof {
                    assert forall|q: int|
                        #[trigger] joins(rep, opp_board, i, dd + 1, q) implies exists|u: int|
                            0 <= u < n_opp_seen && #[trigger] opp_reps_seen@[u] as int == q by {
                        let k = choose|k: int| 0 <= k < dd + 1 && #[trigger] neighbour_rep(rep, opp_board, i, k, q);
                        assert(joins(rep, opp_board, i, dd, q));
                    }
                }
            }
            proof {
                assert forall|r: int|
                    0 <= r < CELLS implies #[trigger] self.liberties@[r] == if joins(rep, opp_board, i, dd + 1, r) {
                        (lib0[r] - 1) as u16
                    } else {
                        lib0[r]
                    } by {
                    if joins(rep, opp_board, i, dd + 1, r) {
                        let k = choose|k: int| 0 <= k < dd + 1 && #[trigger] neighbour_rep(rep, opp_board, i, k, r);
                        if k < dd {
                            assert(joins(rep, opp_board, i, dd, r));
                        }
                    }
                    if joins(rep, opp_board, i, dd, r) {
                        let k = choose|k: int| 0 <= k < dd && #[trigger] neighbour_rep(rep, opp_board, i, k, r);
                        assert(neighbour_rep(rep, opp_board, i, k, r));
                    }
                }
            }
            d += 1;
        }
    }

    /// Recount every group next to a listed cell, `index`'s excepted.
    fn rescan_bordering(&mut self, index: usize, cells: &Vec<usize>)
        requires
            old(self).partition_ok(),
            old(self).is_rep(index as int),
            forall|a: int| 0 <= a < cells.len() ==> #[trigger] cells@[a] < CELLS,
        ensures
            final(self).black == old(self).black,
            final(self).white == old(self).white,
            final(self).occupied == old(self).occupied,
            final(self).group_rep == old(self).group_rep,
            final(self).chain_next == old(self).chain_next,
            final(self).liberties@.len() == CELLS,
            forall|r: int|
                0 <= r < CELLS ==> #[trigger] final(self).liberties@[r] == if r != index && bordered::<N>(
                    old(self).group_rep@,
                    cells@,
                    cells.len() as int,
                    r,
                ) {
                    old(self).ecount(r) as u16
                } else {
                    old(self).liberties@[r]
                },
    {
        let ghost e = *self;
        let ghost rep = self.group_rep@;
        let ghost lib0 = self.liberties@;
        let mut rescanned = BigBitBoard::<N, N, WORDS>::empty();
        rescanned.set(index);
        let mut t: usize = 0;
        while t < cells.len()
            invariant
                e.partition_ok(),
                self.partition_ok(),
                e.is_rep(index as int),
                rep == e.group_rep@,
                lib0 == e.liberties@,
                forall|a: int| 0 <= a < cells.len() ==> #[trigger] cells@[a] < CELLS,
                self.black == e.black,
                self.white == e.white,
                self.occupied == e.occupied,
                self.group_rep == e.group_rep,
                self.chain_next == e.chain_next,
                self.liberties@.len() == CELLS,
                t <= cells.len(),
                forall|r: int|
                    0 <= r < BigBitBoard::<N, N, WORDS>::capacity() ==> (#[trigger] rescanned.has(r) <==> (r == index
                        || (r < CELLS && bordered::<N>(rep, cells@, t as int, r)))),
                forall|r: int|
                    0 <= r < CELLS ==> #[trigger] self.liberties@[r] == if r != index && bordered::<N>(
                        rep,
                        cells@,
                        t as int,
                        r,
                    ) {
                        e.ecount(r) as u16
                    } else {
                        lib0[r]
                    },
            decreases cells.len() - t,
        {
            let cell = cells[t];
            let nbs = Self::neighbors(cell);
            let mut k: usize = 0;
            while k < 4
                invariant
                    e.partition_ok(),
                    self.partition_ok(),
                    e.is_rep(index as int),
                    rep == e.group_rep@,
                    lib0 == e.liberties@,
                    self.black == e.black,
                    self.white == e.white,
                    self.occupied == e.occupied,
                    self.group_rep == e.group_rep,
                    self.chain_next == e.chain_next,
                    self.liberties@.len() == CELLS,
                    t < cells.len(),
                    cell == cells@[t as int],
                    (cell as int) < CELLS,
                    forall|u: int|
                        0 <= u < 4 ==> #[trigger] nbs[u] == if nbr(N as int, cell as int, u) >= 0 {
                            Some(nbr(N as int, cell as int, u) as usize)
                        } else {
                            None
                        },
                    k <= 4,
                    forall|r: int|
                        0 <= r < BigBitBoard::<N, N, WORDS>::capacity() ==> (#[trigger] rescanned.has(r) <==> (r
                            == index || (r < CELLS && (bordered::<N>(rep, cells@, t as int, r) || exists|u: int|
                            0 <= u < k && #[trigger] touch::<N>(rep, cell as int, u, r))))),
                    forall|r: int|
                        0 <= r < CELLS ==> #[trigger] self.liberties@[r] == if r != index && (bordered::<N>(
                            rep,
                            cells@,
                            t as int,
                            r,
                        ) || exists|u: int| 0 <= u < k && #[trigger] touch::<N>(rep, cell as int, u, r)) {
                            e.ecount(r) as u16
                        } else {
                            lib0[r]
                        },
                decreases 4 - k,
            {
                proof {
                    lemma_nbr(N as int, cell as int, k as int);
                }
                let ghost kk = k as int;
                if let Some(nb) = nbs[k] {
                    if let Some(r) = self.rep(nb) {
                        let ghost ri = r as int;
                        proof {
                            assert(touch::<N>(rep, cell as int, kk, ri));
                            assert(e.occ(nb as int));
                            assert(e.is_rep(ri));
                        }
                        if !rescanned.get(r as usize) {
                            rescanned.set(r as usize);
                            let ghost before = *self;
                            proof {
                                self.lemma_rep_cycle(r as int);
                            }
                            self.rescan_liberties(r);
                            proof {
                                before.lemma_partition_frame(*self);
                            }
                        }
                    }
                }
                proof {
                    assert forall|r: int|
                        0 <= r < CELLS implies (exists|u: int| 0 <= u < k + 1 && #[trigger] touch::<N>(rep, cell as int, u, r))
                            == ((exists|u: int| 0 <= u < k && #[trigger] touch::<N>(rep, cell as int, u, r)) || touch::<N>(rep, cell as int, kk, r)) by {
                        if exists|u: int| 0 <= u < k + 1 && #[trigger] touch::<N>(rep, cell as int, u, r) {
                            let u = choose|u: int| 0 <= u < k + 1 && #[trigger] touch::<N>(rep, cell as int, u, r);
                            if u < k {
                                assert(touch::<N>(rep, cell as int, u, r));
                            }
                        }
                    }
                }
                k += 1;
            }
            proof {
                assert forall|r: int|
                    0 <= r < CELLS implies #[trigger] bordered::<N>(rep, cells@, t + 1, r) == (bordered::<N>(rep, cells@, t as int, r)
                        || exists|u: int| 0 <= u < 4 && #[trigger] touch::<N>(rep, cell as int, u, r)) by {
                    if bordered::<N>(rep, cells@, t + 1, r) {
                        let (a, u) = choose|a: int, u: int| 0 <= a < t + 1 && #[trigger] touch::<N>(rep, cells@[a] as int, u, r);
                        if a < t {
                            assert(touch::<N>(rep, cells@[a] as int, u, r));
                        } else {
                            assert(touch::<N>(rep, cell as int, u, r));
                        }
                    }
                    if bordered::<N>(rep, cells@, t as int, r) {
                        let (a, u) = choose|a: int, u: int| 0 <= a < t && #[trigger] touch::<N>(rep, cells@[a] as int, u, r);
                        assert(touch::<N>(rep, cells@[a] as int, u, r));
                    }
                    if exists|u: int| 0 <= u < 4 && #[trigger] touch::<N>(rep, cell as int, u, r) {
                        let u = choose|u: int| 0 <= u < 4 && #[trigger] touch::<N>(rep, cell as int, u, r);
                        assert(touch::<N>(rep, cells@[t as int] as int, u, r));
                    }
                }
            }
            t += 1;
        }
    }
}

/// Stones of `b1` stay linked on a board `b2` that keeps them all.
proof fn lemma_linked_grow<const N: usize, const WORDS: usize>(
    b1: BigBitBoard<N, N, WORDS>,
    b2: BigBitBoard<N, N, WORDS>,
    x: int,
    y: int,
)
    requires
        linked(b1, x, y),
        forall|i: int| #[trigger] on(b1, i) ==> on(b2, i),
    ensures
        linked(b2, x, y),
{
    lemma_linked_keep(b1, b2, x, y);
}

impl<const N: usize, const WORDS: usize, const CELLS: usize> GoEngine<N, WORDS, CELLS> {
    /// After a move, groups are again exactly the connected stones: the new
    /// stone's group is it and the own groups next to it, captured groups
    /// are gone, every other group is as it was.
    #[verifier::rlimit(60)]
    proof fn lemma_groups_after(
        self,
        e: Self,
        black_to_move: bool,
        index: int,
        capture: BigBitBoard<N, N, WORDS>,
        rep1: Seq<u16>,
    )
        requires
            self.partition_ok(),
            self.groups_ok(),
            e.partition_ok(),
            0 <= index < CELLS,
            !self.occ(index),
            forall|x: int|
                0 <= x < BigBitBoard::<N, N, WORDS>::capacity() && #[trigger] capture.has(x) ==> x < CELLS && on(
                    opp_stones(self.black, self.white, black_to_move),
                    x,
                ),
            self.whole_groups(capture),
            forall|x: int|
                0 <= x < BigBitBoard::<N, N, WORDS>::capacity() ==> #[trigger] e.black.has(x) == if black_to_move {
                    self.black.has(x) || x == index
                } else {
                    self.black.has(x) && !capture.has(x)
                },
            forall|x: int|
                0 <= x < BigBitBoard::<N, N, WORDS>::capacity() ==> #[trigger] e.white.has(x) == if black_to_move {
                    self.white.has(x) && !capture.has(x)
                } else {
                    self.white.has(x) || x == index
                },
            rep1.len() == CELLS,
            forall|x: int|
                0 <= x < CELLS ==> #[trigger] rep1[x] == if x == index {
                    index as u16
                } else if capture.has(x) {
                    SENTINEL
                } else {
                    self.group_rep@[x]
                },
            forall|x: int|
                0 <= x < CELLS ==> #[trigger] e.group_rep@[x] == if x == index || joins(
                    rep1,
                    own_stones(e.black, e.white, black_to_move),
                    index,
                    4,
                    rep1[x] as int,
                ) {
                    index as u16
                } else {
                    rep1[x]
                },
        ensures
            e.groups_ok(),
    {
        let own0 = own_stones(self.black, self.white, black_to_move);
        let opp0 = opp_stones(self.black, self.white, black_to_move);
        let own2 = own_stones(e.black, e.white, black_to_move);
        let opp2 = opp_stones(e.black, e.white, black_to_move);
        assert(BigBitBoard::<N, N, WORDS>::capacity() >= CELLS);
        // Where own stones sit, and which groups joined the new stone.
        assert forall|i: int| #[trigger] on(own0, i) implies on(own2, i) by {}
        assert forall|i: int| #[trigger] on(opp2, i) implies on(opp0, i) && !capture.has(i) by {}
        // An own stone's group joins the new stone's group when an own
        // neighbour of `index` shares its label; an opposing stone's never does.
        assert forall|x: int| 0 <= x < CELLS && #[trigger] on(opp0, x) && !capture.has(x) implies !joins(rep1, own2, index, 4, rep1[x] as int) by {
            if joins(rep1, own2, index, 4, rep1[x] as int) {
                let k = choose|k: int| 0 <= k < 4 && #[trigger] neighbour_rep(rep1, own2, index, k, rep1[x] as int);
                let m = nbr(N as int, index, k);
                lemma_nbr(N as int, index, k);
                assert(on(own0, m));
                assert(!capture.has(m));
                assert(self.occ(x) && self.occ(m));
                let r = self.rep_at(x);
                assert(self.black.has(r) == self.black.has(x));
                assert(self.black.has(r) == self.black.has(m));
            }
        }
        assert(closed_labels(own2, e.group_rep@)) by {
            assert forall|i: int, k: int|
                on(own2, i) && 0 <= k < 4 && on(own2, #[trigger] nbr(N as int, i, k)) implies e.group_rep@[nbr(N as int, i, k)]
                    == #[trigger] e.group_rep@[i] by {
                let j = nbr(N as int, i, k);
                lemma_nbr(N as int, i, k);
                if i == index {
                    assert(on(own0, j));
                    assert(neighbour_rep(rep1, own2, index, k, rep1[j] as int));
                } else if j == index {
                    let o = opposite(k);
                    assert(nbr(N as int, index, o) == i);
                    assert(neighbour_rep(rep1, own2, index, o, rep1[i] as int));
                } else {
                    assert(on(own0, i) && on(own0, j));
                    assert(closed_labels(own0, self.group_rep@));
                    assert(self.group_rep@[j] == self.group_rep@[i]);
                    assert(!capture.has(i) && !capture.has(j));
                    assert(rep1[i] == rep1[j]);
                }
            }
        }
        assert(closed_labels(opp2, e.group_rep@)) by {
            assert forall|i: int, k: int|
                on(opp2, i) && 0 <= k < 4 && on(opp2, #[trigger] nbr(N as int, i, k)) implies e.group_rep@[nbr(N as int, i, k)]
                    == #[trigger] e.group_rep@[i] by {
                let j = nbr(N as int, i, k);
                lemma_nbr(N as int, i, k);
                assert(on(opp0, i) && on(opp0, j));
                assert(closed_labels(opp0, self.group_rep@));
                assert(self.group_rep@[j] == self.group_rep@[i]);
                assert(i != index && j != index);
                assert(rep1[i] == rep1[j]);
                assert(!joins(rep1, own2, index, 4, rep1[i] as int));
                assert(!joins(rep1, own2, index, 4, rep1[j] as int));
            }
        }
        assert forall|i: int|
            0 <= i < CELLS && #[trigger] e.occ(i) implies linked(
                if e.black.has(i) {
                    e.black
                } else {
                    e.white
                },
                e.rep_at(i),
                i,
            ) by {
            if on(own2, i) {
                assert(e.board_of(i) == own2);
                if i == index {
                    lemma_linked_refl(own2, index);
                } else if joins(rep1, own2, index, 4, rep1[i] as int) {
                    let k = choose|k: int| 0 <= k < 4 && #[trigger] neighbour_rep(rep1, own2, index, k, rep1[i] as int);
                    let m = nbr(N as int, index, k);
                    lemma_nbr(N as int, index, k);
                    assert(on(own0, m) && on(own0, i));
                    assert(self.board_of(i) == own0);
                    assert(self.board_of(m) == own0);
                    assert(linked(own0, self.rep_at(i), i));
                    assert(linked(own0, self.rep_at(m), m));
                    assert(self.rep_at(i) == self.rep_at(m));
                    lemma_linked_symm(own0, self.rep_at(m), m);
                    lemma_linked_trans(own0, m, self.rep_at(i), i);
                    lemma_linked_grow(own0, own2, m, i);
                    lemma_linked_refl(own2, index);
                    assert(adjacent(N as int, index, m)) by {
                        if k == 0 {
                        } else if k == 1 {
                        } else if k == 2 {
                        } else {
                        }
                    }
                    lemma_linked_step(own2, index, index, m);
                    lemma_linked_trans(own2, index, m, i);
                    assert(e.rep_at(i) == index);
                } else {
                    assert(on(own0, i));
                    assert(self.board_of(i) == own0);
                    assert(linked(own0, self.rep_at(i), i));
                    lemma_linked_grow(own0, own2, self.rep_at(i), i);
                    assert(e.rep_at(i) == self.rep_at(i));
                }
            } else {
                assert(on(opp2, i));
                assert(e.board_of(i) == opp2);
                assert(on(opp0, i) && !capture.has(i));
                assert(self.board_of(i) == opp0);
                let r = self.rep_at(i);
                assert(linked(opp0, r, i));
                assert(!joins(rep1, own2, index, 4, rep1[i] as int));
                assert(e.rep_at(i) == r);
                assert forall|y: int| #[trigger] on(opp0, y) && linked(opp0, r, y) implies on(opp2, y) by {
                    lemma_closed_constant(opp0, self.group_rep@, r, y);
                    assert(self.group_rep@[r] as int == r);
                    if capture.has(y) {
                        assert(self.group_rep@[i] == self.group_rep@[y]);
                    }
                }
                lemma_linked_keep(opp0, opp2, r, i);
            }
        }
    }
}

impl<const N: usize, const WORDS: usize, const CELLS: usize> GoEngine<N, WORDS, CELLS> {
    /// After a move, the counts kept for every group are its liberties: the
    /// new group was recounted, the groups next to captured cells were
    /// recounted, each opposing group next to the stone lost exactly that
    /// one liberty, and every other group's liberties are unchanged.
    #[verifier::rlimit(80)]
    proof fn lemma_counts_after(
        self,
        e: Self,
        black_to_move: bool,
        index: int,
        capture: BigBitBoard<N, N, WORDS>,
        rep1: Seq<u16>,
        cells: Seq<usize>,
        lib3: Seq<u16>,
        lib4: Seq<u16>,
        lib5: Seq<u16>,
    )
        requires
            self.inv(),
            e.partition_ok(),
            0 <= index < CELLS,
            !self.occ(index),
            forall|x: int|
                0 <= x < BigBitBoard::<N, N, WORDS>::capacity() && #[trigger] capture.has(x) ==> x < CELLS && on(
                    opp_stones(self.black, self.white, black_to_move),
                    x,
                ),
            self.whole_groups(capture),
            forall|x: int|
                0 <= x < BigBitBoard::<N, N, WORDS>::capacity() && #[trigger] capture.has(x) ==> in_prefix(
                    cells,
                    cells.len() as int,
                    x,
                ),
            forall|x: int|
                0 <= x < BigBitBoard::<N, N, WORDS>::capacity() ==> #[trigger] e.black.has(x) == if black_to_move {
                    self.black.has(x) || x == index
                } else {
                    self.black.has(x) && !capture.has(x)
                },
            forall|x: int|
                0 <= x < BigBitBoard::<N, N, WORDS>::capacity() ==> #[trigger] e.white.has(x) == if black_to_move {
                    self.white.has(x) && !capture.has(x)
                } else {
                    self.white.has(x) || x == index
                },
            rep1.len() == CELLS,
            forall|x: int|
                0 <= x < CELLS ==> #[trigger] rep1[x] == if x == index {
                    index as u16
                } else if capture.has(x) {
                    SENTINEL
                } else {
                    self.group_rep@[x]
                },
            forall|x: int|
                0 <= x < CELLS ==> #[trigger] e.group_rep@[x] == if x == index || joins(
                    rep1,
                    own_stones(e.black, e.white, black_to_move),
                    index,
                    4,
                    rep1[x] as int,
                ) {
                    index as u16
                } else {
                    rep1[x]
                },
            lib3 == self.liberties@.update(index, e.ecount(index) as u16),
            lib4.len() == CELLS,
            forall|r: int|
                0 <= r < CELLS ==> #[trigger] lib4[r] == if joins(
                    e.group_rep@,
                    opp_stones(e.black, e.white, black_to_move),
                    index,
                    4,
                    r,
                ) {
                    (lib3[r] - 1) as u16
                } else {
                    lib3[r]
                },
            forall|r: int|
                0 <= r < CELLS ==> #[trigger] lib5[r] == if r != index && bordered::<N>(
                    e.group_rep@,
                    cells,
                    cells.len() as int,
                    r,
                ) {
                    e.ecount(r) as u16
                } else {
                    lib4[r]
                },
        ensures
            forall|r: int| #[trigger] e.is_rep(r) ==> lib5[r] as int == e.ecount(r),
    {
        let own0 = own_stones(self.black, self.white, black_to_move);
        let opp0 = opp_stones(self.black, self.white, black_to_move);
        let own2 = own_stones(e.black, e.white, black_to_move);
        let opp2 = opp_stones(e.black, e.white, black_to_move);
        let rep0 = self.group_rep@;
        let rep2 = e.group_rep@;
        assert(BigBitBoard::<N, N, WORDS>::capacity() >= CELLS);
        assert(self.liberties@.len() == CELLS);
        assert forall|r: int| #[trigger] e.is_rep(r) implies lib5[r] as int == e.ecount(r) by {
            lemma_count_bound(|c: int| elib_of::<N, WORDS, CELLS>(e.black, e.white, e.group_rep@, r, c), CELLS as int);
            if r == index {
                if joins(rep2, opp2, index, 4, r) {
                    let k = choose|k: int| 0 <= k < 4 && #[trigger] neighbour_rep(rep2, opp2, index, k, r);
                    let nb = nbr(N as int, index, k);
                    lemma_nbr(N as int, index, k);
                    assert(e.occ(nb));
                    assert(e.black.has(index) == e.black.has(nb));
                }
            } else if bordered::<N>(rep2, cells, cells.len() as int, r) {
            } else {
                // `r` is a group untouched by the merge and the capture.
                assert(rep2[r] == rep1[r]);
                assert(!joins(rep1, own2, index, 4, rep1[r] as int));
                assert(!capture.has(r));
                assert(rep0[r] as int == r);
                assert(self.is_rep(r));
                assert(self.liberties@[r] as int == self.ecount(r));
                // Stones labelled `r` are the same before and after.
                assert forall|nb: int| 0 <= nb < CELLS implies (#[trigger] rep2[nb] as int == r) == (rep0[nb] as int == r) by {
                    if nb == index {
                    } else if capture.has(nb) {
                        if joins(rep1, own2, index, 4, rep1[nb] as int) {
                            let k = choose|k: int| 0 <= k < 4 && #[trigger] neighbour_rep(rep1, own2, index, k, rep1[nb] as int);
                            let m = nbr(N as int, index, k);
                            lemma_nbr(N as int, index, k);
                            if m != index {
                                assert(on(own0, m));
                                assert(self.occ(m));
                                assert(!capture.has(m));
                            }
                        }
                        if rep0[nb] as int == r {
                            assert(self.occ(nb));
                            assert(capture.has(r));
                        }
                    } else {
                        if joins(rep1, own2, index, 4, rep1[nb] as int) && rep0[nb] as int == r {
                            assert(rep1[nb] == rep1[r]);
                        }
                    }
                }
                let f0 = |c: int| elib_of::<N, WORDS, CELLS>(self.black, self.white, rep0, r, c);
                let f2 = |c: int| elib_of::<N, WORDS, CELLS>(e.black, e.white, rep2, r, c);
                // Whether the stone took one of `r`'s liberties.
                let took = joins(rep2, opp2, index, 4, r);
                assert(f0(index) == took) by {
                    if took {
                        let k = choose|k: int| 0 <= k < 4 && #[trigger] neighbour_rep(rep2, opp2, index, k, r);
                        lemma_nbr(N as int, index, k);
                        assert(rep0[nbr(N as int, index, k)] as int == r);
                    }
                    if f0(index) {
                        let k = if nbr(N as int, index, 0) >= 0 && 0 <= nbr(N as int, index, 0) < CELLS && rep0[nbr(N as int, index, 0)] as int == r {
                            0int
                        } else if nbr(N as int, index, 1) >= 0 && 0 <= nbr(N as int, index, 1) < CELLS && rep0[nbr(N as int, index, 1)] as int == r {
                            1int
                        } else if nbr(N as int, index, 2) >= 0 && 0 <= nbr(N as int, index, 2) < CELLS && rep0[nbr(N as int, index, 2)] as int == r {
                            2int
                        } else {
                            3int
                        };
                        let nb = nbr(N as int, index, k);
                        lemma_nbr(N as int, index, k);
                        assert(rep0[nb] as int == r);
                        assert(self.occ(nb));
                        assert(rep2[nb] as int == r);
                        if on(own0, nb) {
                            assert(on(own2, nb));
                            assert(neighbour_rep(rep1, own2, index, k, rep1[nb] as int));
                        }
                        assert(!capture.has(nb));
                        assert(on(opp2, nb));
                        assert(neighbour_rep(rep2, opp2, index, k, r));
                    }
                }
                assert forall|c: int| 0 <= c < CELLS && c != index implies #[trigger] f0(c) == f2(c) by {
                    if capture.has(c) {
                        if f2(c) {
                            let k = if nbr(N as int, c, 0) >= 0 && 0 <= nbr(N as int, c, 0) < CELLS && rep2[nbr(N as int, c, 0)] as int == r {
                                0int
                            } else if nbr(N as int, c, 1) >= 0 && 0 <= nbr(N as int, c, 1) < CELLS && rep2[nbr(N as int, c, 1)] as int == r {
                                1int
                            } else if nbr(N as int, c, 2) >= 0 && 0 <= nbr(N as int, c, 2) < CELLS && rep2[nbr(N as int, c, 2)] as int == r {
                                2int
                            } else {
                                3int
                            };
                            assert(in_prefix(cells, cells.len() as int, c));
                            let a = choose|a: int| 0 <= a < cells.len() && cells[a] as int == c;
                            assert(touch::<N>(rep2, cells[a] as int, k, r));
                            assert(bordered::<N>(rep2, cells, cells.len() as int, r));
                        }
                    }
                }
                if took {
                    lemma_count_drop(f0, f2, CELLS as int, index);
                } else {
                    lemma_count_ext(f0, f2, CELLS as int);
                }
            }
        }
    }
}

impl<const N: usize, const WORDS: usize, const CELLS: usize> GoEngine<N, WORDS, CELLS> {
    /// The groups do not depend on the member lists or the counts.
    proof fn lemma_groups_frame(self, e: Self)
        requires
            self.groups_ok(),
            e.black == self.black,
            e.white == self.white,
            e.group_rep == self.group_rep,
        ensures
            e.groups_ok(),
    {
        assert(e.group_rep@ == self.group_rep@);
        assert forall|i: int|
            0 <= i < CELLS && #[trigger] e.occ(i) implies linked(
                if e.black.has(i) {
                    e.black
                } else {
                    e.white
                },
                e.rep_at(i),
                i,
            ) by {
            assert(self.occ(i));
            assert(e.rep_at(i) == self.rep_at(i));
        }
    }

    /// What a legal move captures lies on the opposing stones in whole
    /// groups.
    proof fn lemma_capture_facts(self, black_to_move: bool, index: int, capture: BigBitBoard<N, N, WORDS>)
        requires
            self.inv(),
            0 <= index < CELLS,
            forall|x: int|
                0 <= x < BigBitBoard::<N, N, WORDS>::capacity() ==> (#[trigger] capture.has(x) <==> captures(
                    self.black,
                    self.white,
                    black_to_move,
                    index,
                    x,
                )),
        ensures
            forall|x: int|
                0 <= x < BigBitBoard::<N, N, WORDS>::capacity() && #[trigger] capture.has(x) ==> x < CELLS && on(
                    opp_stones(self.black, self.white, black_to_move),
                    x,
                ),
            self.whole_groups(capture),
    {
        let opp = opp_stones(self.black, self.white, black_to_move);
        assert(BigBitBoard::<N, N, WORDS>::capacity() >= CELLS);
        assert forall|x: int|
            0 <= x < BigBitBoard::<N, N, WORDS>::capacity() && #[trigger] capture.has(x) implies x < CELLS && on(opp, x) by {
            let k = if captured_via(self.black, self.white, black_to_move, index, 0, x) {
                0int
            } else if captured_via(self.black, self.white, black_to_move, index, 1, x) {
                1int
            } else if captured_via(self.black, self.white, black_to_move, index, 2, x) {
                2int
            } else {
                3int
            };
            lemma_linked_ends(opp, nbr(N as int, index, k), x);
        }
        assert forall|x: int, y: int|
            0 <= x < CELLS && 0 <= y < CELLS && #[trigger] capture.has(x) && self.occ(x) && #[trigger] self.group_rep@[y]
                == self.group_rep@[x] implies capture.has(y) by {
            let k = if captured_via(self.black, self.white, black_to_move, index, 0, x) {
                0int
            } else if captured_via(self.black, self.white, black_to_move, index, 1, x) {
                1int
            } else if captured_via(self.black, self.white, black_to_move, index, 2, x) {
                2int
            } else {
                3int
            };
            let nb = nbr(N as int, index, k);
            lemma_linked_ends(opp, nb, x);
            assert(self.board_of(x) == opp);
            self.lemma_member_iff(x, y);
            lemma_linked_trans(opp, nb, x, y);
            assert(captured_via(self.black, self.white, black_to_move, index, k, y));
        }
    }

    /// Play a stone at `index` for the side to move if that is legal: it
    /// goes on the board, the groups it captures come off, and the groups,
    /// member lists and liberty counts are brought up to date. Returns the
    /// captured stones, or `None` (and changes nothing) when the move is
    /// illegal.
    pub fn play(&mut self, black_to_move: bool, index: usize) -> (r: Option<BigBitBoard<N, N, WORDS>>)
        requires
            old(self).inv(),
            index < CELLS,
            empty_cell(old(self).black_stones(), old(self).white_stones(), index as int),
        ensures
            final(self).inv(),
            r.is_none() == !move_legal(old(self).black_stones(), old(self).white_stones(), black_to_move, index as int),
            r.is_none() ==> *final(self) == *old(self),
            r.is_some() ==> forall|x: int|
                0 <= x < BigBitBoard::<N, N, WORDS>::capacity() ==> (#[trigger] r.unwrap().has(x) <==> captures(
                    old(self).black_stones(),
                    old(self).white_stones(),
                    black_to_move,
                    index as int,
                    x,
                )),
            r.is_some() ==> forall|x: int|
                0 <= x < BigBitBoard::<N, N, WORDS>::capacity() ==> #[trigger] final(self).black_stones().has(x) == if black_to_move {
                    old(self).black_stones().has(x) || x == index
                } else {
                    old(self).black_stones().has(x) && !captures(
                        old(self).black_stones(),
                        old(self).white_stones(),
                        black_to_move,
                        index as int,
                        x,
                    )
                },
            r.is_some() ==> forall|x: int|
                0 <= x < BigBitBoard::<N, N, WORDS>::capacity() ==> #[trigger] final(self).white_stones().has(x) == if black_to_move {
                    old(self).white_stones().has(x) && !captures(
                        old(self).black_stones(),
                        old(self).white_stones(),
                        black_to_move,
                        index as int,
                        x,
                    )
                } else {
                    old(self).white_stones().has(x) || x == index
                },
            crate::go_engine::alive::groups_breathe(old(self).black_stones(), old(self).white_stones())
                ==> crate::go_engine::alive::groups_breathe(final(self).black_stones(), final(self).white_stones()),
    {
        let (legal, will_capture) = self.check(black_to_move, index);
        if !legal {
            return None;
        }
        let ghost e0 = *self;
        let ghost i = index as int;
        proof {
            e0.lemma_capture_facts(black_to_move, i, will_capture);
        }
        self.place_and_capture(black_to_move, index, will_capture);
        let ghost e1 = *self;
        proof {
            assert forall|x: int| 0 <= x < CELLS && #[trigger] e1.group_rep@[x] == index as u16 implies x == i by {
                if x != i && !will_capture.has(x) {
                    if e0.occ(x) {
                        let r = e0.rep_at(x);
                        assert(e0.group_rep@[r] as int == r);
                        assert(r == i);
                    }
                }
            }
            assert(BigBitBoard::<N, N, WORDS>::capacity() >= CELLS);
            assert(e1.black.has(i) == black_to_move);
            assert(e1.white.has(i) == !black_to_move);
        }
        self.merge_around(black_to_move, index);
        let ghost e2 = *self;
        proof {
            assert(e2.group_rep@[i] == index as u16);
            e2.lemma_rep_cycle(i);
        }
        self.rescan_liberties(index as u16);
        let ghost e3 = *self;
        proof {
            e2.lemma_partition_frame(e3);
            let opp2 = opp_stones(e2.black, e2.white, black_to_move);
            let own2 = own_stones(e2.black, e2.white, black_to_move);
            assert forall|r: int|
                #[trigger] joins(e3.group_rep@, opp_stones(e3.black, e3.white, black_to_move), i, 4, r) implies e3.liberties@[r] >= 1 by {
                let k = choose|k: int| 0 <= k < 4 && #[trigger] neighbour_rep(e2.group_rep@, opp2, i, k, r);
                let nb = nbr(N as int, i, k);
                lemma_nbr(N as int, i, k);
                assert(!will_capture.has(nb));
                assert(e0.occ(nb));
                assert(e1.group_rep@[nb] == e0.group_rep@[nb]);
                if joins(e1.group_rep@, own2, i, 4, e1.group_rep@[nb] as int) {
                    let k2 = choose|k2: int| 0 <= k2 < 4 && #[trigger] neighbour_rep(e1.group_rep@, own2, i, k2, e1.group_rep@[nb] as int);
                    let m = nbr(N as int, i, k2);
                    lemma_nbr(N as int, i, k2);
                    assert(e0.occ(m));
                    let q = e0.rep_at(nb);
                    assert(e0.black.has(q) == e0.black.has(nb));
                    assert(e0.black.has(q) == e0.black.has(m));
                }
                assert(e2.group_rep@[nb] == e0.group_rep@[nb]);
                assert(r == e0.rep_at(nb));
                assert(e0.is_rep(r));
                assert(r != i);
                assert(e3.liberties@[r] == e0.liberties@[r]);
                let f0 = |c: int| elib_of::<N, WORDS, CELLS>(e0.black, e0.white, e0.group_rep@, r, c);
                assert(f0(i)) by {
                    if k == 0 {
                    } else if k == 1 {
                    } else if k == 2 {
                    } else {
                    }
                }
                lemma_count_witness(f0, CELLS as int, i);
            }
        }
        self.release_liberties(black_to_move, index);
        let ghost e4 = *self;
        let cells = will_capture.set_indices();
        proof {
            e3.lemma_partition_frame(e4);
            assert(e4.is_rep(i));
            assert forall|a: int| 0 <= a < cells.len() implies #[trigger] cells@[a] < CELLS by {
                assert(will_capture.has(cells@[a] as int));
            }
        }
        self.rescan_bordering(index, &cells);
        proof {
            e4.lemma_partition_frame(*self);
            e0.lemma_groups_after(e2, black_to_move, i, will_capture, e1.group_rep@);
            e2.lemma_groups_frame(*self);
            assert forall|x: int|
                0 <= x < BigBitBoard::<N, N, WORDS>::capacity() && #[trigger] will_capture.has(x) implies in_prefix(
                    cells@,
                    cells.len() as int,
                    x,
                ) by {
                assert(cells@.contains(x as usize));
                let a = choose|a: int| 0 <= a < cells.len() && cells@[a] == x as usize;
                assert(cells@[a] as int == x);
            }
            e0.lemma_counts_after(
                e2,
                black_to_move,
                i,
                will_capture,
                e1.group_rep@,
                cells@,
                e3.liberties@,
                e4.liberties@,
                self.liberties@,
            );
            assert forall|r: int| #[trigger] self.is_rep(r) implies self.liberties@[r] as int == self.ecount(r) by {
                assert(e2.is_rep(r));
            }
        }
        proof {
            self.lemma_play_breathes(e0, black_to_move, i, will_capture);
        }
        Some(will_capture)
    }
}

/// A set of stones of `b` containing `start` that is closed under stepping
/// to neighbouring stones of `b` contains every stone linked to `start`.
proof fn lemma_closed_set_covers<const N: usize, const WORDS: usize>(
    b: BigBitBoard<N, N, WORDS>,
    g: BigBitBoard<N, N, WORDS>,
    start: int,
    x: int,
)
    requires
        N >= 1,
        g.has(start),
        forall|y: int, k: int|
            #[trigger] g.has(y) && 0 <= y < N * N && 0 <= k < 4 && on(b, #[trigger] nbr(N as int, y, k)) ==> g.has(
                nbr(N as int, y, k),
            ),
        linked(b, start, x),
    ensures
        g.has(x),
{
    let p = choose|p: Seq<int>| #[trigger] gpath(b, p) && p[0] == start && p.last() == x;
    lemma_closed_set_along(b, g, p, p.len() - 1);
}

proof fn lemma_closed_set_along<const N: usize, const WORDS: usize>(
    b: BigBitBoard<N, N, WORDS>,
    g: BigBitBoard<N, N, WORDS>,
    p: Seq<int>,
    k: int,
)
    requires
        N >= 1,
        g.has(p[0]),
        forall|y: int, d: int|
            #[trigger] g.has(y) && 0 <= y < N * N && 0 <= d < 4 && on(b, #[trigger] nbr(N as int, y, d)) ==> g.has(
                nbr(N as int, y, d),
            ),
        gpath(b, p),
        0 <= k < p.len(),
    ensures
        g.has(p[k]),
    decreases k,
{
    if k > 0 {
        lemma_closed_set_along(b, g, p, k - 1);
        let a = p[k - 1];
        let c = p[k];
        assert(adjacent(N as int, a, c));
        assert(on(b, a) && on(b, c));
        let d = if nbr(N as int, a, 0) == c {
            0int
        } else if nbr(N as int, a, 1) == c {
            1int
        } else if nbr(N as int, a, 2) == c {
            2int
        } else {
            3int
        };
        assert(nbr(N as int, a, d) == c);
        assert(g.has(nbr(N as int, a, d)));
    }
}

/// `y` is on the stack `st`.
pub open spec fn on_stack(st: Seq<usize>, y: int) -> bool {
    exists|a: int| 0 <= a < st.len() && st[a] as int == y
}

/// Exactly one point in range.
proof fn lemma_count_single(s: int, n: int)
    requires
        0 <= s < n,
    ensures
        count_upto(|c: int| c == s, n) == 1,
    decreases n,
{
    if n - 1 == s {
        lemma_count_extend(|c: int| c == s, 0, s);
    } else {
        lemma_count_single(s, n - 1);
    }
}

impl<const N: usize, const WORDS: usize, const CELLS: usize> GoEngine<N, WORDS, CELLS> {
    /// The group of `start` on `b`: every stone of `b` linked to it.
    fn flood(b: BigBitBoard<N, N, WORDS>, start: usize) -> (g: BigBitBoard<N, N, WORDS>)
        requires
            Self::geometry(),
            start < CELLS,
            b.has(start as int),
        ensures
            forall|x: int|
                0 <= x < BigBitBoard::<N, N, WORDS>::capacity() ==> (#[trigger] g.has(x) <==> (x < CELLS && linked(
                    b,
                    start as int,
                    x,
                ))),
    {
        let ghost s = start as int;
        let mut group = BigBitBoard::<N, N, WORDS>::empty();
        group.set(start);
        proof {
            lemma_linked_refl(b, s);
            assert forall|c: int| 0 <= c < CELLS implies #[trigger] group.has(c) == (c == s) by {}
            lemma_count_single(s, CELLS as int);
            lemma_count_ext(|c: int| group.has(c), |c: int| c == s, CELLS as int);
        }
        let mut stack: Vec<usize> = Vec::new();
        stack.push(start);
        let ghost mut size: int = 1;
        proof {
            assert forall|y: int| y != s implies !#[trigger] on_stack(stack@, y) by {}
            assert(stack@[0] as int == s);
        }
        while stack.len() > 0
            invariant
                Self::geometry(),
                s == start as int,
                group.has(s),
                size == count_upto(|c: int| group.has(c), CELLS as int),
                size <= CELLS,
                forall|x: int|
                    0 <= x < BigBitBoard::<N, N, WORDS>::capacity() && #[trigger] group.has(x) ==> x < CELLS && linked(
                        b,
                        s,
                        x,
                    ),
                forall|a: int| 0 <= a < stack.len() ==> #[trigger] stack@[a] < CELLS && group.has(stack@[a] as int),
                forall|y: int, k: int|
                    #[trigger] group.has(y) && 0 <= y < CELLS && !on_stack(stack@, y) && 0 <= k < 4 && on(
                        b,
                        #[trigger] nbr(N as int, y, k),
                    ) ==> group.has(nbr(N as int, y, k)),
            decreases 2 * (CELLS - size) + stack.len(),
        {
            let ghost measure0 = 2 * (CELLS - size) + stack.len();
            let ghost full = stack@;
            let cell = stack.pop().unwrap();
            proof {
                assert(full == stack@.push(cell));
                assert forall|y: int| #[trigger] on_stack(stack@, y) implies on_stack(full, y) by {
                    let a = choose|a: int| 0 <= a < stack@.len() && stack@[a] as int == y;
                    assert(full[a] as int == y);
                }
                assert forall|y: int| y != cell as int && !on_stack(stack@, y) implies !#[trigger] on_stack(full, y) by {
                    if on_stack(full, y) {
                        let a = choose|a: int| 0 <= a < full.len() && full[a] as int == y;
                        if a < stack@.len() {
                            assert(stack@[a] as int == y);
                        }
                    }
                }
            }
            let ghost size0 = size;
            let ghost len0 = stack.len() as int;
            let nbs = Self::neighbors(cell);
            let mut k: usize = 0;
            while k < 4
                invariant
                    Self::geometry(),
                    s == start as int,
                    group.has(s),
                    size == count_upto(|c: int| group.has(c), CELLS as int),
                    size <= CELLS,
                    (cell as int) < CELLS,
                    group.has(cell as int),
                    k <= 4,
                    size - size0 == stack.len() - len0,
                    size >= size0,
                    measure0 == 2 * (CELLS - size0) + len0 + 1,
                    forall|t: int|
                        0 <= t < 4 ==> #[trigger] nbs[t] == if nbr(N as int, cell as int, t) >= 0 {
                            Some(nbr(N as int, cell as int, t) as usize)
                        } else {
                            None
                        },
                    forall|x: int|
                        0 <= x < BigBitBoard::<N, N, WORDS>::capacity() && #[trigger] group.has(x) ==> x < CELLS
                            && linked(b, s, x),
                    forall|a: int| 0 <= a < stack.len() ==> #[trigger] stack@[a] < CELLS && group.has(stack@[a] as int),
                    forall|d: int|
                        0 <= d < k && on(b, #[trigger] nbr(N as int, cell as int, d)) ==> group.has(
                            nbr(N as int, cell as int, d),
                        ),
                    forall|y: int, d: int|
                        #[trigger] group.has(y) && 0 <= y < CELLS && !on_stack(stack@, y) && y != cell && 0
                            <= d < 4 && on(b, #[trigger] nbr(N as int, y, d)) ==> group.has(nbr(N as int, y, d)),
                decreases 4 - k,
            {
                proof {
                    lemma_nbr(N as int, cell as int, k as int);
                }
                if let Some(nb) = nbs[k] {
                    if b.get(nb) && !group.get(nb) {
                        let ghost before = group;
                        let ghost stack_before = stack@;
                        group.set(nb);
                        stack.push(nb);
                        proof {
                            lemma_linked_step(b, s, cell as int, nb as int);
                            lemma_count_drop(|c: int| group.has(c), |c: int| before.has(c), CELLS as int, nb as int);
                            lemma_count_bound(|c: int| group.has(c), CELLS as int);
                            size = size + 1;
                            assert forall|y: int| #[trigger] on_stack(stack_before, y) implies on_stack(stack@, y) by {
                                let a = choose|a: int| 0 <= a < stack_before.len() && stack_before[a] as int == y;
                                assert(stack@[a] as int == y);
                            }
                            assert(stack@[stack@.len() - 1] == nb);
                            assert(on_stack(stack@, nb as int));
                            assert forall|y: int, d: int|
                                #[trigger] group.has(y) && 0 <= y < CELLS && !on_stack(stack@, y) && y != cell && 0 <= d < 4
                                    && on(b, #[trigger] nbr(N as int, y, d)) implies group.has(nbr(N as int, y, d)) by {
                                assert(y != nb as int);
                                assert(before.has(y));
                                assert(!on_stack(stack_before, y));
                                assert(before.has(nbr(N as int, y, d)));
                            }
                        }
                    }
                }
                k += 1;
            }
        }
        proof {
            assert forall|x: int|
                0 <= x < BigBitBoard::<N, N, WORDS>::capacity() implies (#[trigger] group.has(x) <==> (x < CELLS && linked(b, s, x))) by {
                if x < CELLS && linked(b, s, x) {
                    lemma_closed_set_covers(b, group, s, x);
                }
            }
        }
        group
    }
}

impl<const N: usize, const WORDS: usize, const CELLS: usize> GoEngine<N, WORDS, CELLS> {
    /// The group of `x` has a stone below `s`.
    spec fn reached(&self, x: int, s: int) -> bool {
        exists|y: int| 0 <= y < s && #[trigger] linked(self.board_of(x), y, x)
    }

    /// Partway through building from scratch: exactly the groups with a
    /// stone below `s` are in `assigned`, each labelled by its lowest stone,
    /// with a member list; other stones are unlabelled.
    spec fn built_core(&self, assigned: BigBitBoard<N, N, WORDS>, s: int) -> bool {
        &&& self.boards_ok()
        &&& forall|x: int|
            0 <= x < BigBitBoard::<N, N, WORDS>::capacity() ==> (#[trigger] assigned.has(x) <==> (x < CELLS && self.occ(x)
                && self.reached(x, s)))
        &&& forall|x: int| 0 <= x < CELLS && !assigned.has(x) ==> #[trigger] self.group_rep@[x] == SENTINEL
        &&& forall|x: int|
            0 <= x < CELLS && #[trigger] assigned.has(x) ==> {
                let r = self.rep_at(x);
                &&& 0 <= r < s
                &&& self.group_rep@[r] as int == r
                &&& assigned.has(r)
                &&& linked(self.board_of(x), r, x)
            }
        &&& forall|x: int, y: int|
            0 <= x < CELLS && #[trigger] assigned.has(x) && #[trigger] linked(self.board_of(x), x, y) ==> self.group_rep@[y]
                == self.group_rep@[x]
        &&& forall|r: int| #[trigger] self.is_rep(r) ==> exists|len: nat| self.cycle(r, len)
    }

    /// A cell already assigned, or empty, adds no group.
    proof fn lemma_built_skip(&self, assigned: BigBitBoard<N, N, WORDS>, s: int)
        requires
            self.built_core(assigned, s),
            0 <= s < CELLS,
            !self.occ(s) || assigned.has(s),
        ensures
            self.built_core(assigned, s + 1),
    {
        assert(BigBitBoard::<N, N, WORDS>::capacity() >= CELLS);
        assert forall|x: int| 0 <= x < CELLS implies #[trigger] self.reached(x, s + 1) == self.reached(x, s) by {
            if self.reached(x, s + 1) && !self.reached(x, s) {
                let y = choose|y: int| 0 <= y < s + 1 && #[trigger] linked(self.board_of(x), y, x);
                assert(y == s);
                lemma_linked_ends(self.board_of(x), s, x);
                assert(self.occ(s));
                assert(assigned.has(s));
                assert(self.reached(s, s));
                let z = choose|z: int| 0 <= z < s && #[trigger] linked(self.board_of(s), z, s);
                assert(self.board_of(s) == self.board_of(x));
                lemma_linked_trans(self.board_of(x), z, s, x);
            }
            if self.reached(x, s) {
                let y = choose|y: int| 0 <= y < s && #[trigger] linked(self.board_of(x), y, x);
                assert(linked(self.board_of(x), y, x));
            }
        }
    }

    /// Label the group of the unassigned stone `start` by `start`, thread its
    /// member list in index order, and count its liberties.
    fn build_group(&mut self, assigned: &mut BigBitBoard<N, N, WORDS>, start: usize)
        requires
            old(self).built_core(*old(assigned), start as int),
            old(self).counts_ok(),
            start < CELLS,
            old(self).occ(start as int),
            !old(assigned).has(start as int),
        ensures
            final(self).built_core(*final(assigned), start + 1),
            final(self).counts_ok(),
            final(self).black == old(self).black,
            final(self).white == old(self).white,
            final(self).occupied == old(self).occupied,
    {
        let ghost e0 = *self;
        let ghost a0 = *assigned;
        let ghost s = start as int;
        let own_board = if self.black.get(start) {
            self.black
        } else {
            self.white
        };
        assert(own_board == e0.board_of(s));
        let group = Self::flood(own_board, start);
        *assigned = assigned.or(group);
        let members = group.set_indices();
        proof {
            e0.lemma_group_facts(a0, group, members@, s);
        }
        let mut t: usize = 0;
        while t < members.len()
            invariant
                e0.built_core(a0, s),
                s == start as int,
                (start as int) < CELLS,
                members@.len() >= 1,
                members@[0] as int == s,
                forall|a: int, b: int| 0 <= a < b < members.len() ==> members@[a] < members@[b],
                forall|a: int| 0 <= a < members.len() ==> #[trigger] members@[a] < CELLS,
                self.black == e0.black,
                self.white == e0.white,
                self.occupied == e0.occupied,
                self.liberties == e0.liberties,
                t <= members.len(),
                self.group_rep@.len() == CELLS,
                self.chain_next@.len() == CELLS,
                forall|x: int|
                    0 <= x < CELLS ==> #[trigger] self.group_rep@[x] == if in_prefix(members@, t as int, x) {
                        start as u16
                    } else {
                        e0.group_rep@[x]
                    },
                forall|a: int|
                    0 <= a < t ==> #[trigger] self.chain_next@[members@[a] as int] as int == if a + 1 < members.len() {
                        members@[a + 1] as int
                    } else {
                        members@[0] as int
                    },
                forall|x: int| 0 <= x < CELLS && !in_prefix(members@, t as int, x) ==> #[trigger] self.chain_next@[x] == e0.chain_next@[x],
            decreases members.len() - t,
        {
            let cell = members[t];
            let next = if t + 1 < members.len() {
                members[t + 1]
            } else {
                members[0]
            };
            let ghost before_next = self.chain_next@;
            self.group_rep[cell] = start as u16;
            self.chain_next[cell] = next as u16;
            proof {
                assert forall|x: int| #[trigger] in_prefix(members@, t + 1, x) == (in_prefix(members@, t as int, x) || x == cell as int) by {
                    if x == cell as int {
                        assert(members@[t as int] as int == x);
                    }
                    if in_prefix(members@, t + 1, x) {
                        let a = choose|a: int| 0 <= a < t + 1 && members@[a] as int == x;
                        if a < t {
                            assert(in_prefix(members@, t as int, x));
                        }
                    }
                    if in_prefix(members@, t as int, x) {
                        let a = choose|a: int| 0 <= a < t && members@[a] as int == x;
                        assert(0 <= a < t + 1 && members@[a] as int == x);
                    }
                }
                assert forall|a: int| 0 <= a < t implies members@[a] != cell by {
                    assert(members@[a] < members@[t as int]);
                }
            }
            t += 1;
        }
        let ghost e1 = *self;
        proof {
            e0.lemma_group_built(e1, a0, *assigned, group, members@, s);
            e1.lemma_rep_cycle_core(*assigned, s + 1, s);
        }
        self.rescan_liberties(start as u16);
        proof {
            assert(self.group_rep@ == e1.group_rep@);
            assert(self.chain_next@ == e1.chain_next@);
            assert forall|r: int| #[trigger] self.is_rep(r) implies exists|len: nat| self.cycle(r, len) by {
                assert(e1.is_rep(r));
                let len = choose|len: nat| e1.cycle(r, len);
                assert(e1.cycle(r, len));
                assert forall|x: int| #[trigger] self.member(r, x) == e1.member(r, x) by {}
                assert(self.cycle(r, len)) by {
                    assert forall|k: nat| 0 < k < len implies #[trigger] walk(self.chain_next@, r, k) != r by {
                        assert(walk(e1.chain_next@, r, k) != r);
                    }
                    assert forall|k: nat| k < len implies self.member(r, #[trigger] walk(self.chain_next@, r, k)) by {
                        assert(e1.member(r, walk(e1.chain_next@, r, k)));
                    }
                    assert forall|x: int| #[trigger] self.member(r, x) implies exists|k: nat| k < len && #[trigger] walk(self.chain_next@, r, k) == x by {
                        assert(e1.member(r, x));
                        let k = choose|k: nat| k < len && #[trigger] walk(e1.chain_next@, r, k) == x;
                        assert(walk(self.chain_next@, r, k) == x);
                    }
                }
            }
            assert(self.built_core(*assigned, s + 1)) by {
                assert forall|x: int| #[trigger] self.reached(x, s + 1) == e1.reached(x, s + 1) by {
                    assert(self.board_of(x) == e1.board_of(x));
                    if self.reached(x, s + 1) {
                        let y = choose|y: int| 0 <= y < s + 1 && #[trigger] linked(self.board_of(x), y, x);
                        assert(linked(e1.board_of(x), y, x));
                    }
                    if e1.reached(x, s + 1) {
                        let y = choose|y: int| 0 <= y < s + 1 && #[trigger] linked(e1.board_of(x), y, x);
                        assert(linked(self.board_of(x), y, x));
                    }
                }
                assert forall|x: int| 0 <= x < CELLS implies #[trigger] self.rep_at(x) == e1.rep_at(x) by {}
                assert forall|x: int| #[trigger] self.board_of(x) == e1.board_of(x) by {}
                assert forall|x: int| #[trigger] self.occ(x) == e1.occ(x) by {}
            }
            assert forall|r: int| #[trigger] self.is_rep(r) implies self.liberties@[r] as int == self.ecount(r) by {
                assert(e1.is_rep(r));
                assert(ecount_of::<N, WORDS, CELLS>(self.black, self.white, self.group_rep@, r) == ecount_of::<N, WORDS, CELLS>(
                    e1.black,
                    e1.white,
                    e1.group_rep@,
                    r,
                ));
                if r == s {
                    lemma_count_bound(|c: int| elib_of::<N, WORDS, CELLS>(e1.black, e1.white, e1.group_rep@, r, c), CELLS as int);
                    assert(self.liberties@[r] == e1.ecount(r) as u16);
                } else {
                    assert(self.liberties@[r] == e1.liberties@[r]);
                }
            }
        }
    }
}

/// A member list threaded in the order of `members` walks through it.
proof fn lemma_walk_members(next: Seq<u16>, members: Seq<usize>, k: nat)
    requires
        members.len() >= 1,
        k < members.len(),
        forall|a: int|
            0 <= a < members.len() ==> #[trigger] next[members[a] as int] as int == if a + 1 < members.len() {
                members[a + 1] as int
            } else {
                members[0] as int
            },
    ensures
        walk(next, members[0] as int, k) == members[k as int] as int,
    decreases k,
{
    if k > 0 {
        lemma_walk_members(next, members, (k - 1) as nat);
        assert(next[members[k - 1] as int] as int == members[k as int] as int);
    }
}

impl<const N: usize, const WORDS: usize, const CELLS: usize> GoEngine<N, WORDS, CELLS> {
    /// The members of a new group, listed in index order, start at the
    /// group's lowest stone, which is `s`.
    proof fn lemma_group_facts(
        self,
        a0: BigBitBoard<N, N, WORDS>,
        group: BigBitBoard<N, N, WORDS>,
        members: Seq<usize>,
        s: int,
    )
        requires
            self.built_core(a0, s),
            0 <= s < CELLS,
            self.occ(s),
            !a0.has(s),
            forall|x: int|
                0 <= x < BigBitBoard::<N, N, WORDS>::capacity() ==> (#[trigger] group.has(x) <==> (x < CELLS && linked(
                    self.board_of(s),
                    s,
                    x,
                ))),
            forall|a: int, b: int| 0 <= a < b < members.len() ==> members[a] < members[b],
            forall|a: int|
                0 <= a < members.len() ==> members[a] < BigBitBoard::<N, N, WORDS>::capacity() && group.has(
                    #[trigger] members[a] as int,
                ),
            forall|i: int|
                0 <= i < BigBitBoard::<N, N, WORDS>::capacity() && #[trigger] group.has(i) ==> members.contains(
                    i as usize,
                ),
        ensures
            members.len() >= 1,
            members[0] as int == s,
            forall|a: int| 0 <= a < members.len() ==> #[trigger] members[a] < CELLS,
    {
        assert(BigBitBoard::<N, N, WORDS>::capacity() >= CELLS);
        let b = self.board_of(s);
        lemma_linked_refl(b, s);
        assert(group.has(s));
        assert(members.contains(s as usize));
        let a = choose|a: int| 0 <= a < members.len() && members[a] == s as usize;
        assert forall|c: int| 0 <= c < members.len() implies #[trigger] members[c] < CELLS by {
            assert(group.has(members[c] as int));
        }
        let m0 = members[0] as int;
        if m0 != s {
            assert(members[0] < members[a]);
            assert(group.has(m0));
            lemma_linked_symm(b, s, m0);
            assert(linked(self.board_of(s), m0, s));
            assert(self.reached(s, s));
        }
    }

    /// After labelling and threading a new group, the build invariant holds
    /// one cell further, and every other group keeps its count.
    #[verifier::rlimit(60)]
    proof fn lemma_group_built(
        self,
        e: Self,
        a0: BigBitBoard<N, N, WORDS>,
        a1: BigBitBoard<N, N, WORDS>,
        group: BigBitBoard<N, N, WORDS>,
        members: Seq<usize>,
        s: int,
    )
        requires
            self.built_core(a0, s),
            self.counts_ok(),
            0 <= s < CELLS,
            self.occ(s),
            !a0.has(s),
            forall|x: int|
                0 <= x < BigBitBoard::<N, N, WORDS>::capacity() ==> (#[trigger] group.has(x) <==> (x < CELLS && linked(
                    self.board_of(s),
                    s,
                    x,
                ))),
            forall|x: int|
                0 <= x < BigBitBoard::<N, N, WORDS>::capacity() ==> (#[trigger] a1.has(x) <==> (a0.has(x) || group.has(x))),
            members.len() >= 1,
            members[0] as int == s,
            forall|a: int, b: int| 0 <= a < b < members.len() ==> members[a] < members[b],
            forall|a: int| 0 <= a < members.len() ==> #[trigger] members[a] < CELLS,
            forall|a: int|
                0 <= a < members.len() ==> members[a] < BigBitBoard::<N, N, WORDS>::capacity() && group.has(
                    #[trigger] members[a] as int,
                ),
            forall|i: int|
                0 <= i < BigBitBoard::<N, N, WORDS>::capacity() && #[trigger] group.has(i) ==> members.contains(
                    i as usize,
                ),
            e.black == self.black,
            e.white == self.white,
            e.occupied == self.occupied,
            e.liberties == self.liberties,
            e.group_rep@.len() == CELLS,
            e.chain_next@.len() == CELLS,
            forall|x: int|
                0 <= x < CELLS ==> #[trigger] e.group_rep@[x] == if in_prefix(members, members.len() as int, x) {
                    s as u16
                } else {
                    self.group_rep@[x]
                },
            forall|a: int|
                0 <= a < members.len() ==> #[trigger] e.chain_next@[members[a] as int] as int == if a + 1 < members.len() {
                    members[a + 1] as int
                } else {
                    members[0] as int
                },
            forall|x: int|
                0 <= x < CELLS && !in_prefix(members, members.len() as int, x) ==> #[trigger] e.chain_next@[x]
                    == self.chain_next@[x],
        ensures
            e.built_core(a1, s + 1),
            e.is_rep(s),
            forall|r: int| r != s && #[trigger] e.is_rep(r) ==> e.liberties@[r] as int == e.ecount(r),
    {
        let cap = BigBitBoard::<N, N, WORDS>::capacity();
        assert(cap >= CELLS);
        let bs = self.board_of(s);
        assert forall|x: int| #[trigger] e.board_of(x) == self.board_of(x) by {}
        assert forall|x: int| #[trigger] e.occ(x) == self.occ(x) by {}
        // The listed members are exactly the group.
        assert forall|x: int| 0 <= x < CELLS implies #[trigger] in_prefix(members, members.len() as int, x) == group.has(x) by {
            if group.has(x) {
                assert(members.contains(x as usize));
                let a = choose|a: int| 0 <= a < members.len() && members[a] == x as usize;
                assert(members[a] as int == x);
            }
            if in_prefix(members, members.len() as int, x) {
                let a = choose|a: int| 0 <= a < members.len() && members[a] as int == x;
                assert(group.has(members[a] as int));
            }
        }
        // No stone of the new group was assigned before.
        assert forall|x: int| 0 <= x < CELLS && #[trigger] group.has(x) implies !a0.has(x) && self.group_rep@[x] == SENTINEL by {
            if a0.has(x) {
                assert(self.reached(x, s));
                let y = choose|y: int| 0 <= y < s && #[trigger] linked(self.board_of(x), y, x);
                lemma_linked_ends(bs, s, x);
                assert(self.board_of(x) == bs);
                lemma_linked_symm(bs, s, x);
                lemma_linked_trans(bs, y, x, s);
                assert(self.reached(s, s));
            }
        }
        // Reaching below `s + 1` is reaching below `s`, or being in the new group.
        assert forall|x: int| 0 <= x < CELLS && #[trigger] self.occ(x) implies (e.reached(x, s + 1) <==> (self.reached(x, s)
            || group.has(x))) by {
            if e.reached(x, s + 1) && !self.reached(x, s) {
                let y = choose|y: int| 0 <= y < s + 1 && #[trigger] linked(e.board_of(x), y, x);
                assert(y == s);
                lemma_linked_ends(self.board_of(x), s, x);
                assert(self.board_of(x) == bs);
            }
            if group.has(x) {
                lemma_linked_ends(bs, s, x);
                assert(self.board_of(x) == bs);
                assert(linked(e.board_of(x), s, x));
            }
            if self.reached(x, s) {
                let y = choose|y: int| 0 <= y < s && #[trigger] linked(self.board_of(x), y, x);
                assert(linked(e.board_of(x), y, x));
            }
        }
        assert forall|x: int| 0 <= x < cap implies (#[trigger] a1.has(x) <==> (x < CELLS && e.occ(x) && e.reached(x, s + 1))) by {
            if group.has(x) {
                lemma_linked_ends(bs, s, x);
            }
            if x < CELLS {
                assert(e.occ(x) == self.occ(x));
                if self.occ(x) {
                    assert(e.reached(x, s + 1) <==> (self.reached(x, s) || group.has(x)));
                }
                assert(a0.has(x) <==> (self.occ(x) && self.reached(x, s)));
            } else {
                assert(!a0.has(x));
                assert(!group.has(x));
            }
        }
        assert forall|x: int|
            0 <= x < CELLS && #[trigger] a1.has(x) implies {
                let r = e.rep_at(x);
                &&& 0 <= r < s + 1
                &&& e.group_rep@[r] as int == r
                &&& a1.has(r)
                &&& linked(e.board_of(x), r, x)
            } by {
            if group.has(x) {
                lemma_linked_refl(bs, s);
                assert(group.has(s));
                lemma_linked_ends(bs, s, x);
                assert(self.board_of(x) == bs);
            } else {
                let r = self.rep_at(x);
                assert(a0.has(r));
                assert(!group.has(r));
            }
        }
        assert forall|x: int, y: int|
            0 <= x < CELLS && #[trigger] a1.has(x) && #[trigger] linked(e.board_of(x), x, y) implies e.group_rep@[y]
                == e.group_rep@[x] by {
            lemma_linked_ends(e.board_of(x), x, y);
            if group.has(x) {
                lemma_linked_ends(bs, s, x);
                assert(self.board_of(x) == bs);
                lemma_linked_trans(bs, s, x, y);
                assert(group.has(y));
            } else {
                assert(a0.has(x));
                assert(self.group_rep@[y] == self.group_rep@[x]);
                assert(self.reached(x, s));
                let z = choose|z: int| 0 <= z < s && #[trigger] linked(self.board_of(x), z, x);
                lemma_linked_trans(self.board_of(x), z, x, y);
                assert(self.board_of(y) == self.board_of(x));
                assert(self.reached(y, s));
                assert(a0.has(y));
                assert(!group.has(y));
            }
        }
        // The new group's member list.
        let len = members.len() as nat;
        let next = e.chain_next@;
        assert forall|k: nat| k < len implies #[trigger] walk(next, s, k) == members[k as int] as int by {
            lemma_walk_members(next, members, k);
        }
        assert(walk(next, s, len) == s) by {
            assert(walk(next, s, (len - 1) as nat) == members[len - 1] as int);
            assert(next[members[len - 1] as int] as int == members[0] as int);
        }
        assert(e.cycle(s, len)) by {
            assert forall|k: nat| 0 < k < len implies #[trigger] walk(next, s, k) != s by {
                assert(members[0] < members[k as int]);
            }
            assert forall|k: nat| k < len implies e.member(s, #[trigger] walk(next, s, k)) by {
                let x = members[k as int] as int;
                assert(in_prefix(members, members.len() as int, x));
            }
            assert forall|x: int| #[trigger] e.member(s, x) implies exists|k: nat| k < len && #[trigger] walk(next, s, k) == x by {
                if !in_prefix(members, members.len() as int, x) {
                    if a0.has(x) {
                        assert(self.rep_at(x) < s);
                    } else {
                        assert(self.group_rep@[x] == SENTINEL);
                    }
                }
                let a = choose|a: int| 0 <= a < members.len() && members[a] as int == x;
                assert(walk(next, s, a as nat) == x);
            }
        }
        assert(e.is_rep(s)) by {
            assert(in_prefix(members, members.len() as int, s)) by {
                assert(members[0] as int == s);
            }
        }
        // Every other group is as it was.
        assert forall|r: int| #[trigger] e.is_rep(r) && r != s implies self.is_rep(r) && (forall|x: int| #[trigger] e.member(r, x) == self.member(r, x)) by {
            if in_prefix(members, members.len() as int, r) {
            }
            assert forall|x: int| #[trigger] e.member(r, x) == self.member(r, x) by {
                if 0 <= x < CELLS && in_prefix(members, members.len() as int, x) {
                    assert(self.group_rep@[x] == SENTINEL);
                }
            }
        }
        assert forall|r: int| #[trigger] e.is_rep(r) implies exists|l: nat| e.cycle(r, l) by {
            if r == s {
                assert(e.cycle(s, len));
            } else {
                assert(self.is_rep(r));
                let lr = choose|l: nat| self.cycle(r, l);
                assert(self.cycle(r, lr));
                let next0 = self.chain_next@;
                assert forall|j: nat| j < lr implies next[#[trigger] walk(next0, r, j)] == next0[walk(next0, r, j)] by {
                    let y = walk(next0, r, j);
                    assert(self.member(r, y));
                    if in_prefix(members, members.len() as int, y) {
                        assert(self.group_rep@[y] == SENTINEL);
                    }
                }
                assert forall|k: nat| k <= lr implies #[trigger] walk(next, r, k) == walk(next0, r, k) by {
                    lemma_walk_agree(next0, next, r, k);
                }
                assert(e.cycle(r, lr)) by {
                    assert forall|k: nat| 0 < k < lr implies #[trigger] walk(next, r, k) != r by {
                        assert(walk(next0, r, k) != r);
                    }
                    assert forall|k: nat| k < lr implies e.member(r, #[trigger] walk(next, r, k)) by {
                        assert(self.member(r, walk(next0, r, k)));
                    }
                    assert forall|x: int| #[trigger] e.member(r, x) implies exists|k: nat| k < lr && #[trigger] walk(next, r, k) == x by {
                        assert(self.member(r, x));
                        let k = choose|k: nat| k < lr && #[trigger] walk(next0, r, k) == x;
                        assert(walk(next, r, k) == x);
                    }
                }
            }
        }
        assert forall|r: int| r != s && #[trigger] e.is_rep(r) implies e.liberties@[r] as int == e.ecount(r) by {
            assert(self.is_rep(r));
            assert(self.liberties@[r] as int == self.ecount(r));
            assert forall|c: int| 0 <= c < CELLS implies #[trigger] elib_of::<N, WORDS, CELLS>(e.black, e.white, e.group_rep@, r, c)
                == elib_of::<N, WORDS, CELLS>(self.black, self.white, self.group_rep@, r, c) by {
                assert forall|nb: int| 0 <= nb < CELLS implies (#[trigger] e.group_rep@[nb] as int == r) == (self.group_rep@[nb] as int == r) by {
                    if in_prefix(members, members.len() as int, nb) {
                        assert(self.group_rep@[nb] == SENTINEL);
                    }
                }
            }
            lemma_count_ext(
                |c: int| elib_of::<N, WORDS, CELLS>(e.black, e.white, e.group_rep@, r, c),
                |c: int| elib_of::<N, WORDS, CELLS>(self.black, self.white, self.group_rep@, r, c),
                CELLS as int,
            );
        }
    }

    proof fn lemma_rep_cycle_core(&self, assigned: BigBitBoard<N, N, WORDS>, s: int, r: int)
        requires
            self.built_core(assigned, s),
            self.is_rep(r),
        ensures
            self.boards_ok(),
            exists|len: nat| self.cycle(r, len),
    {
    }
}

impl<const N: usize, const WORDS: usize, const CELLS: usize> GoEngine<N, WORDS, CELLS> {
    /// Once every cell has been passed, the build invariant is the engine's.
    proof fn lemma_built_done(&self, assigned: BigBitBoard<N, N, WORDS>)
        requires
            self.built_core(assigned, CELLS as int),
            self.counts_ok(),
        ensures
            self.inv(),
    {
        assert(BigBitBoard::<N, N, WORDS>::capacity() >= CELLS);
        assert forall|x: int| 0 <= x < CELLS && #[trigger] self.occ(x) implies assigned.has(x) by {
            lemma_linked_refl(self.board_of(x), x);
            assert(linked(self.board_of(x), x, x));
        }
        assert forall|i: int| 0 <= i < CELLS implies ((#[trigger] self.group_rep@[i] == SENTINEL) <==> !self.occ(i)) by {
            if self.occ(i) {
                assert(assigned.has(i));
            }
        }
        assert forall|i: int|
            0 <= i < CELLS && #[trigger] self.occ(i) implies {
                let r = self.rep_at(i);
                &&& 0 <= r < CELLS
                &&& self.group_rep@[r] as int == r
                &&& self.black.has(r) == self.black.has(i)
            } by {
            assert(assigned.has(i));
            let r = self.rep_at(i);
            lemma_linked_ends(self.board_of(i), r, i);
        }
        assert forall|i: int, k: int|
            on(self.black, i) && 0 <= k < 4 && on(self.black, #[trigger] nbr(N as int, i, k)) implies self.group_rep@[nbr(N as int, i, k)]
                == #[trigger] self.group_rep@[i] by {
            let j = nbr(N as int, i, k);
            lemma_nbr(N as int, i, k);
            lemma_linked_refl(self.black, i);
            assert(adjacent(N as int, i, j)) by {
                if k == 0 {
                } else if k == 1 {
                } else if k == 2 {
                } else {
                }
            }
            lemma_linked_step(self.black, i, i, j);
            assert(self.occ(i));
            assert(assigned.has(i));
            assert(self.board_of(i) == self.black);
        }
        assert forall|i: int, k: int|
            on(self.white, i) && 0 <= k < 4 && on(self.white, #[trigger] nbr(N as int, i, k)) implies self.group_rep@[nbr(N as int, i, k)]
                == #[trigger] self.group_rep@[i] by {
            let j = nbr(N as int, i, k);
            lemma_nbr(N as int, i, k);
            lemma_linked_refl(self.white, i);
            assert(adjacent(N as int, i, j)) by {
                if k == 0 {
                } else if k == 1 {
                } else if k == 2 {
                } else {
                }
            }
            lemma_linked_step(self.white, i, i, j);
            assert(self.occ(i));
            assert(assigned.has(i));
            assert(!self.black.has(i));
            assert(self.board_of(i) == self.white);
        }
        assert forall|i: int|
            0 <= i < CELLS && #[trigger] self.occ(i) implies linked(
                if self.black.has(i) {
                    self.black
                } else {
                    self.white
                },
                self.rep_at(i),
                i,
            ) by {
            assert(assigned.has(i));
        }
    }

    /// The engine for a position given by its stones, with every group,
    /// member list and liberty count computed from scratch.
    pub fn from_boards(black: BigBitBoard<N, N, WORDS>, white: BigBitBoard<N, N, WORDS>) -> (e: Self)
        requires
            Self::geometry(),
            forall|i: int| 0 <= i < BigBitBoard::<N, N, WORDS>::capacity() ==> !(#[trigger] black.has(i) && white.has(i)),
            forall|i: int| CELLS <= i < BigBitBoard::<N, N, WORDS>::capacity() ==> !#[trigger] black.has(i),
            forall|i: int| CELLS <= i < BigBitBoard::<N, N, WORDS>::capacity() ==> !#[trigger] white.has(i),
        ensures
            e.inv(),
            e.black_stones() == black,
            e.white_stones() == white,
    {
        let mut engine = Self::new();
        proof {
            assert(BigBitBoard::<N, N, WORDS>::capacity() >= CELLS);
            assert forall|x: int| 0 <= x < CELLS implies #[trigger] engine.group_rep@[x] == SENTINEL by {
                assert(!engine.black_stones().has(x));
                assert(!engine.white_stones().has(x));
                assert(!engine.occ(x));
            }
        }
        let ghost rep0 = engine.group_rep@;
        engine.black = black;
        engine.white = white;
        let occupied = black.or(white);
        engine.occupied = occupied;
        let mut assigned = BigBitBoard::<N, N, WORDS>::empty();
        proof {
            assert(BigBitBoard::<N, N, WORDS>::capacity() >= CELLS);
            assert forall|x: int| #[trigger] engine.reached(x, 0) == false by {}
            assert forall|x: int| 0 <= x < CELLS implies #[trigger] engine.group_rep@[x] == SENTINEL by {
                assert(rep0[x] == SENTINEL);
            }
            assert forall|r: int| #[trigger] engine.is_rep(r) implies exists|len: nat| engine.cycle(r, len) by {
                assert(engine.group_rep@[r] == SENTINEL);
            }
            assert forall|r: int| #[trigger] engine.is_rep(r) implies engine.liberties@[r] as int == engine.ecount(r) by {
                assert(engine.group_rep@[r] == SENTINEL);
            }
        }
        let mut start: usize = 0;
        while start < CELLS
            invariant
                Self::geometry(),
                engine.built_core(assigned, start as int),
                engine.counts_ok(),
                engine.black == black,
                engine.white == white,
                engine.occupied == occupied,
                start <= CELLS,
                forall|i: int|
                    0 <= i < BigBitBoard::<N, N, WORDS>::capacity() ==> (#[trigger] occupied.has(i) <==> (black.has(i)
                        || white.has(i))),
            decreases CELLS - start,
        {
            if occupied.get(start) && !assigned.get(start) {
                engine.build_group(&mut assigned, start);
            } else {
                proof {
                    engine.lemma_built_skip(assigned, start as int);
                }
            }
            start += 1;
        }
        proof {
            engine.lemma_built_done(assigned);
        }
        engine
    }
}

/// Whether two word arrays are equal.
fn same_words<const W: usize>(a: [u64; W], b: [u64; W]) -> (r: bool)
    ensures
        r == (a@ == b@),
{
    let mut k: usize = 0;
    while k < W
        invariant
            k <= W,
            a@.len() == W,
            b@.len() == W,
            forall|j: int| 0 <= j < k ==> a@[j] == b@[j],
        decreases W - k,
    {
        if a[k] != b[k] {
            return false;
        }
        k += 1;
    }
    assert(a@ =~= b@);
    true
}

/// Two engines are equal when they hold the same stones: which cell each
/// group happens to be represented by depends on the order of play, and
/// the rest of the tables follow from the stones.
impl<const N: usize, const WORDS: usize, const CELLS: usize> PartialEq for GoEngine<N, WORDS, CELLS> {
    fn eq(&self, other: &Self) -> (r: bool) {
        same_words(self.black.words(), other.black.words()) && same_words(self.white.words(), other.white.words())
    }
}

impl<const N: usize, const WORDS: usize, const CELLS: usize> PartialEqSpecImpl for GoEngine<N, WORDS, CELLS> {
    open spec fn obeys_eq_spec() -> bool {
        true
    }

    open spec fn eq_spec(&self, other: &Self) -> bool {
        self.black_stones()@ == other.black_stones()@ && self.white_stones()@ == other.white_stones()@
    }
}

impl<const N: usize, const WORDS: usize, const CELLS: usize> Eq for GoEngine<N, WORDS, CELLS> {

}

impl<const N: usize, const WORDS: usize, const CELLS: usize> Default for GoEngine<N, WORDS, CELLS> {
    /// The empty board.
    fn default() -> (e: Self)
        ensures
            Self::geometry() ==> e.inv(),
            forall|i: int| 0 <= i < BigBitBoard::<N, N, WORDS>::capacity() ==> !#[trigger] e.black_stones().has(i),
            forall|i: int| 0 <= i < BigBitBoard::<N, N, WORDS>::capacity() ==> !#[trigger] e.white_stones().has(i),
    {
        Self::new()
    }
}

} // verus!
