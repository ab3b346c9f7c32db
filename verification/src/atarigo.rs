//! Atari Go ("first capture"): Go on an `N x N` board where the first
//! capture wins and a side without a legal (non-suicide) placement loses.
//! Board bookkeeping is the incremental [`GoEngine`].

use vstd::prelude::*;
use crate::bigbitboard::{count_bits, seq_bit, BigBitBoard};
use crate::go_engine::{captures, empty_cell, move_legal, GoEngine};
use crate::symmetry::{d4_image, d4_inverse, invert_words, transform_words, D4Dyn};

verus! {

/// The board size of a default position.
pub const DEFAULT_SIZE: usize = 9;

/// Positions are canonicalised under the board's eight symmetries.
pub const USE_SYMMETRY: bool = true;

/// The number of stones past which symmetry canonicalisation stops: a
/// third of the board's cells.
pub fn symmetry_ply_limit(size: usize) -> (r: usize)
    requires
        size <= 65535,
    ensures
        r == size * size / 3,
{
    assert(size * size <= 65535 * 65535) by (nonlinear_arith)
        requires
            size <= 65535,
    ;
    (size * size) / 3
}

/// The two sides; Black moves first.
#[derive(Copy, Clone, Debug, Hash, PartialEq, Eq, Structural)]
pub enum Player {
    Black,
    White,
}

/// The other side.
pub open spec fn opponent(p: Player) -> Player {
    match p {
        Player::Black => Player::White,
        Player::White => Player::Black,
    }
}

impl Player {
    /// The other side.
    pub fn next(self) -> (r: Player)
        ensures
            r == opponent(self),
    {
        match self {
            Player::Black => Player::White,
            Player::White => Player::Black,
        }
    }

    /// The side's index: Black 0, White 1.
    pub fn to_index(&self) -> (r: usize)
        ensures
            r == (if *self == Player::Black {
                0usize
            } else {
                1usize
            }),
    {
        match self {
            Player::Black => 0,
            Player::White => 1,
        }
    }
}

impl Default for Player {
    /// Black, who moves first.
    fn default() -> (r: Player)
        ensures
            r == Player::Black,
    {
        Player::Black
    }
}

/// A placement on cell `.0` of a `.2 x .2` board, capturing the cells set
/// in the six-word mask `.1`; or, as [`no_move`], the admission that the
/// side to move has no legal placement.
#[derive(Clone, Copy, Debug, Hash, PartialEq, Eq)]
pub struct Move(pub u16, pub [u64; 6], pub u16);

/// `m` is the "no legal placement" move.
pub open spec fn is_no_move(m: Move) -> bool {
    &&& m.0 == 0xffff
    &&& m.2 == 0
    &&& forall|k: int| 0 <= k < 6 ==> #[trigger] m.1@[k] == 0
}

/// The move that admits the side to move has no legal placement.
pub fn no_move() -> (m: Move)
    ensures
        is_no_move(m),
{
    Move(0xffff, [0u64; 6], 0)
}

/// Whether `m` is the "no legal placement" move.
fn is_no_move_exec(m: &Move) -> (r: bool)
    ensures
        r == is_no_move(*m),
{
    if m.0 != 0xffff || m.2 != 0 {
        return false;
    }
    let mut k: usize = 0;
    while k < 6
        invariant
            k <= 6,
            forall|j: int| 0 <= j < k ==> m.1@[j] == 0,
        decreases 6 - k,
    {
        if m.1[k] != 0 {
            return false;
        }
        k += 1;
    }
    true
}

impl Move {
    /// The placement on `index` of an `N x N` board capturing `mask`.
    fn with_mask<const N: usize, const WORDS: usize>(index: u16, mask: BigBitBoard<N, N, WORDS>) -> (m: Move)
        requires
            WORDS <= 6,
            N < 65536,
        ensures
            m.0 == index,
            m.2 == N,
            forall|k: int| 0 <= k < WORDS ==> #[trigger] m.1@[k] == mask@[k],
            forall|k: int| WORDS <= k < 6 ==> #[trigger] m.1@[k] == 0,
    {
        let src = mask.words();
        let mut words = [0u64; 6];
        let mut k: usize = 0;
        while k < WORDS
            invariant
                WORDS <= 6,
                k <= WORDS,
                src@ == mask@,
                src@.len() == WORDS,
                forall|j: int| 0 <= j < k ==> #[trigger] words@[j] == mask@[j],
                forall|j: int| k <= j < 6 ==> #[trigger] words@[j] == 0,
            decreases WORDS - k,
        {
            words[k] = src[k];
            k += 1;
        }
        Move(index, words, N as u16)
    }
}

/// A position: the stones (kept by the engine), the side to move, and
/// whether the game has been won (by the side recorded in `turn`).
#[derive(Clone, Debug)]
pub struct State<const N: usize, const WORDS: usize, const CELLS: usize> {
    engine: GoEngine<N, WORDS, CELLS>,
    pub turn: Player,
    pub winner: bool,
}

impl<const N: usize, const WORDS: usize, const CELLS: usize> State<N, WORDS, CELLS> {
    /// The board sizes the game serves: a geometry the engine accepts and
    /// a capture mask that fits six words.
    pub open spec fn supported() -> bool {
        &&& GoEngine::<N, WORDS, CELLS>::geometry()
        &&& WORDS <= 6
    }

    /// The side to move, or the winner once the game is won.
    pub closed spec fn mover(&self) -> Player {
        self.turn
    }

    /// Whether the game has been won.
    pub closed spec fn won(&self) -> bool {
        self.winner
    }

    /// Black stones.
    pub closed spec fn black_stones(&self) -> BigBitBoard<N, N, WORDS> {
        self.engine.black_stones()
    }

    /// White stones.
    pub closed spec fn white_stones(&self) -> BigBitBoard<N, N, WORDS> {
        self.engine.white_stones()
    }

    /// The engine's bookkeeping is consistent.
    pub closed spec fn wf(&self) -> bool {
        &&& Self::supported()
        &&& self.engine.inv()
    }

    /// Placing on `c` is legal for the side to move.
    pub open spec fn legal_cell(&self, c: int) -> bool {
        &&& empty_cell(self.black_stones(), self.white_stones(), c)
        &&& move_legal(self.black_stones(), self.white_stones(), self.mover() == Player::Black, c)
    }

    /// `m` is the placement on `c` with exactly the capture mask it makes.
    pub open spec fn is_move_for(&self, c: int, m: Move) -> bool {
        &&& m.0 == c
        &&& m.2 == N
        &&& forall|k: int| WORDS <= k < 6 ==> #[trigger] m.1@[k] == 0
        &&& forall|x: int|
            0 <= x < 64 * WORDS ==> (#[trigger] seq_bit(m.1@, x) <==> captures(
                self.black_stones(),
                self.white_stones(),
                self.mover() == Player::Black,
                c,
                x,
            ))
    }

    /// Some placement is legal for the side to move.
    pub open spec fn can_place(&self) -> bool {
        exists|c: int| #[trigger] self.legal_cell(c)
    }

    /// An empty board, Black to move.
    pub fn new() -> (s: Self)
        requires
            Self::supported(),
        ensures
            s.wf(),
            forall|i: int| 0 <= i < BigBitBoard::<N, N, WORDS>::capacity() ==> !#[trigger] s.black_stones().has(i),
            forall|i: int| 0 <= i < BigBitBoard::<N, N, WORDS>::capacity() ==> !#[trigger] s.white_stones().has(i),
            s.mover() == Player::Black,
            !s.won(),
    {
        State { engine: GoEngine::new(), turn: Player::Black, winner: false }
    }

    /// A position from its stones, side to move and result flag.
    pub fn from_boards(
        black: BigBitBoard<N, N, WORDS>,
        white: BigBitBoard<N, N, WORDS>,
        turn: Player,
        winner: bool,
    ) -> (s: Self)
        requires
            Self::supported(),
            forall|i: int| 0 <= i < BigBitBoard::<N, N, WORDS>::capacity() ==> !(#[trigger] black.has(i) && white.has(i)),
            forall|i: int| CELLS <= i < BigBitBoard::<N, N, WORDS>::capacity() ==> !#[trigger] black.has(i),
            forall|i: int| CELLS <= i < BigBitBoard::<N, N, WORDS>::capacity() ==> !#[trigger] white.has(i),
        ensures
            s.wf(),
            s.black_stones() == black,
            s.white_stones() == white,
            s.mover() == turn,
            s.won() == winner,
    {
        State { engine: GoEngine::from_boards(black, white), turn, winner }
    }

    /// Black stones.
    pub fn black(&self) -> (r: BigBitBoard<N, N, WORDS>)
        ensures
            r == self.black_stones(),
    {
        self.engine.black()
    }

    /// White stones.
    pub fn white(&self) -> (r: BigBitBoard<N, N, WORDS>)
        ensures
            r == self.white_stones(),
    {
        self.engine.white()
    }

    /// The side to move, or the winner once the game is won.
    pub fn turn(&self) -> (p: Player)
        ensures
            p == self.mover(),
    {
        self.turn
    }

    /// Whether the game has been won.
    pub fn has_winner(&self) -> (r: bool)
        ensures
            r == self.won(),
    {
        self.winner
    }

    /// Carries out `action`: the "no legal placement" move hands the win
    /// to the opponent; a placement that captures wins for the mover;
    /// any other placement passes the turn.
    fn apply(&mut self, action: &Move)
        requires
            old(self).wf(),
            is_no_move(*action) || old(self).legal_cell(action.0 as int),
        ensures
            final(self).wf(),
            is_no_move(*action) ==> {
                &&& final(self).black_stones() == old(self).black_stones()
                &&& final(self).white_stones() == old(self).white_stones()
                &&& final(self).won()
                &&& final(self).mover() == opponent(old(self).mover())
            },
            !is_no_move(*action) ==> {
                let btm = old(self).mover() == Player::Black;
                let b = old(self).black_stones();
                let w = old(self).white_stones();
                let c = action.0 as int;
                let captured = exists|x: int| 0 <= x < BigBitBoard::<N, N, WORDS>::capacity() && #[trigger] captures(b, w, btm, c, x);
                &&& forall|x: int|
                    0 <= x < BigBitBoard::<N, N, WORDS>::capacity() ==> #[trigger] final(self).black_stones().has(x) == if btm {
                        b.has(x) || x == c
                    } else {
                        b.has(x) && !captures(b, w, btm, c, x)
                    }
                &&& forall|x: int|
                    0 <= x < BigBitBoard::<N, N, WORDS>::capacity() ==> #[trigger] final(self).white_stones().has(x) == if btm {
                        w.has(x) && !captures(b, w, btm, c, x)
                    } else {
                        w.has(x) || x == c
                    }
                &&& final(self).won() == (old(self).won() || captured)
                &&& final(self).mover() == if captured {
                    old(self).mover()
                } else {
                    opponent(old(self).mover())
                }
            },
    {
        if is_no_move_exec(action) {
            self.winner = true;
            self.turn = self.turn.next();
        } else {
            let index = action.0 as usize;
            let btm = match self.turn {
                Player::Black => true,
                Player::White => false,
            };
            let ghost e0 = self.engine;
            let played = self.engine.play(btm, index);
            match played {
                Some(captured) => {
                    let none = captured.is_empty();
                    proof {
                        let any = exists|x: int|
                            0 <= x < BigBitBoard::<N, N, WORDS>::capacity() && #[trigger] captures(
                                e0.black_stones(),
                                e0.white_stones(),
                                btm,
                                index as int,
                                x,
                            );
                        if any {
                            let x = choose|x: int|
                                0 <= x < BigBitBoard::<N, N, WORDS>::capacity() && #[trigger] captures(
                                    e0.black_stones(),
                                    e0.white_stones(),
                                    btm,
                                    index as int,
                                    x,
                                );
                            assert(captured.has(x));
                        }
                        if !none {
                            let x = choose|x: int| 0 <= x < BigBitBoard::<N, N, WORDS>::capacity() && #[trigger] captured.has(x);
                            assert(captures(e0.black_stones(), e0.white_stones(), btm, index as int, x));
                        }
                        assert(none == !any);
                    }
                    if !none {
                        self.winner = true;
                    } else {
                        self.turn = self.turn.next();
                    }
                },
                None => {},
            }
        }
    }
}

/// The game of Atari Go.
pub struct AtariGo;

impl AtariGo {
    /// The position after `action`; see the contract of the position's
    /// own move.
    pub fn apply<const N: usize, const WORDS: usize, const CELLS: usize>(
        state: State<N, WORDS, CELLS>,
        action: &Move,
    ) -> (r: State<N, WORDS, CELLS>)
        requires
            state.wf(),
            is_no_move(*action) || state.legal_cell(action.0 as int),
        ensures
            r.wf(),
            is_no_move(*action) ==> r.black_stones() == state.black_stones() && r.white_stones() == state.white_stones()
                && r.won() && r.mover() == opponent(state.mover()),
            !is_no_move(*action) ==> {
                let btm = state.mover() == Player::Black;
                let b = state.black_stones();
                let w = state.white_stones();
                let c = action.0 as int;
                let captured = exists|x: int| 0 <= x < BigBitBoard::<N, N, WORDS>::capacity() && #[trigger] captures(b, w, btm, c, x);
                &&& r.won() == (state.won() || captured)
                &&& r.mover() == if captured {
                    state.mover()
                } else {
                    opponent(state.mover())
                }
                &&& r.black_stones().has(action.0 as int) == (state.mover() == Player::Black)
                &&& r.white_stones().has(action.0 as int) == (state.mover() == Player::White)
            },
    {
        let mut state = state;
        let ghost s0 = state;
        proof {
            s0.engine_facts();
        }
        state.apply(action);
        proof {
            if !is_no_move(*action) {
                let c = action.0 as int;
                assert(c < BigBitBoard::<N, N, WORDS>::capacity());
                assert(state.black_stones().has(c) == (s0.mover() == Player::Black));
                assert(state.white_stones().has(c) == (s0.mover() == Player::White));
            }
        }
        state
    }

    /// Appends the legal placements of the side to move in ascending cell
    /// order, each with the stones it captures, or the "no legal
    /// placement" move when there is none.
    pub fn generate_actions<const N: usize, const WORDS: usize, const CELLS: usize>(
        state: &State<N, WORDS, CELLS>,
        actions: &mut Vec<Move>,
    )
        requires
            state.wf(),
        ensures
            final(actions)@.take(old(actions)@.len() as int) == old(actions)@,
            final(actions)@.len() >= old(actions)@.len(),
            state.can_place() ==> {
                let new = final(actions)@.skip(old(actions)@.len() as int);
                &&& forall|j: int| 0 <= j < new.len() ==> #[trigger] state.legal_cell(new[j].0 as int) && state.is_move_for(new[j].0 as int, new[j])
                &&& forall|c: int| #[trigger] state.legal_cell(c) ==> exists|j: int| 0 <= j < new.len() && #[trigger] new[j].0 == c
                &&& forall|a: int, b: int| 0 <= a < b < new.len() ==> new[a].0 < new[b].0
            },
            !state.can_place() ==> final(actions)@.len() == old(actions)@.len() + 1 && is_no_move(final(actions)@.last()),
    {
        let ghost base = actions@;
        let black = state.black();
        let white = state.white();
        let btm = match state.turn {
            Player::Black => true,
            Player::White => false,
        };
        let mut found = false;
        let mut index: usize = 0;
        proof {
            state.engine_facts();
        }
        while index < CELLS
            invariant
                state.wf(),
                State::<N, WORDS, CELLS>::supported(),
                CELLS == N * N,
                CELLS < 65535,
                N < 65535,
                BigBitBoard::<N, N, WORDS>::dims_ok(),
                black == state.black_stones(),
                white == state.white_stones(),
                btm == (state.mover() == Player::Black),
                index <= CELLS,
                actions@.len() >= base.len(),
                actions@.take(base.len() as int) == base,
                found == (actions@.len() > base.len()),
                found == exists|c: int| 0 <= c < index && #[trigger] state.legal_cell(c),
                forall|j: int|
                    base.len() <= j < actions@.len() ==> #[trigger] state.legal_cell(actions@[j].0 as int) && state.is_move_for(
                        actions@[j].0 as int,
                        actions@[j],
                    ) && actions@[j].0 < index,
                forall|c: int|
                    0 <= c < index && #[trigger] state.legal_cell(c) ==> exists|j: int| base.len() <= j < actions@.len() && #[trigger] actions@[j].0 == c,
                forall|a: int, b: int| base.len() <= a < b < actions@.len() ==> actions@[a].0 < actions@[b].0,
            decreases CELLS - index,
        {
            let ghost prev = actions@;
            let ghost cur = index;
            let mut pushed = false;
            if !black.get(index) && !white.get(index) {
                let (valid, will_capture) = state.engine.check(btm, index);
                if valid {
                    let m = Move::with_mask(index as u16, will_capture);
                    proof {
                        assert forall|x: int| 0 <= x < 64 * WORDS implies (#[trigger] seq_bit(m.1@, x) <==> captures(
                            black,
                            white,
                            btm,
                            index as int,
                            x,
                        )) by {
                            assert(seq_bit(m.1@, x) == seq_bit(will_capture@, x));
                            assert(will_capture.has(x) == seq_bit(will_capture@, x));
                        }
                        assert(state.legal_cell(index as int));
                        assert(state.is_move_for(index as int, m));
                    }
                    actions.push(m);
                    proof {
                        assert(actions@.take(base.len() as int) =~= prev.take(base.len() as int));
                        assert(actions@[prev.len() as int] == m);
                        assert forall|j: int| 0 <= j < prev.len() implies actions@[j] == prev[j] by {}
                    }
                    found = true;
                    pushed = true;
                }
            }
            index += 1;
            proof {
                if !pushed {
                    assert(actions@ == prev);
                    assert(!state.legal_cell(cur as int));
                }
                assert forall|j: int|
                    base.len() <= j < actions@.len() implies #[trigger] state.legal_cell(actions@[j].0 as int) && state.is_move_for(
                        actions@[j].0 as int,
                        actions@[j],
                    ) && actions@[j].0 < index by {
                    if j < prev.len() {
                        assert(actions@[j] == prev[j]);
                        assert(state.legal_cell(prev[j].0 as int));
                    }
                }
                assert forall|c: int|
                    0 <= c < index && #[trigger] state.legal_cell(c) implies exists|j: int| base.len() <= j < actions@.len() && #[trigger] actions@[j].0 == c by {
                    if c < cur {
                        let j = choose|j: int| base.len() <= j < prev.len() && #[trigger] prev[j].0 == c;
                        assert(actions@[j] == prev[j]);
                    } else {
                        assert(pushed);
                        assert(actions@[prev.len() as int].0 == c);
                    }
                }
                assert forall|a: int, b: int| base.len() <= a < b < actions@.len() implies actions@[a].0 < actions@[b].0 by {
                    assert(actions@[a] == prev[a]);
                    assert(state.legal_cell(prev[a].0 as int));
                    if b < prev.len() {
                        assert(actions@[b] == prev[b]);
                    }
                }
                if found {
                    assert(actions@.len() > base.len());
                }
            }
        }
        if !found {
            let ghost before = actions@;
            actions.push(no_move());
            proof {
                assert(actions@.take(base.len() as int) =~= before.take(base.len() as int));
                assert forall|c: int| !#[trigger] state.legal_cell(c) by {
                    if state.legal_cell(c) {
                        assert(0 <= c < CELLS);
                    }
                }
            }
        } else {
            proof {
                let new = actions@.skip(base.len() as int);
                assert forall|j: int| 0 <= j < new.len() implies #[trigger] state.legal_cell(new[j].0 as int) && state.is_move_for(
                    new[j].0 as int,
                    new[j],
                ) by {
                    assert(new[j] == actions@[base.len() + j]);
                }
                assert forall|c: int| #[trigger] state.legal_cell(c) implies exists|j: int| 0 <= j < new.len() && #[trigger] new[j].0 == c by {
                    assert(0 <= c < CELLS);
                    let j = choose|j: int| base.len() <= j < actions@.len() && #[trigger] actions@[j].0 == c;
                    assert(new[j - base.len()] == actions@[j]);
                }
                assert forall|a: int, b: int| 0 <= a < b < new.len() implies new[a].0 < new[b].0 by {
                    assert(new[a] == actions@[base.len() + a]);
                    assert(new[b] == actions@[base.len() + b]);
                }
            }
        }
    }

    /// The game ends with the first capture, or when a side has no legal
    /// placement.
    pub fn is_terminal<const N: usize, const WORDS: usize, const CELLS: usize>(state: &State<N, WORDS, CELLS>) -> (r: bool)
        ensures
            r == state.won(),
    {
        state.winner
    }

    /// The side to move.
    pub fn player_to_move<const N: usize, const WORDS: usize, const CELLS: usize>(state: &State<N, WORDS, CELLS>) -> (p: Player)
        ensures
            p == state.mover(),
    {
        state.turn
    }

    /// The winner once the game is won: the side recorded in `turn`.
    pub fn winner<const N: usize, const WORDS: usize, const CELLS: usize>(state: &State<N, WORDS, CELLS>) -> (r: Option<Player>)
        ensures
            r == if state.won() {
                Some(state.mover())
            } else {
                None
            },
    {
        if state.winner {
            Some(state.turn)
        } else {
            None
        }
    }

    /// Two players.
    pub fn num_players() -> (n: usize)
        ensures
            n == 2,
    {
        2
    }

    /// The stone count past which positions are no longer canonicalised.
    pub fn symmetry_ply_limit<const N: usize, const WORDS: usize, const CELLS: usize>(
        state: &State<N, WORDS, CELLS>,
    ) -> (r: usize)
        requires
            state.wf(),
        ensures
            r == N * N / 3,
    {
        proof {
            state.engine_facts();
        }
        symmetry_ply_limit(N)
    }
}

impl<const N: usize, const WORDS: usize, const CELLS: usize> State<N, WORDS, CELLS> {
    /// Facts about a well-formed position's geometry.
    proof fn engine_facts(&self)
        requires
            self.wf(),
        ensures
            Self::supported(),
            CELLS == N * N,
            CELLS < 65535,
            N < 65535,
            BigBitBoard::<N, N, WORDS>::dims_ok(),
    {
        assert(N <= N * N) by (nonlinear_arith)
            requires
                N >= 1,
        ;
    }
}

/// Cell `j` of the image of the cells `src` under symmetry `sym` of an
/// `s x s` board.
pub open spec fn image_bit(src: Seq<u64>, s: int, sym: int, j: int) -> bool {
    j < s * s && seq_bit(src, d4_image(j, s, d4_inverse(sym)))
}

/// `img` holds, in its first `nbits` cells, the image of `src` under `sym`.
pub open spec fn is_image(img: Seq<u64>, src: Seq<u64>, s: int, sym: int, nbits: int) -> bool {
    forall|j: int| 0 <= j < nbits ==> #[trigger] seq_bit(img, j) == image_bit(src, s, sym, j)
}

/// `a` comes before `b` in lexicographic order of their words.
pub open spec fn words_less(a: Seq<u64>, b: Seq<u64>) -> bool {
    exists|k: int| 0 <= k < a.len() && k < b.len() && a[k] < b[k] && forall|j: int| 0 <= j < k ==> #[trigger] a[j] == b[j]
}

/// The pair of boards `a` comes before `b`: Black's words first, then
/// White's.
pub open spec fn key_less(a: (Seq<u64>, Seq<u64>), b: (Seq<u64>, Seq<u64>)) -> bool {
    words_less(a.0, b.0) || (a.0 == b.0 && words_less(a.1, b.1))
}

/// Whether `a` comes before `b` in lexicographic order of their words.
fn words_less_exec<const W: usize>(a: &[u64; W], b: &[u64; W]) -> (r: bool)
    ensures
        r == words_less(a@, b@),
        !r && a@ != b@ ==> words_less(b@, a@),
{
    let mut k: usize = 0;
    while k < W
        invariant
            k <= W,
            a@.len() == W,
            b@.len() == W,
            forall|j: int| 0 <= j < k ==> #[trigger] a@[j] == b@[j],
        decreases W - k,
    {
        if a[k] < b[k] {
            return true;
        }
        if a[k] > b[k] {
            proof {
                assert(words_less(b@, a@));
                assert forall|k2: int| 0 <= k2 < a@.len() && k2 < b@.len() && a@[k2] < b@[k2] implies !(forall|j: int|
                    0 <= j < k2 ==> #[trigger] a@[j] == b@[j]) by {
                    if k2 > k {
                        assert(a@[k as int] != b@[k as int]);
                    }
                }
            }
            return false;
        }
        k += 1;
    }
    proof {
        assert(a@ =~= b@);
    }
    false
}

/// Whether pair `a` comes before pair `b`.
fn key_less_exec<const W: usize>(a: (&[u64; W], &[u64; W]), b: (&[u64; W], &[u64; W])) -> (r: bool)
    ensures
        r == key_less((a.0@, a.1@), (b.0@, b.1@)),
        !r && (a.0@, a.1@) != (b.0@, b.1@) ==> key_less((b.0@, b.1@), (a.0@, a.1@)),
{
    if words_less_exec(a.0, b.0) {
        return true;
    }
    if words_less_exec(b.0, a.0) {
        proof {
            assert(a.0@ != b.0@);
        }
        return false;
    }
    proof {
        if a.0@ != b.0@ {
            assert(words_less(b.0@, a.0@));
        }
    }
    words_less_exec(a.1, b.1)
}

impl<const N: usize, const WORDS: usize, const CELLS: usize> State<N, WORDS, CELLS> {
    /// The image of `b` under symmetry `sym`.
    fn transform_board(b: BigBitBoard<N, N, WORDS>, sym: usize) -> (r: BigBitBoard<N, N, WORDS>)
        requires
            Self::supported(),
            b.padding_clear(),
            sym < 8,
        ensures
            is_image(r@, b@, N as int, sym as int, 64 * WORDS),
            r.padding_clear(),
            r@.len() == WORDS,
    {
        let d4 = D4Dyn::new(N);
        let w = b.words();
        proof {
            assert(N <= N * N) by (nonlinear_arith)
                requires
                    N >= 1,
            ;
            assert forall|j: int| N * N <= j < 64 * WORDS implies !#[trigger] seq_bit(w@, j) by {
                assert(!b.has(j));
            }
        }
        let t = transform_words(w, &d4, sym);
        let r = BigBitBoard::new(t);
        proof {
            assert forall|i: int| N * N <= i < BigBitBoard::<N, N, WORDS>::capacity() implies !#[trigger] r.has(i) by {
                assert(seq_bit(t@, i) == image_bit(w@, N as int, sym as int, i));
            }
            assert forall|j: int| 0 <= j < 64 * WORDS implies #[trigger] seq_bit(r@, j) == image_bit(b@, N as int, sym as int, j) by {
                assert(seq_bit(t@, j) == image_bit(w@, N as int, sym as int, j));
            }
        }
        r
    }

    /// The index of the first of the eight symmetric images of the stones
    /// whose (Black, White) words are smallest.
    pub fn canonical_symmetry(black: BigBitBoard<N, N, WORDS>, white: BigBitBoard<N, N, WORDS>) -> (r: usize)
        requires
            Self::supported(),
            black.padding_clear(),
            white.padding_clear(),
        ensures
            r < 8,
            first_min_sym(black@, white@, N as int, WORDS as int, r as int),
    {
        let mut imgs: Vec<(BigBitBoard<N, N, WORDS>, BigBitBoard<N, N, WORDS>)> = Vec::new();
        let mut k: usize = 0;
        while k < 8
            invariant
                Self::supported(),
                black.padding_clear(),
                white.padding_clear(),
                k <= 8,
                imgs@.len() == k,
                forall|j: int| 0 <= j < k ==> (#[trigger] imgs@[j]).0@.len() == WORDS && imgs@[j].1@.len() == WORDS,
                forall|j: int|
                    0 <= j < k ==> is_image(#[trigger] imgs@[j].0@, black@, N as int, j, 64 * WORDS) && is_image(
                        imgs@[j].1@,
                        white@,
                        N as int,
                        j,
                        64 * WORDS,
                    ),
            decreases 8 - k,
        {
            let bi = Self::transform_board(black, k);
            let wi = Self::transform_board(white, k);
            imgs.push((bi, wi));
            k += 1;
        }
        let ghost views = Seq::new(8, |j: int| (imgs@[j].0@, imgs@[j].1@));
        proof {
            assert forall|i: int| 0 <= i < 8 implies (#[trigger] views[i]).0.len() == WORDS && views[i].1.len() == WORDS by {
                assert(views[i] == (imgs@[i].0@, imgs@[i].1@));
            }
        }
        let mut best: usize = 0;
        let mut j: usize = 1;
        while j < 8
            invariant
                imgs@.len() == 8,
                views == Seq::new(8, |i: int| (imgs@[i].0@, imgs@[i].1@)),
                forall|i: int| 0 <= i < 8 ==> (#[trigger] views[i]).0.len() == WORDS && views[i].1.len() == WORDS,
                1 <= j <= 8,
                best < j,
                forall|k: int| 0 <= k < j ==> !key_less(#[trigger] views[k], views[best as int]),
                forall|k: int| 0 <= k < best ==> key_less(views[best as int], #[trigger] views[k]),
            decreases 8 - j,
        {
            let wj = (imgs[j].0.words(), imgs[j].1.words());
            let wb = (imgs[best].0.words(), imgs[best].1.words());
            if key_less_exec((&wj.0, &wj.1), (&wb.0, &wb.1)) {
                proof {
                    assert(key_less(views[j as int], views[best as int]));
                    assert forall|k: int| 0 <= k < j + 1 implies !key_less(#[trigger] views[k], views[j as int]) by {
                        if k < j {
                            lemma_key_less_strict(views[k], views[j as int], views[best as int]);
                        }
                    }
                    assert forall|k: int| 0 <= k < j implies key_less(views[j as int], #[trigger] views[k]) by {
                        if k < best {
                            lemma_key_less_total(views[j as int], views[best as int], views[k]);
                        } else {
                            lemma_key_total(views[k], views[best as int]);
                            if views[k] != views[best as int] {
                                lemma_key_less_total(views[j as int], views[best as int], views[k]);
                            }
                        }
                    }
                }
                best = j;
            }
            j += 1;
        }
        proof {
            assert(views.len() == 8);
            assert forall|k: int|
                0 <= k < 8 implies is_image(#[trigger] views[k].0, black@, N as int, k, 64 * WORDS) && is_image(
                views[k].1,
                white@,
                N as int,
                k,
                64 * WORDS,
            ) by {
                assert(views[k] == (imgs@[k].0@, imgs@[k].1@));
            }
        }
        best
    }
}

/// `sym` is the first of the eight symmetries whose image of the stones
/// (`black`, `white`) has the smallest words.
pub open spec fn first_min_sym(black: Seq<u64>, white: Seq<u64>, n: int, words: int, sym: int) -> bool {
    exists|imgs: Seq<(Seq<u64>, Seq<u64>)>|
        {
            &&& imgs.len() == 8
            &&& forall|k: int|
                0 <= k < 8 ==> is_image(#[trigger] imgs[k].0, black, n, k, 64 * words) && is_image(
                    imgs[k].1,
                    white,
                    n,
                    k,
                    64 * words,
                )
            &&& forall|k: int| 0 <= k < 8 ==> !key_less(#[trigger] imgs[k], imgs[sym])
            &&& forall|k: int| 0 <= k < sym ==> key_less(imgs[sym], #[trigger] imgs[k])
        }
}

impl<const N: usize, const WORDS: usize, const CELLS: usize> State<N, WORDS, CELLS> {
    /// The eight symmetric images of the stones, identity first.
    pub fn board_symmetries(black: BigBitBoard<N, N, WORDS>, white: BigBitBoard<N, N, WORDS>) -> (r: Vec<
        (BigBitBoard<N, N, WORDS>, BigBitBoard<N, N, WORDS>),
    >)
        requires
            Self::supported(),
            black.padding_clear(),
            white.padding_clear(),
        ensures
            r@.len() == 8,
            forall|k: int|
                0 <= k < 8 ==> is_image((#[trigger] r@[k]).0@, black@, N as int, k, 64 * WORDS) && is_image(
                    r@[k].1@,
                    white@,
                    N as int,
                    k,
                    64 * WORDS,
                ),
    {
        let mut imgs: Vec<(BigBitBoard<N, N, WORDS>, BigBitBoard<N, N, WORDS>)> = Vec::new();
        let mut k: usize = 0;
        while k < 8
            invariant
                Self::supported(),
                black.padding_clear(),
                white.padding_clear(),
                k <= 8,
                imgs@.len() == k,
                forall|j: int|
                    0 <= j < k ==> is_image((#[trigger] imgs@[j]).0@, black@, N as int, j, 64 * WORDS) && is_image(
                        imgs@[j].1@,
                        white@,
                        N as int,
                        j,
                        64 * WORDS,
                    ),
            decreases 8 - k,
        {
            let bi = Self::transform_board(black, k);
            let wi = Self::transform_board(white, k);
            imgs.push((bi, wi));
            k += 1;
        }
        imgs
    }

    /// Number of stones on the board.
    pub open spec fn stones(&self) -> int {
        (count_bits(self.black_stones()@, 64 * WORDS) + count_bits(self.white_stones()@, 64 * WORDS)) as int
    }
}

impl AtariGo {
    /// The position turned into its canonical orientation, and the
    /// symmetry used; past the symmetry ply limit the position is left as
    /// it is, under the identity.
    pub fn canonical_representation<const N: usize, const WORDS: usize, const CELLS: usize>(
        state: State<N, WORDS, CELLS>,
    ) -> (r: (State<N, WORDS, CELLS>, usize))
        requires
            state.wf(),
        ensures
            r.0.wf(),
            r.0.mover() == state.mover(),
            r.0.won() == state.won(),
            r.1 < 8,
            state.stones() > N * N / 3 ==> r.1 == 0 && r.0.black_stones() == state.black_stones() && r.0.white_stones()
                == state.white_stones(),
            state.stones() <= N * N / 3 ==> {
                &&& first_min_sym(state.black_stones()@, state.white_stones()@, N as int, WORDS as int, r.1 as int)
                &&& is_image(r.0.black_stones()@, state.black_stones()@, N as int, r.1 as int, 64 * WORDS)
                &&& is_image(r.0.white_stones()@, state.white_stones()@, N as int, r.1 as int, 64 * WORDS)
            },
    {
        proof {
            state.engine_facts();
            state.engine.lemma_inv_boards();
        }
        let black = state.black();
        let white = state.white();
        proof {
            crate::bigbitboard::lemma_count_bits_bound(black@, 64 * WORDS);
            crate::bigbitboard::lemma_count_bits_bound(white@, 64 * WORDS);
        }
        let stones = black.count_ones() as usize + white.count_ones() as usize;
        let limit = symmetry_ply_limit(N);
        if stones > limit {
            return (state, 0);
        }
        proof {
            assert(black.padding_clear());
            assert(white.padding_clear());
        }
        let sym = State::<N, WORDS, CELLS>::canonical_symmetry(black, white);
        let b = State::<N, WORDS, CELLS>::transform_board(black, sym);
        let w = State::<N, WORDS, CELLS>::transform_board(white, sym);
        proof {
            crate::symmetry::lemma_d4_is_permutation(N as int, d4_inverse(sym as int));
            assert forall|i: int| 0 <= i < BigBitBoard::<N, N, WORDS>::capacity() implies !(#[trigger] b.has(i) && w.has(i)) by {
                assert(b.has(i) == image_bit(black@, N as int, sym as int, i));
                assert(w.has(i) == image_bit(white@, N as int, sym as int, i));
                if i < N * N {
                    let src = d4_image(i, N as int, d4_inverse(sym as int));
                    assert(!(black.has(src) && white.has(src)));
                }
            }
        }
        let canon = State::from_boards(b, w, state.turn, state.winner);
        (canon, sym)
    }

    /// The move a symmetry makes of `action`: its cell and its capture
    /// mask both go to their images; the "no legal placement" move stays.
    pub fn apply_to_action(action: Move, sym: usize) -> (r: Move)
        requires
            sym < 8,
            is_no_move(action) || action_ok(action),
        ensures
            is_no_move(action) ==> r == action,
            !is_no_move(action) ==> {
                let s = action.2 as int;
                &&& r.0 == d4_image(action.0 as int, s, sym as int)
                &&& r.2 == action.2
                &&& is_image(r.1@, action.1@, s, sym as int, 384)
            },
    {
        if is_no_move_exec(&action) {
            return action;
        }
        let size = action.2 as usize;
        let d4 = D4Dyn::new(size);
        let cell = d4.index_symmetries(action.0 as usize)[sym];
        let mask = transform_words(action.1, &d4, sym);
        proof {
            assert forall|j: int| 0 <= j < 384 implies #[trigger] seq_bit(mask@, j) == image_bit(action.1@, size as int, sym as int, j) by {}
        }
        Move(cell as u16, mask, action.2)
    }

    /// The move that a symmetry sends onto `action`.
    pub fn invert_action(action: Move, sym: usize) -> (r: Move)
        requires
            sym < 8,
            is_no_move(action) || action_ok(action),
        ensures
            is_no_move(action) ==> r == action,
            !is_no_move(action) ==> {
                let s = action.2 as int;
                &&& r.0 == d4_image(action.0 as int, s, d4_inverse(sym as int))
                &&& r.2 == action.2
                &&& forall|j: int| 0 <= j < 384 ==> #[trigger] seq_bit(r.1@, j) == (j < s * s && seq_bit(action.1@, d4_image(j, s, sym as int)))
            },
    {
        if is_no_move_exec(&action) {
            return action;
        }
        let size = action.2 as usize;
        let d4 = D4Dyn::new(size);
        let cell = d4.invert_symmetry(action.0 as usize, sym);
        let mask = invert_words(action.1, &d4, sym);
        Move(cell as u16, mask, action.2)
    }
}

/// A placement whose cell and capture mask lie on its `action.2 x action.2`
/// board, which fits the six-word mask.
pub open spec fn action_ok(m: Move) -> bool {
    let s = m.2 as int;
    &&& 1 <= s
    &&& s * s <= 384
    &&& m.0 < s * s
    &&& forall|j: int| s * s <= j < 384 ==> !#[trigger] seq_bit(m.1@, j)
}

/// Undoing a symmetry's image of a placement gives the placement back:
/// same cell, same capture mask, same board size.
pub proof fn lemma_action_round_trip(m: Move, fwd: Move, back: Move, sym: int)
    requires
        0 <= sym < 8,
        action_ok(m),
        fwd.0 == d4_image(m.0 as int, m.2 as int, sym),
        fwd.2 == m.2,
        is_image(fwd.1@, m.1@, m.2 as int, sym, 384),
        back.0 == d4_image(fwd.0 as int, fwd.2 as int, d4_inverse(sym)),
        back.2 == fwd.2,
        forall|j: int| 0 <= j < 384 ==> #[trigger] seq_bit(back.1@, j) == (j < fwd.2 * fwd.2 && seq_bit(fwd.1@, d4_image(j, fwd.2 as int, sym))),
    ensures
        back == m,
{
    let s = m.2 as int;
    crate::symmetry::lemma_d4_round_trip(m.0 as int, s, sym);
    crate::symmetry::lemma_d4_is_permutation(s, sym);
    assert forall|j: int| 0 <= j < 384 implies #[trigger] seq_bit(back.1@, j) == seq_bit(m.1@, j) by {
        if j < s * s {
            let i = d4_image(j, s, sym);
            crate::symmetry::lemma_d4_round_trip(j, s, sym);
            assert(seq_bit(fwd.1@, i) == image_bit(m.1@, s, sym, i));
        }
    }
    assert(back.1 =~= m.1) by {
        assert forall|k: int| 0 <= k < 6 implies back.1@[k] == m.1@[k] by {
            assert forall|b: u64| b < 64 implies #[trigger] crate::bits::bit(back.1@[k], b) == crate::bits::bit(m.1@[k], b) by {
                let j = 64 * k + b;
                assert(j / 64 == k && j % 64 == b);
                assert(seq_bit(back.1@, j) == seq_bit(m.1@, j));
            }
            crate::bits::lemma_bits_ext(back.1@[k], m.1@[k]);
        }
    }
}

/// Lexicographic order on word pairs is irreflexive and transitive.
proof fn lemma_key_less_strict(a: (Seq<u64>, Seq<u64>), b: (Seq<u64>, Seq<u64>), c: (Seq<u64>, Seq<u64>))
    requires
        key_less(b, c),
        !key_less(a, c),
    ensures
        !key_less(a, b),
{
    if key_less(a, b) {
        lemma_key_less_total(a, b, c);
    }
}

/// Lexicographic order on word pairs is transitive.
proof fn lemma_key_less_total(a: (Seq<u64>, Seq<u64>), b: (Seq<u64>, Seq<u64>), c: (Seq<u64>, Seq<u64>))
    requires
        key_less(a, b),
        key_less(b, c),
    ensures
        key_less(a, c),
{
    lemma_words_less_trans(a.0, b.0, c.0);
    lemma_words_less_trans(a.1, b.1, c.1);
    if words_less(a.0, b.0) && b.0 == c.0 {
    }
    if a.0 == b.0 && words_less(b.0, c.0) {
    }
}

/// Word sequences of one length are equal or ordered one way or the other.
proof fn lemma_words_total(a: Seq<u64>, b: Seq<u64>)
    requires
        a.len() == b.len(),
    ensures
        a == b || words_less(a, b) || words_less(b, a),
    decreases a.len(),
{
    if a.len() == 0 {
        assert(a =~= b);
    } else if a[0] != b[0] {
        if a[0] < b[0] {
            assert(words_less(a, b));
        } else {
            assert(words_less(b, a));
        }
    } else {
        let a1 = a.drop_first();
        let b1 = b.drop_first();
        lemma_words_total(a1, b1);
        if a1 == b1 {
            assert(a =~= b) by {
                assert forall|i: int| 0 <= i < a.len() implies a[i] == b[i] by {
                    if i > 0 {
                        assert(a[i] == a1[i - 1]);
                        assert(b[i] == b1[i - 1]);
                    }
                }
            }
        } else if words_less(a1, b1) {
            let k = choose|k: int| 0 <= k < a1.len() && k < b1.len() && a1[k] < b1[k] && forall|j: int| 0 <= j < k ==> #[trigger] a1[j] == b1[j];
            assert(a[k + 1] < b[k + 1]);
            assert forall|j: int| 0 <= j < k + 1 implies #[trigger] a[j] == b[j] by {
                if j > 0 {
                    assert(a1[j - 1] == b1[j - 1]);
                }
            }
            assert(words_less(a, b));
        } else {
            let k = choose|k: int| 0 <= k < b1.len() && k < a1.len() && b1[k] < a1[k] && forall|j: int| 0 <= j < k ==> #[trigger] b1[j] == a1[j];
            assert(b[k + 1] < a[k + 1]);
            assert forall|j: int| 0 <= j < k + 1 implies #[trigger] b[j] == a[j] by {
                if j > 0 {
                    assert(b1[j - 1] == a1[j - 1]);
                }
            }
            assert(words_less(b, a));
        }
    }
}

/// Word-pair keys of one shape are equal or ordered one way or the other.
proof fn lemma_key_total(a: (Seq<u64>, Seq<u64>), b: (Seq<u64>, Seq<u64>))
    requires
        a.0.len() == b.0.len(),
        a.1.len() == b.1.len(),
    ensures
        a == b || key_less(a, b) || key_less(b, a),
{
    lemma_words_total(a.0, b.0);
    lemma_words_total(a.1, b.1);
}

proof fn lemma_words_less_trans(a: Seq<u64>, b: Seq<u64>, c: Seq<u64>)
    ensures
        words_less(a, b) && words_less(b, c) ==> words_less(a, c),
{
    if words_less(a, b) && words_less(b, c) {
        let k1 = choose|k: int| 0 <= k < a.len() && k < b.len() && a[k] < b[k] && forall|j: int| 0 <= j < k ==> #[trigger] a[j] == b[j];
        let k2 = choose|k: int| 0 <= k < b.len() && k < c.len() && b[k] < c[k] && forall|j: int| 0 <= j < k ==> #[trigger] b[j] == c[j];
        let k = if k1 < k2 {
            k1
        } else {
            k2
        };
        assert(a[k] < c[k]);
        assert forall|j: int| 0 <= j < k implies #[trigger] a[j] == c[j] by {
            assert(a[j] == b[j]);
            assert(b[j] == c[j]);
        }
    }
}

} // verus!
