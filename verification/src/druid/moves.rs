//! The two ways a Druid turn is offered as actions. `Split` breaks a turn
//! into sub-actions -- choose a piece kind, then (for a lintel) an
//! orientation, then a cell -- tracked by the position's pending phase.
//! `Flat` offers each whole-turn placement as one action. Both play the
//! same board through [`apply_turn`].

use vstd::prelude::*;
use crate::druid::game::{apply_turn, turn_applied, turn_played, HashedState};
use crate::druid::state::{hand_of, legal_moves, lintel_ok, lintel_step, moves_upto, cell_moves, playable, sarsen_ok, State};
use crate::druid::movecache::{any_set, lintel_bits, MoveCache, MoveCandidates};
use crate::druid::types::{height_bits, Orientation, Pending, Piece, PieceKind, PlacedPiece, Player, Pos, Square};
use crate::druid::zobrist::{
    board_key, hand_key, key_of_parts, lemma_position_parts, lemma_replace_part, pending_key, pending_zobrist,
    player_key, position_key, DruidKeys,
};

verus! {

/// Marker for the sub-action encoding.
#[derive(Clone, Copy, Debug, Default)]
pub struct Split;

/// Marker for the whole-turn encoding.
#[derive(Clone, Copy, Debug, Default)]
pub struct Flat;

/// A sub-action: choose a piece kind, choose a lintel's orientation, or
/// place on a cell.
#[derive(Copy, Clone, Debug, PartialEq, Eq, Structural, Hash)]
pub enum Move {
    Piece(PieceKind),
    Orientation(Orientation),
    Cell(u8),
}

/// `Cell` actions for the cells `i < n` satisfying `pred`, in order.
pub open spec fn cells_where(pred: spec_fn(int) -> bool, n: int) -> Seq<Move>
    decreases n,
{
    if n <= 0 {
        Seq::empty()
    } else {
        cells_where(pred, n - 1) + if pred(n - 1) {
            seq![Move::Cell((n - 1) as u8)]
        } else {
            Seq::empty()
        }
    }
}

/// Whether some cell `i < n` satisfies `pred`.
pub open spec fn some_cell(pred: spec_fn(int) -> bool, n: int) -> bool {
    exists|i: int| 0 <= i < n && #[trigger] pred(i)
}

/// The sub-actions on offer in `s`: between turns, each piece kind the
/// mover holds and can place somewhere; after choosing a sarsen, each cell
/// it can go on; after choosing a lintel, each orientation that fits
/// somewhere; after choosing an orientation, each anchor it fits.
pub open spec fn split_actions(s: State) -> Seq<Move> {
    let hand = hand_of(s, s.player);
    let n = s.size.w * s.size.h;
    let sarsen = |i: int| sarsen_ok(s.board@, i, s.player);
    let horizontal = |i: int| lintel_ok(s.board@, s.size, i, Orientation::Horizontal, s.player);
    let vertical = |i: int| lintel_ok(s.board@, s.size, i, Orientation::Vertical, s.player);
    match s.pending {
        Pending::Idle => (if hand.sarsens > 0 && some_cell(sarsen, n) {
            seq![Move::Piece(PieceKind::Sarsen)]
        } else {
            Seq::empty()
        }) + (if hand.lintels > 0 && (some_cell(horizontal, n) || some_cell(vertical, n)) {
            seq![Move::Piece(PieceKind::Lintel)]
        } else {
            Seq::empty()
        }),
        Pending::Piece(PieceKind::Sarsen) => cells_where(sarsen, n),
        Pending::Piece(PieceKind::Lintel) => (if some_cell(horizontal, n) {
            seq![Move::Orientation(Orientation::Horizontal)]
        } else {
            Seq::empty()
        }) + (if some_cell(vertical, n) {
            seq![Move::Orientation(Orientation::Vertical)]
        } else {
            Seq::empty()
        }),
        Pending::Oriented(o) => cells_where(|i: int| lintel_ok(s.board@, s.size, i, o, s.player), n),
    }
}

/// The piece a `Cell` sub-action places in pending phase `p`, if any.
pub open spec fn pending_piece(p: Pending) -> Option<Piece> {
    match p {
        Pending::Piece(PieceKind::Sarsen) => Some(Piece::Sarsen),
        Pending::Oriented(o) => Some(Piece::Lintel(o)),
        _ => None,
    }
}

/// Whether sub-action `m` can be applied to `s`: a piece kind between
/// turns, an orientation after choosing a lintel, a cell after choosing a
/// sarsen or an orientation when that placement fits and is in hand.
pub open spec fn split_applicable(s: State, m: Move) -> bool {
    match m {
        Move::Piece(_) => s.pending == Pending::Idle,
        Move::Orientation(_) => s.pending == Pending::Piece(PieceKind::Lintel),
        Move::Cell(idx) => match pending_piece(s.pending) {
            Some(piece) => playable(s, PlacedPiece(piece, idx)) && s.board@[idx as int].height < u16::MAX,
            None => false,
        },
    }
}

/// Every field of `b` but the pending phase is as in `a`.
pub open spec fn same_but_pending(a: State, b: State) -> bool {
    &&& a.board@ == b.board@
    &&& a.player == b.player
    &&& a.hand_black == b.hand_black
    &&& a.hand_white == b.hand_white
    &&& a.size == b.size
}

/// Append the `Cell` actions of the set bits of `bits`, in order.
fn push_cells(bits: &Vec<bool>, n: usize, pred: Ghost<spec_fn(int) -> bool>, actions: &mut Vec<Move>)
    requires
        n <= bits@.len(),
        n <= 256,
        forall|i: int| 0 <= i < n ==> #[trigger] bits@[i] == (pred@)(i),
    ensures
        final(actions)@ == old(actions)@ + cells_where(pred@, n as int),
{
    let mut i: usize = 0;
    while i < n
        invariant
            n <= bits@.len(),
            n <= 256,
            forall|k: int| 0 <= k < n ==> #[trigger] bits@[k] == (pred@)(k),
            i <= n,
            actions@ == old(actions)@ + cells_where(pred@, i as int),
        decreases n - i,
    {
        let ghost before = actions@;
        if bits[i] {
            actions.push(Move::Cell(i as u8));
        }
        proof {
            assert(actions@ =~= old(actions)@ + cells_where(pred@, i + 1));
        }
        i += 1;
    }
}

/// The bits of one color on a board of `n` cells say where `pred` holds.
proof fn lemma_any_is_some(bits: Seq<bool>, pred: spec_fn(int) -> bool, n: int)
    requires
        bits.len() == n,
        forall|i: int| 0 <= i < n ==> #[trigger] bits[i] == pred(i),
    ensures
        any_set(bits) == some_cell(pred, n),
{
    if any_set(bits) {
        let i = choose|i: int| 0 <= i < bits.len() && #[trigger] bits[i];
        assert(pred(i));
    }
    if some_cell(pred, n) {
        let i = choose|i: int| 0 <= i < n && #[trigger] pred(i);
        assert(bits[i]);
    }
}

impl Split {
    /// Append the sub-actions on offer (see [`split_actions`]).
    pub fn generate_actions(state: &HashedState, actions: &mut Vec<Move>)
        requires
            state.0.wf(),
            state.3.reflects(state.0),
        ensures
            final(actions)@ == old(actions)@ + split_actions(state.0),
    {
        let s = &state.0;
        proof {
            assert(s.size.w * s.size.h <= 127) by (nonlinear_arith)
                requires
                    2 * s.size.w * s.size.h <= 255,
            ;
        }
        let hand = s.current_hand();
        let candidates = state.3.candidates(s.player);
        let ghost n = s.size.w * s.size.h;
        let ghost sarsen = |i: int| sarsen_ok(s.board@, i, s.player);
        let ghost horizontal = |i: int| lintel_ok(s.board@, s.size, i, Orientation::Horizontal, s.player);
        let ghost vertical = |i: int| lintel_ok(s.board@, s.size, i, Orientation::Vertical, s.player);
        proof {
            assert(candidates.reflects(s.board@, s.size, s.player));
            lemma_any_is_some(candidates.sarsen@, sarsen, n);
            lemma_any_is_some(candidates.lintel_h@, horizontal, n);
            lemma_any_is_some(candidates.lintel_v@, vertical, n);
        }
        let area = s.size.area() as usize;
        match s.pending {
            Pending::Idle => {
                let ghost before = actions@;
                if hand.sarsens > 0 && candidates.has_any_sarsen() {
                    actions.push(Move::Piece(PieceKind::Sarsen));
                }
                if hand.lintels > 0 && candidates.has_any_lintel() {
                    actions.push(Move::Piece(PieceKind::Lintel));
                }
                proof {
                    assert(actions@ =~= before + split_actions(*s));
                }
            },
            Pending::Piece(PieceKind::Sarsen) => {
                push_cells(&candidates.sarsen, area, Ghost(sarsen), actions);
            },
            Pending::Piece(PieceKind::Lintel) => {
                let ghost before = actions@;
                if candidates.has_any_lintel_orient(Orientation::Horizontal) {
                    actions.push(Move::Orientation(Orientation::Horizontal));
                }
                if candidates.has_any_lintel_orient(Orientation::Vertical) {
                    actions.push(Move::Orientation(Orientation::Vertical));
                }
                proof {
                    assert(actions@ =~= before + split_actions(*s));
                }
            },
            Pending::Oriented(o) => {
                let ghost pred = |i: int| lintel_ok(s.board@, s.size, i, o, s.player);
                match o {
                    Orientation::Horizontal => push_cells(&candidates.lintel_h, area, Ghost(pred), actions),
                    Orientation::Vertical => push_cells(&candidates.lintel_v, area, Ghost(pred), actions),
                }
            },
        }
    }
}

/// Changing only the pending phase changes the key by the two pending keys.
proof fn lemma_pending_key_change(keys: DruidKeys, a: State, b: State, bits: int)
    requires
        same_but_pending(a, b),
    ensures
        position_key(keys, b, bits) == position_key(keys, a, bits) ^ pending_key(keys, a.pending) ^ pending_key(keys, b.pending),
{
    lemma_position_parts(keys, a, bits);
    lemma_position_parts(keys, b, bits);
    lemma_replace_part(
        board_key(keys, a.board@, bits, a.board@.len() as int),
        pending_key(keys, a.pending),
        player_key(keys, a.player),
        hand_key(keys, Player::Black, PieceKind::Sarsen, a.hand_black.sarsens, bits),
        hand_key(keys, Player::Black, PieceKind::Lintel, a.hand_black.lintels, bits),
        hand_key(keys, Player::White, PieceKind::Sarsen, a.hand_white.sarsens, bits),
        hand_key(keys, Player::White, PieceKind::Lintel, a.hand_white.lintels, bits),
        pending_key(keys, b.pending),
    );
}

/// Move a position to pending phase `p`, keeping its hash in step.
fn set_pending(state: HashedState, p: Pending, keys: &DruidKeys) -> (r: HashedState)
    requires
        state.inv(*keys),
    ensures
        r.inv(*keys),
        same_but_pending(state.0, r.0),
        r.0.pending == p,
{
    let mut state = state;
    let ghost before = state.0;
    let old = state.0.pending;
    state.0.pending = p;
    proof {
        lemma_pending_key_change(*keys, before, state.0, height_bits(before.size) as int);
    }
    state.1 = state.1 ^ pending_zobrist(old, keys) ^ pending_zobrist(p, keys);
    state
}

impl Split {
    /// Apply a sub-action: a piece kind or an orientation only moves the
    /// pending phase on; a cell plays the chosen placement and returns to
    /// between turns.
    pub fn apply(state: HashedState, m: &Move, keys: &DruidKeys) -> (r: HashedState)
        requires
            state.inv(*keys),
            split_applicable(state.0, *m),
        ensures
            r.inv(*keys),
            match *m {
                Move::Piece(kind) => same_but_pending(state.0, r.0) && r.0.pending == Pending::Piece(kind),
                Move::Orientation(o) => same_but_pending(state.0, r.0) && r.0.pending == Pending::Oriented(o),
                Move::Cell(idx) => pending_piece(state.0.pending) matches Some(piece) && turn_played(
                    state.0,
                    r.0,
                    PlacedPiece(piece, idx),
                ) && r.0.pending == Pending::Idle,
            },
    {
        match *m {
            Move::Piece(kind) => set_pending(state, Pending::Piece(kind), keys),
            Move::Orientation(o) => set_pending(state, Pending::Oriented(o), keys),
            Move::Cell(idx) => {
                let piece = match state.0.pending {
                    Pending::Piece(PieceKind::Sarsen) => Piece::Sarsen,
                    Pending::Oriented(o) => Piece::Lintel(o),
                    _ => {
                        proof {
                            assert(false);
                        }
                        Piece::Sarsen
                    },
                };
                let placed = PlacedPiece(piece, idx);
                let played = apply_turn(state, placed, keys);
                set_pending(played, Pending::Idle, keys)
            },
        }
    }
}

/// Apply a whole-turn placement by sequencing its sub-actions: piece kind,
/// orientation for a lintel, then cell.
pub fn apply_placed(state: HashedState, placed: PlacedPiece, keys: &DruidKeys) -> (r: HashedState)
    requires
        state.inv(*keys),
        state.0.pending == Pending::Idle,
        playable(state.0, placed),
        state.0.board@[placed.1 as int].height < u16::MAX,
    ensures
        r.inv(*keys),
        turn_applied(state.0, r.0, placed),
{
    let kind = placed.0.kind();
    let mut state = Split::apply(state, &Move::Piece(kind), keys);
    match placed.0 {
        Piece::Lintel(o) => {
            state = Split::apply(state, &Move::Orientation(o), keys);
        },
        Piece::Sarsen => {},
    }
    Split::apply(state, &Move::Cell(placed.1), keys)
}

impl Flat {
    /// Append every whole-turn placement legal for the player to move, read
    /// from the legality bits.
    pub fn generate_actions(state: &HashedState, actions: &mut Vec<PlacedPiece>)
        requires
            state.0.wf(),
            state.3.reflects(state.0),
        ensures
            final(actions)@ == old(actions)@ + legal_moves(state.0),
    {
        let s = &state.0;
        proof {
            assert(s.size.w * s.size.h <= 127) by (nonlinear_arith)
                requires
                    2 * s.size.w * s.size.h <= 255,
            ;
        }
        let hand = s.current_hand();
        let candidates = state.3.candidates(s.player);
        let area = s.size.area() as usize;
        let mut i: usize = 0;
        while i < area
            invariant
                s.wf(),
                area == s.size.w * s.size.h,
                area <= 127,
                *hand == hand_of(*s, s.player),
                candidates.reflects(s.board@, s.size, s.player),
                i <= area,
                actions@ == old(actions)@ + moves_upto(*s, i as int),
            decreases area - i,
        {
            let ghost before = actions@;
            if hand.sarsens > 0 && candidates.sarsen(i) {
                actions.push(PlacedPiece(Piece::Sarsen, i as u8));
            }
            if hand.lintels > 0 {
                if candidates.lintel(Orientation::Horizontal, i) {
                    actions.push(PlacedPiece(Piece::Lintel(Orientation::Horizontal), i as u8));
                }
                if candidates.lintel(Orientation::Vertical, i) {
                    actions.push(PlacedPiece(Piece::Lintel(Orientation::Vertical), i as u8));
                }
            }
            proof {
                assert(actions@ =~= before + cell_moves(*s, i as int));
                assert(actions@ =~= old(actions)@ + moves_upto(*s, i + 1));
            }
            i += 1;
        }
    }

    /// Apply a whole-turn placement.
    pub fn apply(state: HashedState, m: &PlacedPiece, keys: &DruidKeys) -> (r: HashedState)
        requires
            state.inv(*keys),
            playable(state.0, *m),
            state.0.board@[m.1 as int].height < u16::MAX,
        ensures
            r.inv(*keys),
            turn_applied(state.0, r.0, *m),
    {
        apply_turn(state, *m, keys)
    }
}

/// Every placement `moves_upto` lists fits and is in hand.
proof fn lemma_moves_upto_playable(s: State, n: int, k: int)
    requires
        s.wf(),
        0 <= n <= s.size.w * s.size.h,
        0 <= k < moves_upto(s, n).len(),
    ensures
        playable(s, moves_upto(s, n)[k]),
    decreases n,
{
    assert(s.size.w * s.size.h <= 127) by (nonlinear_arith)
        requires
            2 * s.size.w * s.size.h <= 255,
    ;
    let prev = moves_upto(s, n - 1);
    if k < prev.len() {
        lemma_moves_upto_playable(s, n - 1, k);
        assert(moves_upto(s, n)[k] == prev[k]);
    } else {
        let c = cell_moves(s, n - 1);
        assert(moves_upto(s, n)[k] == c[k - prev.len()]);
        assert(((n - 1) as u8) as int == n - 1);
    }
}

/// Every whole-turn placement listed as legal can be played: it fits the
/// board and the mover holds its piece.
pub proof fn lemma_legal_moves_playable(s: State, k: int)
    requires
        s.wf(),
        0 <= k < legal_moves(s).len(),
    ensures
        playable(s, legal_moves(s)[k]),
{
    lemma_moves_upto_playable(s, s.size.w * s.size.h, k);
}

/// Pieces the two players have placed so far: a full hand each, less what
/// is left in hand.
pub open spec fn pieces_placed(s: State) -> int {
    let full = crate::druid::types::full_hand(s.size);
    2 * (full.sarsens + full.lintels) - (s.hand_black.sarsens + s.hand_black.lintels + s.hand_white.sarsens
        + s.hand_white.lintels)
}

/// No stack is taller than the number of pieces placed.
pub open spec fn heights_bounded(s: State) -> bool {
    forall|i: int| 0 <= i < s.board@.len() ==> (#[trigger] s.board@[i]).height <= pieces_placed(s)
}

/// A playable placement keeps every stack within the pieces placed, and
/// then no stack can reach the height limit.
pub proof fn lemma_heights_stay_bounded(before: State, after: State, m: PlacedPiece)
    requires
        before.wf(),
        heights_bounded(before),
        playable(before, m),
        turn_played(before, after, m),
    ensures
        heights_bounded(after),
        forall|i: int| 0 <= i < after.board@.len() ==> (#[trigger] after.board@[i]).height < u16::MAX,
{
    assert(before.size.w * before.size.h <= 127) by (nonlinear_arith)
        requires
            2 * before.size.w * before.size.h <= 255,
    ;
    assert(pieces_placed(after) == pieces_placed(before) + 1);
    assert(pieces_placed(after) <= 1020);
    let i = m.1 as int;
    assert(before.board@[i].height <= pieces_placed(before));
    let sq = Square { height: (before.board@[i].height + 1) as u16, piece: Some(before.player) };
    assert(sq.height == before.board@[i].height + 1);
    assert forall|j: int| 0 <= j < after.board@.len() implies (#[trigger] after.board@[j]).height <= pieces_placed(after) by {
        assert(before.board@[j].height <= pieces_placed(before));
        match m.0 {
            Piece::Sarsen => {
                if j != i {
                    assert(after.board@[j] == before.board@[j]);
                }
            },
            Piece::Lintel(o) => {
                let d = lintel_step(before.size, o);
                crate::druid::movecache::lemma_lintel_cells_on_board(before.size, i, o);
                assert(0 <= crate::druid::state::lintel_cell(before.size, i, o, 1) < after.board@.len());
                assert(0 <= crate::druid::state::lintel_cell(before.size, i, o, 2) < after.board@.len());
                let b1 = before.board@.update(i, sq);
                let b2 = b1.update(i + d, sq);
                let b3 = b2.update(i + 2 * d, sq);
                assert(after.board@ == b3);
                if j != i && j != i + d && j != i + 2 * d {
                    assert(b3[j] == before.board@[j]);
                } else {
                    assert(b3[j] == sq);
                }
            },
        }
    }
}

/// The pending phase of `s` was reached through offered sub-actions: a
/// chosen piece kind is in hand with somewhere to go, and a chosen
/// orientation has somewhere to go.
pub open spec fn pending_consistent(s: State) -> bool {
    let hand = hand_of(s, s.player);
    let n = s.size.w * s.size.h;
    match s.pending {
        Pending::Idle => true,
        Pending::Piece(PieceKind::Sarsen) => hand.sarsens > 0,
        Pending::Piece(PieceKind::Lintel) => hand.lintels > 0,
        Pending::Oriented(_) => hand.lintels > 0,
    }
}

/// Every offered sub-action can be applied, and applying it keeps the
/// pending phase consistent.
pub proof fn lemma_split_actions_applicable(s: State, k: int)
    requires
        s.wf(),
        heights_bounded(s),
        pending_consistent(s),
        0 <= k < split_actions(s).len(),
    ensures
        split_applicable(s, split_actions(s)[k]),
        forall|t: State| #[trigger] same_but_pending(s, t) ==> match split_actions(s)[k] {
            Move::Piece(kind) => t.pending == Pending::Piece(kind) ==> pending_consistent(t),
            Move::Orientation(o) => t.pending == Pending::Oriented(o) ==> pending_consistent(t),
            Move::Cell(_) => t.pending == Pending::Idle ==> pending_consistent(t),
        },
{
    assert(s.size.w * s.size.h <= 127) by (nonlinear_arith)
        requires
            2 * s.size.w * s.size.h <= 255,
    ;
    let n = s.size.w * s.size.h;
    assert(pieces_placed(s) <= 1020);
    match s.pending {
        Pending::Piece(PieceKind::Sarsen) => {
            let (i, _) = lemma_cells_where_member(|i: int| sarsen_ok(s.board@, i, s.player), n, k);
            assert(s.board@[i].height <= pieces_placed(s));
        },
        Pending::Oriented(o) => {
            let (i, _) = lemma_cells_where_member(|i: int| lintel_ok(s.board@, s.size, i, o, s.player), n, k);
            assert(s.board@[i].height <= pieces_placed(s));
        },
        _ => {},
    }
}

/// The `k`-th `Cell` action of `cells_where` is a cell below `n` where
/// `pred` holds.
proof fn lemma_cells_where_member(pred: spec_fn(int) -> bool, n: int, k: int) -> (r: (int, bool))
    requires
        0 <= n <= 256,
        0 <= k < cells_where(pred, n).len(),
    ensures
        0 <= r.0 < n,
        pred(r.0),
        cells_where(pred, n)[k] == Move::Cell(r.0 as u8),
    decreases n,
{
    let prev = cells_where(pred, n - 1);
    if k < prev.len() {
        let r = lemma_cells_where_member(pred, n - 1, k);
        assert(cells_where(pred, n)[k] == prev[k]);
        r
    } else {
        assert(cells_where(pred, n)[k] == Move::Cell((n - 1) as u8));
        (n - 1, true)
    }
}

/// The placements of `piece` anchored at the cells `i < n` where `pred`
/// holds, in cell order.
pub open spec fn placements_where(pred: spec_fn(int) -> bool, piece: Piece, n: int) -> Seq<PlacedPiece>
    decreases n,
{
    if n <= 0 {
        Seq::empty()
    } else {
        placements_where(pred, piece, n - 1) + if pred(n - 1) {
            seq![PlacedPiece(piece, (n - 1) as u8)]
        } else {
            Seq::empty()
        }
    }
}

/// The piece a `Cell` sub-action places, given the pending choice.
pub open spec fn pending_piece_or_sarsen(p: Pending) -> Piece {
    match p {
        Pending::Oriented(o) => Piece::Lintel(o),
        _ => Piece::Sarsen,
    }
}

/// The placements a sub-action stands for, in groups that a playout
/// policy scores separately and then takes the best of: every legal sarsen
/// for `Piece(Sarsen)`; the legal horizontal and the legal vertical lintels
/// for `Piece(Lintel)`; the legal lintels of `o` for `Orientation(o)`; the
/// one placement it completes for `Cell`.
pub open spec fn represented(s: State, mover: Player, m: Move) -> Seq<Seq<PlacedPiece>> {
    let n = s.size.w * s.size.h;
    let lintels = |o: Orientation| placements_where(|i: int| lintel_ok(s.board@, s.size, i, o, mover), Piece::Lintel(o), n);
    match m {
        Move::Piece(PieceKind::Sarsen) => seq![placements_where(|i: int| sarsen_ok(s.board@, i, mover), Piece::Sarsen, n)],
        Move::Piece(PieceKind::Lintel) => seq![lintels(Orientation::Horizontal), lintels(Orientation::Vertical)],
        Move::Orientation(o) => seq![lintels(o)],
        Move::Cell(idx) => seq![seq![PlacedPiece(pending_piece_or_sarsen(s.pending), idx)]],
    }
}

/// The placements anchored at cells whose bit is set.
fn placements_of(bits: &Vec<bool>, piece: Piece, Ghost(pred): Ghost<spec_fn(int) -> bool>) -> (r: Vec<PlacedPiece>)
    requires
        bits@.len() <= 256,
        forall|i: int| 0 <= i < bits@.len() ==> #[trigger] bits@[i] == pred(i),
    ensures
        r@ == placements_where(pred, piece, bits@.len() as int),
{
    let mut out: Vec<PlacedPiece> = Vec::new();
    let mut i: usize = 0;
    while i < bits.len()
        invariant
            bits@.len() <= 256,
            i <= bits.len(),
            forall|j: int| 0 <= j < bits@.len() ==> #[trigger] bits@[j] == pred(j),
            out@ == placements_where(pred, piece, i as int),
        decreases bits.len() - i,
    {
        if bits[i] {
            out.push(PlacedPiece(piece, i as u8));
        }
        i += 1;
    }
    out
}

impl Split {
    /// The placements the sub-action `m` of `mover` stands for (see
    /// [`represented`]).
    pub fn scored_placements(state: &HashedState, mover: Player, m: &Move) -> (r: Vec<Vec<PlacedPiece>>)
        requires
            state.0.wf(),
            state.3.reflects(state.0),
        ensures
            r@.len() == represented(state.0, mover, *m).len(),
            forall|g: int| 0 <= g < r@.len() ==> #[trigger] r@[g]@ == represented(state.0, mover, *m)[g],
    {
        let s = &state.0;
        proof {
            assert(s.size.w * s.size.h <= 127) by (nonlinear_arith)
                requires
                    2 * s.size.w * s.size.h <= 255,
            ;
        }
        let candidates = state.3.candidates(mover);
        proof {
            assert(candidates.reflects(s.board@, s.size, mover));
        }
        let ghost n = s.size.w * s.size.h;
        let ghost lh = |i: int| lintel_ok(s.board@, s.size, i, Orientation::Horizontal, mover);
        let ghost lv = |i: int| lintel_ok(s.board@, s.size, i, Orientation::Vertical, mover);
        let mut out: Vec<Vec<PlacedPiece>> = Vec::new();
        match *m {
            Move::Piece(PieceKind::Sarsen) => {
                let g = placements_of(&candidates.sarsen, Piece::Sarsen, Ghost(|i: int| sarsen_ok(s.board@, i, mover)));
                out.push(g);
            },
            Move::Piece(PieceKind::Lintel) => {
                let h = placements_of(&candidates.lintel_h, Piece::Lintel(Orientation::Horizontal), Ghost(lh));
                let v = placements_of(&candidates.lintel_v, Piece::Lintel(Orientation::Vertical), Ghost(lv));
                out.push(h);
                out.push(v);
            },
            Move::Orientation(o) => {
                let g = match o {
                    Orientation::Horizontal => placements_of(&candidates.lintel_h, Piece::Lintel(o), Ghost(lh)),
                    Orientation::Vertical => placements_of(&candidates.lintel_v, Piece::Lintel(o), Ghost(lv)),
                };
                out.push(g);
            },
            Move::Cell(idx) => {
                let piece = match s.pending {
                    Pending::Oriented(o) => Piece::Lintel(o),
                    _ => Piece::Sarsen,
                };
                let mut g: Vec<PlacedPiece> = Vec::new();
                g.push(PlacedPiece(piece, idx));
                out.push(g);
            },
        }
        proof {
            let rep = represented(state.0, mover, *m);
            assert forall|g: int| 0 <= g < out@.len() implies #[trigger] out@[g]@ == rep[g] by {
                match *m {
                    Move::Orientation(o) => {
                        if o == Orientation::Horizontal {
                            assert(lh == (|i: int| lintel_ok(s.board@, s.size, i, o, mover)));
                        } else {
                            assert(lv == (|i: int| lintel_ok(s.board@, s.size, i, o, mover)));
                        }
                    },
                    Move::Piece(PieceKind::Lintel) => {
                        assert(lh == (|i: int| lintel_ok(s.board@, s.size, i, Orientation::Horizontal, mover)));
                        assert(lv == (|i: int| lintel_ok(s.board@, s.size, i, Orientation::Vertical, mover)));
                    },
                    _ => {},
                }
            }
        }
        out
    }
}

} // verus!
