//! The plain-value shape of a Focus position exchanged with a host, and
//! the per-player-count names a host lists games under.

use vstd::prelude::*;
use crate::focus::cells::{cell_color_at, cell_height, height_of, stack_of, lemma_height_bound};
use crate::focus::game::{Player, State};

verus! {

/// Why a wire position was refused.
#[derive(Clone, Copy, PartialEq, Eq, Debug)]
pub enum WireError {
    /// `cells` did not have 64 entries; holds the length seen.
    CellsLength(usize),
    /// `reserves` did not have one entry per player; holds the length seen.
    ReservesLength(usize),
}

/// A cell word's pieces, bottom to top (empty for an empty cell).
pub fn cell_stack(w: u16) -> (r: Vec<u8>)
    ensures
        r@ == stack_of(w),
{
    let mut out: Vec<u8> = Vec::new();
    if w == 0 {
        return out;
    }
    let h = cell_height(w);
    let mut j: u32 = 0;
    while j < h
        invariant
            w != 0,
            h == height_of(w),
            h <= 7,
            j <= h,
            out@ == stack_of(w).take(j as int),
        decreases h - j,
    {
        out.push(cell_color_at(w, j));
        proof {
            assert(out@ =~= stack_of(w).take(j + 1));
        }
        j += 1;
    }
    proof {
        assert(out@ =~= stack_of(w));
    }
    out
}

/// Builds a position from its wire parts: `cells` must have 64 entries and
/// `reserves` one per player; the words and hash are taken as given.
pub fn state_from_wire<const P: usize>(cells: &Vec<u16>, reserves: &Vec<u8>, turn: usize, hash: u64) -> (r: Result<State<P>, WireError>)
    ensures
        cells@.len() != 64 ==> r == Err::<State<P>, WireError>(WireError::CellsLength(cells@.len() as usize)),
        cells@.len() == 64 && reserves@.len() != P ==> r == Err::<State<P>, WireError>(WireError::ReservesLength(reserves@.len() as usize)),
        cells@.len() == 64 && reserves@.len() == P ==> (r matches Ok(s) && s.cells@ == cells@
            && s.reserves@ == reserves@ && s.turn == Player(turn as u8) && s.hash == hash),
{
    if cells.len() != 64 {
        return Err(WireError::CellsLength(cells.len()));
    }
    if reserves.len() != P {
        return Err(WireError::ReservesLength(reserves.len()));
    }
    let mut c = [0u16; 64];
    let mut i: usize = 0;
    while i < 64
        invariant
            cells@.len() == 64,
            i <= 64,
            forall|k: int| 0 <= k < i ==> #[trigger] c@[k] == cells@[k],
        decreases 64 - i,
    {
        c[i] = cells[i];
        i += 1;
    }
    let mut res = [0u8; P];
    let mut p: usize = 0;
    while p < P
        invariant
            reserves@.len() == P,
            p <= P,
            forall|k: int| 0 <= k < p ==> #[trigger] res@[k] == reserves@[k],
        decreases P - p,
    {
        res[p] = reserves[p];
        p += 1;
    }
    proof {
        assert(c@ =~= cells@);
        assert(res@ =~= reserves@);
    }
    Ok(State { cells: c, reserves: res, turn: Player(turn as u8), hash })
}

/// The host-facing adapter of the `P`-player game.
pub struct FocusAdapter<const P: usize>;

impl<const P: usize> FocusAdapter<P> {
    /// The wire-protocol kind of the `P`-player game.
    pub fn kind_str() -> (r: &'static str)
        requires
            2 <= P <= 4,
        ensures
            P == 2 ==> r@ == "focus-2p"@,
            P == 3 ==> r@ == "focus-3p"@,
            P == 4 ==> r@ == "focus-4p"@,
    {
        if P == 2 {
            "focus-2p"
        } else if P == 3 {
            "focus-3p"
        } else {
            "focus-4p"
        }
    }

    /// The display label of the `P`-player game.
    pub fn label_str() -> (r: &'static str)
        requires
            2 <= P <= 4,
        ensures
            P == 2 ==> r@ == "Focus (2p)"@,
            P == 3 ==> r@ == "Focus (3p)"@,
            P == 4 ==> r@ == "Focus (4p)"@,
    {
        if P == 2 {
            "Focus (2p)"
        } else if P == 3 {
            "Focus (3p)"
        } else {
            "Focus (4p)"
        }
    }
}

} // verus!
