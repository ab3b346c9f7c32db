//! Connect Four on the standard 6x7 board: the pieces of the engine that
//! are plain integer logic (move and player types, the reference-diagnostic
//! labelling rules and board checks, and the four-in-a-row window set).
//!
//! Cells are row-major with row 0 at the bottom: `cell = row * 7 + col`.

pub mod heuristic;
pub mod reference;
pub mod windows;
pub mod game;
pub mod codec;
pub mod dump;

use vstd::prelude::*;

verus! {

/// Rows of the standard board.
pub const ROWS: usize = 6;

/// Columns of the standard board.
pub const COLS: usize = 7;

/// The two sides; Black moves first.
#[derive(Copy, Clone, Debug, Hash, PartialEq, Eq)]
pub enum Player {
    Black,
    White,
}

impl Player {
    /// The other side.
    pub fn next(self) -> (r: Player)
        ensures
            r != self,
    {
        match self {
            Player::Black => Player::White,
            Player::White => Player::Black,
        }
    }
}

/// A drop into column `.0`.
#[derive(Clone, Copy, Debug, Hash, PartialEq, Eq)]
pub struct Move(pub u8);

impl Move {
    /// The column the disc is dropped into.
    pub fn col(self) -> (r: usize)
        ensures
            r == self.0,
    {
        self.0 as usize
    }
}

} // verus!
