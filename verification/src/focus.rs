//! Focus (a.k.a. Domination), designed by Sid Sackson, for 2, 3 or 4
//! players on an 8x8 board with its corners notched off.

pub mod cells;
pub mod game;
pub mod play;
pub mod wire;
pub mod rules;
