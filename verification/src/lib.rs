//! Verified board-game engines and helpers.

pub mod bits;
pub mod grid;
pub mod bigbitboard;
pub mod symmetry;
pub mod focus;
pub mod connect4;
pub mod druid;
pub mod go_engine;
pub mod akron;
pub mod congo;
pub mod atarigo;
pub mod breakthrough;
