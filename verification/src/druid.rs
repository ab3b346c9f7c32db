//! Druid, a connection game designed by Cameron Browne: players stack
//! one-cell sarsens and three-cell lintels, and Black wins by joining the
//! top and bottom edges with pieces of their color on top, White by joining
//! left and right.

pub mod types;
pub mod zobrist;
pub mod state;
pub mod connect;
pub mod distance;
pub mod movecache;
pub mod game;
pub mod moves;
pub mod connectivity;
pub mod cellset;
pub mod heuristics;
