//! Akron, a pyramidal connection game: which same-coloured pieces are
//! connected once higher opposing connections cut the ones below them.

pub mod forest;
pub mod connectivity;
