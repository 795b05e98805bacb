//! Rule engine for a sliding-tile merge puzzle: a 4x4 grid of numeric tiles
//! where each move compacts rows or columns toward one edge, merging equal
//! neighbours once per move and accumulating their sum into a score.

pub mod board;
pub mod laws;
pub mod line;
mod index_set;
mod rng;

pub use board::Board;
pub use board::Move;
pub use board::index;
