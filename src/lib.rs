//! The 8-puzzle: a 3x3 sliding-tile board, its legal moves, shuffling by
//! random legal slides, and detection of the solved arrangement.

pub mod direction;
pub mod puzzle;
pub mod moves;
pub mod shuffle;
