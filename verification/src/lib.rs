//! The rules of Go on a board of nineteen by nineteen intersections:
//! which stones may be placed, which are taken, and the history of a game.
//!
//! A position is kept as bits, a row to a word, and a group of stones is
//! found by growing a mask row by row until it grows no more.

pub mod bits;
pub mod capture;
pub mod color;
pub mod mask;
pub mod mask_row;
pub mod region;
pub mod rules;
pub mod state;
mod text;
pub mod tree;
