//! Core mechanics of a sliding-tile merge puzzle: a generic grid and a
//! square board of tiles that compacts and merges when shifted.
pub mod matrix;
mod random;
pub mod field;
pub mod action;
