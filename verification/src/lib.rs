//! Padded-board geometry for a Go-like game.
//!
//! A board of side `S` is stored on a padded `(S + 2) x (S + 2)` grid whose
//! outer ring is permanently out of bounds, so that the four neighbours of any
//! playable intersection are always valid positions.

pub mod bitboard;
pub mod board;
pub mod geometry;
