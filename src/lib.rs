//! Conway's Game of Life on a bounded grid, with the B3/S23 rule.
//!
//! Coordinates handed to and returned by the library are 1-indexed
//! `(row, column)` pairs; the dense grid used inside a step is 0-indexed,
//! with `height` rows of `width` cells.
pub mod game;
pub mod grid;
pub mod text;
