//! A solver for Sokoban-style pushing puzzles.
//!
//! The crate is organised bottom-up:
//! - [`bitv`] holds a fixed-capacity bit region over board cells and the
//!   word-level dilation primitive the whole engine is built on;
//! - [`board`] parses level text into the static masks (floor, targets,
//!   places) and the starting configuration;
//! - [`position`] is one search node: a box configuration plus the region of
//!   cells the player can reach, with flood fill and move generation;
//! - [`tree`] is the append-only parent-link table used to rebuild a winning
//!   path;
//! - [`solver`] is the breadth-first search driver.

pub mod bitv;
pub mod board;
pub mod position;
pub mod solver;
pub mod tree;
