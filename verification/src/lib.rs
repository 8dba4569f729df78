//! A Sudoku solving engine for boards of arbitrary sub-box order.
//!
//! Two independent solving paths are offered:
//! - a constraint-propagation simulation (`wave_function_collapse`) that a
//!   caller steps one move at a time, watching candidate sets shrink and
//!   rolling back over snapshots when a contradiction appears;
//! - an exhaustive depth-first solver (`gameboard`) over the classic 9x9
//!   board, used as a self-contained baseline.

pub mod board;
pub mod gameboard;
pub mod pqueue;
pub mod wave_function_collapse;
pub mod utils;
