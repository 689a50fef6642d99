//! Solvers for a collection of small text puzzles.
//!
//! The heart of the crate is `range_map`: an interval-rewrite pipeline that
//! maps half-open ranges of integers through ordered stages of partial
//! substitution tables, splitting ranges as needed and leaving uncovered
//! sub-ranges untouched. The other modules are the per-puzzle computations
//! that consume parsed input and produce the two numeric answers.

pub mod almanac;
pub mod calibration;
pub mod cube_game;
pub mod range_map;
pub mod schematic;
pub mod scratch_cards;
