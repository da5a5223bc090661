//! A nonogram solving library built around line-wise constraint propagation.
//!
//! The solver enumerates every arrangement of a line's run-length hint,
//! intersects the arrangements that are still viable with the current line,
//! and writes the forced cells back into the board until no line changes.

pub mod bitset;
pub mod board;
pub mod board_formatter;
pub mod calculator;
pub mod cell;
pub mod comb_counter;
pub mod distribution;
pub mod line_pattern;
pub mod parser;
pub mod shuffle;
pub mod solver;
pub mod solver_display;
pub mod solving_strategy;
pub mod types;

pub use cell::Cell;
