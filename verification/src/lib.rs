//! A Sudoku constraint-propagation engine.
//!
//! Every cell of a 9x9 grid carries the set of digits it may still hold.
//! Two deduction rules — naked-subset elimination and hidden-single
//! induction — shrink those sets until a fixed point is reached or a
//! contradiction is found. There is no guessing: puzzles that pure
//! propagation cannot finish converge to a stuck state.

pub mod cells;
pub mod units;
pub mod board;
pub mod engine;
pub mod induction;
pub mod solver;
pub mod laws;

pub use cells::Cell;
pub use cells::SudokuError;
pub use board::Sudoku;
