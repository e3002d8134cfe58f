//! A 9x9 number-placement puzzle solver based on pure elimination.
//!
//! The solver repeatedly finds an empty cell with exactly one legal digit
//! (a "naked single"), commits that digit, and recomputes legality for the
//! remaining empty cells, until the grid is complete or no progress can be
//! made.  Puzzles that need guessing are reported as a typed failure.

pub mod engine;
pub mod grid;
pub mod laws;
pub mod legality;

pub use engine::SolveError;
pub use engine::calculate_possibilities;
pub use engine::solve;
pub use grid::Grid;
pub use legality::calculate_possibilities_for_cell;
pub use legality::get_col_numbers;
pub use legality::get_subgrid_numbers;
