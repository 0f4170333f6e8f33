//! A solver for square grid-filling puzzles under the generalized
//! Latin-square constraint: every row and every column of an n-by-n grid
//! must hold each symbol of the alphabet {1..n} exactly once.
//!
//! The solver initializes a candidate set per cell, propagates naked and
//! hidden singles to a fixpoint, and falls back to depth-first backtracking
//! search. Its contracts state that it succeeds exactly when a valid
//! completion of the input exists: any grid it reports solved is a Latin
//! square that preserves the pre-filled cells of the input, success is owed
//! whenever such a square exists, an already solved input comes back
//! unchanged, and an input whose pre-filled cells conflict is reported
//! unsolvable.

pub mod grid;
pub mod laws;
pub mod model;
pub mod propagate;
pub mod search;
pub mod totals;

pub use grid::{
    Grid, SolveError, clone_cell, clone_grid, from_input, set_cell, to_output,
    well_formed_input,
};
pub use propagate::{eliminate_pass, find_unique_values, propagate};
pub use search::{is_solved, solve_grid, solver};
