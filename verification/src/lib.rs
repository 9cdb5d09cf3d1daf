//! A steppable backtracking solver for 9x9 Sudoku.
//!
//! The solver is a state machine that decides one cell per step, so that a
//! caller can draw, pause or stop between any two steps. [`SudokuSolver`] is
//! the machine; [`solve`] runs it to its end in one call. What the machine is
//! and what holds of its runs is stated over [`SolverState`], the
//! mathematical state that every solver stands for.

pub mod batch;
pub mod candidate;
pub mod grid;
pub mod laws;
pub mod measure;
pub mod search;
pub mod solution;
pub mod solver;
pub mod soundness;
pub mod state;
pub mod validator;

pub use crate::batch::solve;
pub use crate::grid::Grid;
pub use crate::solver::SudokuSolver;
pub use crate::state::{CellKind, SolverState, GAME_STATE};
