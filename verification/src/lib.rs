//! A solver for 9×9 Sudoku boards.
//!
//! A board is solved by forced placements, as long as some cell has a
//! single candidate left, and by a search with backtracking where none has.
//! The solver succeeds exactly when the board has a solution, and it leaves
//! the board unchanged by any trial that failed.
//!
//! - [`grid`]: the board, its rows, columns and blocks.
//! - [`validity`]: valid and complete units and boards.
//! - [`candidates`]: the digits that a cell can still take.
//! - [`solutions`]: what a solution is, and what keeps the solutions of a board.
//! - [`elimination`]: forced placements.
//! - [`space`]: the list of empty cells that the search chooses from.
//! - [`search`]: what the search finds, as a function of the board.
//! - [`solver`]: the search and the solver itself.
//! - [`laws`]: what holds of every run of the solver.
//! - [`loader`]: reading a board from text.

pub mod grid;
pub mod validity;
pub mod candidates;
pub mod solutions;
pub mod elimination;
pub mod space;
pub mod search;
pub mod solver;
pub mod laws;
pub mod loader;

pub use candidates::{candidate_list, get_one_2_nine, get_opts, remove_unit};
pub use elimination::{eliminate, solve_one};
pub use grid::{get_backup, get_box, get_col, get_empty_board, get_row, Board};
pub use loader::{parse_board, parse_bytes, parse_field, parse_row, read_board, LoadError, RowError};
pub use solver::{backtrack, solve, try_candidate};
pub use space::{search_space, sort_space, Space};
pub use validity::{
    done, find_invalid_unit, is_complete_set, is_valid, is_valid_set, UnitId,
};
