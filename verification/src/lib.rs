//! Generation of uniquely solvable 9×9 Sudoku puzzles.
//!
//! A solved grid is produced by a randomised backtracking search; cells are then
//! cleared one at a time for as long as the puzzle keeps exactly one solution.
//! Every function states its result over the model in [`board`] and [`completion`].

pub mod board;
pub mod completion;
pub mod filler;
pub mod placement;
pub mod random;
pub mod remover;
pub mod solver;
pub mod text;

pub use board::Board;
pub use filler::{create_sudoku, fill, fill_recursive};
pub use placement::{find_empty_location, is_safe, used_in_box, used_in_col, used_in_row};
pub use remover::{remove_cells, try_remove};
pub use solver::solve_count;
pub use text::render;
