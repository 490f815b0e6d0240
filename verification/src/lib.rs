//! Sokoban: a board with verified rules for stepping, pushing and taking
//! back, a reader for map texts, and two solvers built on the board.

pub mod model;
pub mod board;
pub mod grammar;
pub mod laws;
pub mod parse;
pub mod path;
pub mod watch;
pub mod dfs;
pub mod a_star;
pub mod text;

pub use a_star::{a_star, heuristic, largest_budget, Outcome, State};
pub use board::{GameBoard, DIRECTIONS};
pub use dfs::{dfs, iterative_deepening};
pub use grammar::ParseError;
pub use model::{Actions, Board, Directions, Entities};
pub use watch::{Observer, Silent};
