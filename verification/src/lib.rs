//! An N-puzzle solver: sliding-tile boards, a family of cost-to-go
//! estimates, a parity test for solvability and an A* search that returns
//! the moves together with its frontier and expansion counters.
//!
//! - [`board`]: a board, its layout as a mathematical value, its neighbours
//!   and its inversions.
//! - [`tile_move`]: the four moves of the blank.
//! - [`route`]: what a sequence of moves leads to.
//! - [`heuristic`]: the estimates, each with the proof that it never
//!   overestimates.
//! - [`state`], [`frontier`], [`closed`]: the nodes of the search, the
//!   priority queue of those still to expand and the record of those
//!   expanded.
//! - [`search`]: what holds while the search runs.
//! - [`solver`]: the parity test and the search itself.
//! - [`parser`], [`puzzle`]: from the text of two boards to the moves.

pub mod board;
pub mod closed;
pub mod frontier;
pub mod heuristic;
pub mod parser;
pub mod puzzle;
pub mod route;
pub mod search;
pub mod solver;
pub mod state;
pub mod tile_move;

pub use crate::board::{Board, Layout, Tile};
pub use crate::closed::Closed;
pub use crate::frontier::Frontier;
pub use crate::heuristic::{
    index_positions, Dijkstra, Euclidean, Heuristic, Manhattan, MissPlaced, OutOfRaw,
};
pub use crate::parser::{is_teals_valid, parse_file, remove_comments, ParseError};
pub use crate::puzzle::{board_from_rows, solve_text, Failure, HeuristicKind};
pub use crate::solver::{is_solvable, Error, Solver};
pub use crate::state::State;
pub use crate::tile_move::Move;
