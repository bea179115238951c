//! A solver for Battle Sheep, a territory game on a hexagonal grid.
//!
//! The crate holds the board model, the move generator, the position
//! evaluator and a negamax searcher with alpha-beta pruning, the text
//! notation of boards and an editor for setting up a board by hand. Every
//! function carries a contract over the mathematical model of a board,
//! [`board::Grid`], and the laws of the game and of the search are proved
//! beside the functions.

pub mod board;
pub mod closing;
pub mod edge;
pub mod editor;
pub mod eval;
pub mod fields;
pub mod folding;
pub mod minimax;
pub mod moves;
pub mod notation;
pub mod roundtrip;
pub mod search;
pub mod sorting;
pub mod text;

pub use search::{choose_move, evaluate, fold_result, minimax_evaluate};
pub use sorting::sort_iter_by_cached_key;
