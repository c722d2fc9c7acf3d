pub mod a_star;
pub mod config;
pub mod count;
pub mod frontier;
pub mod goal;
pub mod heuristic;
pub mod ida_star;
pub mod parity;
pub mod parse;
pub mod puzzle;
pub mod search;
pub mod snail;
pub mod state;
pub mod sums;
pub mod text;

pub use config::Config;
pub use puzzle::Puzzle;
pub use search::{Heuristic, Mode, Solution, SolveError, Variant};
pub use snail::SnailIterator;
pub use state::{neighbors, Direction, Node};
