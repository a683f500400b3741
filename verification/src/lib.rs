//! Core mechanics of a sliding-tile merge puzzle on a square grid: rows that
//! collapse towards an edge and merge equal tiles, the four moves of a board
//! built on them, new tiles, and the status of a game.

pub mod board;
pub mod game;
pub mod laws;
pub mod moves;
pub mod power;
mod random;
pub mod row;
mod scan;
pub mod spawn;
pub mod tally;

pub use game::{new, Game, InvalidTargetError, NoValidMovesLeftError, Status};
