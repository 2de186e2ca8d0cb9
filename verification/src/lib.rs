//! The game of Y on a board of 93 points, with an engine that evaluates
//! positions by chain distances to the sides and searches with alpha-beta.

pub mod bits;
pub mod board;
pub mod bot;
pub mod game;
pub mod group;
pub mod laws;
pub mod positions;
pub mod search;
pub mod table;

pub use board::{neighbours, side, NO_MOVE};
pub use bot::{Bot, INF};
pub use game::{Game, GameError, GameState};
pub use positions::parse_positions;
pub use table::Transpositions;
