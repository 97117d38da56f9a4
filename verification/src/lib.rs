//! Rules engine for a sliding-tile merge puzzle on a square grid.
//!
//! A board of `N x N` numeric tiles responds to directional move commands:
//! tiles slide toward the chosen edge, equal neighbours merge once per move,
//! the score grows by each merged value, and a fresh tile is spawned after
//! every move that changed the board. The engine is purely computational;
//! rendering and input handling live outside it.

pub mod game;
pub mod grid;
mod moves;
mod rng;

pub use game::ConfigError;
pub use game::Game;
pub use grid::Direction;
