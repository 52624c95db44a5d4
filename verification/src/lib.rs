//! Othello (Reversi) on bitboards, with game-playing agents.
pub mod agents;
pub mod bits;
pub mod othello;
mod rng;
