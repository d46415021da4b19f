//! Kalah (six houses a side) with a Monte Carlo tree search player.
pub mod game;
pub mod policy;
