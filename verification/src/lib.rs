//! A falling-block puzzle: the board and piece state machine, a placement
//! search that plays it, and a genetic optimizer for the search's weights.

pub mod ai;
pub mod block;
pub mod board;
pub mod ga;
pub mod game;
pub mod genome;
pub mod motion;
pub mod order;
pub mod play;
mod random;
