//! A three-by-three board game of alternating marks, with an exhaustive
//! minimax search for the computer's move.
pub mod game;
pub mod minimax;
