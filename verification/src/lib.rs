//! A Mastermind code-breaking engine with machine-checked contracts.
//!
//! A code is a row of holes, each filled with one of a fixed set of colours.
//! The engine plays the codebreaker: it proposes guesses, receives feedback
//! (exact and colour-only matches) and narrows the set of codes that are still
//! possible, always choosing the guess whose worst case leaves the fewest.

pub mod std_specs;
pub mod numeral;
pub mod feedback;
pub mod error;
pub mod board;
pub mod text;
pub mod matrix;
pub mod scoring;
pub mod minimax;
pub mod game;
pub mod play;
pub mod notation;
