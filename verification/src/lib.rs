//! A verified core for the "15" number-picking game.
//!
//! Two players alternately claim the numbers 1 through 9; the first side
//! holding three numbers that sum to exactly 15 wins.  This crate holds the
//! combinatorial engine over the claimed and available numbers, the
//! per-session game state machine, and the parsing of the client's move
//! lines.  Reading and writing the network connection stays outside.

pub mod game;
pub mod numbers;
pub mod parse;
