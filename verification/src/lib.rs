//! A solver for fixed-length word-guessing games in the style of Wordle.
//!
//! The engine scores a guess against a hidden answer, accumulates clues into
//! a constraint over the remaining plausible answers, ranks candidate guesses
//! by an information metric (expected entropy or minimax surprise), and can
//! play whole games against every answer in a vocabulary.

pub mod bot;
pub mod constraint;
pub mod fixedlog;
pub mod laws;
pub mod metrics;
pub mod parse;
pub mod play;
pub mod scorer;
pub mod word;
