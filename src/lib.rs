//! Entropy ranking of guesses for a Wordle-style game played with kana syllables.

pub mod kana;
pub mod rank;
pub mod tally;
pub mod tiles;
