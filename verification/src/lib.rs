//! The engine of a word-guessing game and of a helper that recommends guesses.
//!
//! The secret is a word of five letters. Every guess is answered with a pattern that marks
//! each of its letters as absent, as present at another place, or as exact. From the guesses
//! made so far the helper works out which secrets are still possible, scores every guess by
//! how well it splits them, and looks a few turns ahead for sequences of guesses that split
//! them best.
//!
//! The score of a split is left to the caller: the engine hands the sizes of the groups to a
//! scorer and puts the guesses in the order of the scores that come back. A scorer that gives
//! the Shannon entropy of the split makes the ranking one by information.

pub mod arg;
pub mod beam;
pub mod file;
pub mod game;
pub mod order;
pub mod partition;
pub mod solver;
pub mod word;
