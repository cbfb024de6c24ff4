//! Rule engine for a five-letter word-guessing game.
//!
//! The engine scores a guess against a secret word with the classic
//! three-state feedback rule (correct handling of repeated letters),
//! accumulates per-letter and per-position constraints used to validate
//! guesses in strict mode, and ranks candidate words for the advisory
//! suggestion feature.  Everything around it (terminal and file I/O,
//! argument handling, rendering) lives outside this crate's library.

pub mod constraints;
pub mod feedback;
pub mod rank;
pub mod session;
pub mod status;
pub mod tally;
pub mod verdict;
pub mod word;
pub mod wordlist;
