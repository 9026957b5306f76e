//! Core of a terminal word-guessing game: a trie-backed dictionary of
//! words, a guess evaluator that classifies every letter of an attempt,
//! and a round controller that drives up to six attempts against one
//! secret word.

pub mod dict;
pub mod eval;
pub mod loader;
pub mod round;
