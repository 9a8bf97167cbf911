//! A solver for word-guessing puzzles of the hangman family.
//!
//! A puzzle pattern (`pattern`) is matched against a dictionary of candidate
//! words (`dictionary`); the letters of the remaining candidates are counted
//! and ranked, and a small state machine (`solver`) turns the ranking into a
//! suggestion and folds the guesser's feedback back into the pattern.
pub mod text;
pub mod pattern;
pub mod dictionary;
pub mod solver;
pub mod store;
pub mod feedback;
