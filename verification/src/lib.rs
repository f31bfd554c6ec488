//! Static strategies for Wordle: the feedback a guess earns against a secret word,
//! the check of a candidate word against that feedback, the enumeration of all
//! fixed-size combinations of guesses, and the bookkeeping around word lists.

pub mod comb;
pub mod strategy;
pub mod utils;
pub mod words;
