//! Engine for a five-letter word-guessing puzzle: a feedback encoder with
//! duplicate-letter semantics, an offline builder that serializes the full
//! guess-by-target feedback matrix, and an online solver that narrows the set
//! of possible answers and picks the guess with the highest information score.

pub mod builder;
pub mod candidates;
pub mod pattern_builder;
pub mod entropy;
pub mod feedback;
pub mod wordle;
