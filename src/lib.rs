//! A character-level Markov model of names: frequency tables of next
//! characters, filed under a sliding window of the preceding characters.

pub mod frequency_table;
pub mod text;
pub mod model;
pub mod generation;
