//! A heuristic helper for one turn of a letter-guessing game: given a
//! partially revealed pattern (blanks written `_`) and the letters already
//! guessed, it ranks the letters that could fill the blanks by how many
//! dictionary words would put them there.

pub mod guess;
pub mod pattern;
pub mod tally;
