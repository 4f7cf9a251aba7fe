//! Hidden state of one round of a team word-guessing game: a five by five
//! grid of codewords, each secretly owned by one of two teams, by nobody, or
//! by the assassin, together with the rule that hides that state from
//! players who are not allowed to see it.

pub mod board;
pub mod lexicon;
pub mod protocol;
mod random;
