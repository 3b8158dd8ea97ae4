//! The engine of a five-letter word-guessing game: letter sets, packed words, the constraint
//! filter that gathers what each guess tells about a hidden word, and the ranking of the
//! remaining candidates by how well each would split them.

pub mod charset;
pub mod dictionary;
pub mod filter;
pub mod rank;
pub mod state;
pub mod word;
