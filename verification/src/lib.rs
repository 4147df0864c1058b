//! Shortest word chains.
//!
//! A word chain leads from one word to another by changing one letter at a
//! time, every word on the way being taken from a pool of words. This crate
//! finds the length of a shortest chain, or finds that there is none.
//!
//! - [`word`]: words, the Hamming distance and adjacency;
//! - [`chain`]: chains, the distance they define, and what holds of it;
//! - [`search`]: the breadth-first search, [`solve`], and its parts;
//! - [`lengths`]: the rule that all words of a request have one length, and
//!   [`try_solve`], which refuses a request that breaks it;
//! - [`dictionary`]: the built-in dictionary of three-letter words;
//! - [`game`]: the search on the built-in dictionary, [`word_chain_game`].

pub mod chain;
pub mod dictionary;
pub mod game;
pub mod lengths;
pub mod search;
mod trace;
pub mod word;

pub use dictionary::get_words;
pub use game::word_chain_game;
pub use lengths::{check_lengths, try_solve, LengthError};
pub use search::{find_depth, search_state, solve, step, Depth, SearchState};
pub use word::{is_adjacent, same_word, Word};
