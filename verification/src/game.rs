//! The word chain game on the built-in dictionary.

use crate::dictionary::{dictionary, get_words};
use crate::search::{is_answer, solve, Depth};
use crate::word::Word;
use vstd::prelude::*;

verus! {

/// The least number of single-letter substitutions that lead from `start` to
/// `end` through the words of the built-in dictionary, or `None` where no
/// chain of dictionary words joins them.
pub fn word_chain_game(start: Word<'_>, end: Word<'_>) -> (result: Option<Depth>)
    ensures
        is_answer(result, start@, end@, dictionary()),
        start@ == end@ ==> result == Some(0usize),
{
    solve(start, end, get_words())
}

} // verus!
