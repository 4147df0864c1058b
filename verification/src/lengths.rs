//! The length rule: the two words and every word of the pool have one
//! length. A search that is asked for with the rule broken is refused before
//! it begins.

use crate::search::{is_answer, solve, Depth};
use crate::word::{words_of, Word};
use vstd::prelude::*;
use vstd::string::StrSliceExecFns;

verus! {

/// The first breach of the length rule, measured against the start word.
#[derive(Clone, Copy, Debug, PartialEq, Eq, Structural)]
pub enum LengthError {
    /// The end word has `found` letters where the start word has `expected`.
    End { expected: usize, found: usize },
    /// The pool word at `index` has `found` letters where the start word has
    /// `expected`, and no pool word before it breaks the rule.
    Pool { index: usize, expected: usize, found: usize },
}

/// The end word and every pool word are as long as the start word.
pub open spec fn uniform_lengths(start: Seq<char>, end: Seq<char>, pool: Seq<Seq<char>>) -> bool {
    &&& end.len() == start.len()
    &&& forall|i: int| 0 <= i < pool.len() ==> (#[trigger] pool[i]).len() == start.len()
}

/// Word `i` is the first word of `pool` whose length is not `len`.
pub open spec fn first_misfit(pool: Seq<Seq<char>>, len: nat, i: int) -> bool {
    &&& 0 <= i < pool.len()
    &&& pool[i].len() != len
    &&& forall|j: int| 0 <= j < i ==> (#[trigger] pool[j]).len() == len
}

/// `fault` reports the first breach of the length rule: the end word where
/// it breaks the rule, else the first pool word that does.
pub open spec fn is_first_fault(
    fault: LengthError,
    start: Seq<char>,
    end: Seq<char>,
    pool: Seq<Seq<char>>,
) -> bool {
    match fault {
        LengthError::End { expected, found } => {
            &&& expected == start.len()
            &&& found == end.len()
            &&& end.len() != start.len()
        },
        LengthError::Pool { index, expected, found } => {
            &&& end.len() == start.len()
            &&& expected == start.len()
            &&& first_misfit(pool, start.len(), index as int)
            &&& found == pool[index as int].len()
        },
    }
}

/// Holds the words of a request to the length rule: `Ok` exactly when they
/// all have one length, else the first breach.
pub fn check_lengths(start: &str, end: &str, pool: &[Word<'_>]) -> (checked: Result<
    (),
    LengthError,
>)
    ensures
        match checked {
            Ok(_) => uniform_lengths(start@, end@, words_of(pool@)),
            Err(fault) => is_first_fault(fault, start@, end@, words_of(pool@)),
        },
{
    let expected = start.unicode_len();
    let found = end.unicode_len();
    if found != expected {
        return Err(LengthError::End { expected, found });
    }
    let mut index: usize = 0;
    while index < pool.len()
        invariant
            index <= pool@.len(),
            expected == start@.len(),
            end@.len() == start@.len(),
            forall|j: int| 0 <= j < index ==> (#[trigger] words_of(pool@)[j]).len() == expected,
        decreases pool@.len() - index,
    {
        let found = pool[index].unicode_len();
        if found != expected {
            return Err(LengthError::Pool { index, expected, found });
        }
        index += 1;
    }
    Ok(())
}

/// The distance from `start` to `end` through `pool`, for words of one
/// length; a request that breaks the length rule is refused with its first
/// breach, and nothing is searched.
pub fn try_solve<'a>(start: Word<'a>, end: &str, pool: Vec<Word<'a>>) -> (result: Result<
    Option<Depth>,
    LengthError,
>)
    ensures
        match result {
            Ok(found) => {
                &&& uniform_lengths(start@, end@, words_of(pool@))
                &&& is_answer(found, start@, end@, words_of(pool@))
                &&& start@ == end@ ==> found == Some(0usize)
            },
            Err(fault) => is_first_fault(fault, start@, end@, words_of(pool@)),
        },
{
    match check_lengths(start, end, pool.as_slice()) {
        Ok(_) => Ok(solve(start, end, pool)),
        Err(fault) => Err(fault),
    }
}

/// The length rule holds or has a first breach, never both, and the first
/// breach is one breach only.
pub proof fn lemma_first_fault_unique(
    first: LengthError,
    second: LengthError,
    start: Seq<char>,
    end: Seq<char>,
    pool: Seq<Seq<char>>,
)
    requires
        is_first_fault(first, start, end, pool),
    ensures
        !uniform_lengths(start, end, pool),
        is_first_fault(second, start, end, pool) ==> first == second,
{
}

} // verus!
