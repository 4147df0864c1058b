//! Breadth-first search for the shortest chain between two words.

use crate::chain::{chain_distance, lemma_distance_is_shortest, lemma_distance_to_self};
use crate::trace::{
    consistent, lemma_exhausted_unconnected, lemma_expansion_consistent, lemma_hit_is_distance,
};
use crate::word::{adjacent, is_adjacent, same_word, words_of, Word};
use std::collections::VecDeque;
use vstd::prelude::*;

verus! {

/// The number of steps that lead from the start word to a word.
pub type Depth = usize;

/// Holds of the candidates that are adjacent to `word`.
pub open spec fn next_to<'a>(word: Seq<char>) -> spec_fn(Word<'a>) -> bool {
    |c: Word<'a>| adjacent(word, c@)
}

/// Holds of the candidates that are not adjacent to `word`.
pub open spec fn apart_from<'a>(word: Seq<char>) -> spec_fn(Word<'a>) -> bool {
    |c: Word<'a>| !adjacent(word, c@)
}

/// Makes a frontier entry of a word, at the given depth.
pub open spec fn at_depth<'a>(depth: Depth) -> spec_fn(Word<'a>) -> (Word<'a>, Depth) {
    |c: Word<'a>| (c, depth)
}

/// Every candidate of a pool is on one side of a partition: adjacent to
/// `word`, or not.
pub proof fn lemma_partition_len(pool: Seq<Word<'_>>, word: Seq<char>)
    ensures
        pool.filter(next_to(word)).len() + pool.filter(apart_from(word)).len() == pool.len(),
    decreases pool.len(),
{
    reveal(Seq::filter);
    if pool.len() > 0 {
        lemma_partition_len(pool.drop_last(), word);
    }
}

/// The depths of a frontier never fall from one entry to the next, and none
/// is more than one step deeper than the earliest.
pub open spec fn level_ordered(queue: Seq<(Word<'_>, Depth)>) -> bool {
    forall|i: int, j: int|
        0 <= i <= j < queue.len() ==> (#[trigger] queue[i]).1 <= (#[trigger] queue[j]).1
            <= queue[0].1 + 1
}

/// Expands the earliest entry of the frontier.
///
/// The entry leaves the queue. The candidates adjacent to its word leave the
/// pool and join the queue, in pool order, one step deeper than the entry;
/// the other candidates are handed back, in pool order. So every candidate
/// goes one way or the other, once, and a frontier that was in level order
/// stays so.
///
/// The queue must hold an entry, and where a candidate is to join, the depth
/// of that entry must leave room for one step more.
pub fn step<'a>(queue: &mut VecDeque<(Word<'a>, Depth)>, candidates: Vec<Word<'a>>) -> (remaining:
    Vec<Word<'a>>)
    requires
        old(queue)@.len() > 0,
        old(queue)@[0].1 < usize::MAX || candidates@.filter(next_to(old(queue)@[0].0@)).len() == 0,
    ensures
        remaining@ == candidates@.filter(apart_from(old(queue)@[0].0@)),
        final(queue)@ == old(queue)@.drop_first() + candidates@.filter(
            next_to(old(queue)@[0].0@),
        ).map_values(at_depth((old(queue)@[0].1 + 1) as usize)),
        final(queue)@.len() + remaining@.len() == old(queue)@.len() - 1 + candidates@.len(),
        level_ordered(old(queue)@) ==> level_ordered(final(queue)@),
{
    let (word, depth) = queue.pop_front().unwrap();
    let mut remaining: Vec<Word<'a>> = Vec::new();
    let ghost rest = queue@;
    let mut i: usize = 0;
    proof {
        reveal(Seq::filter);
    }
    while i < candidates.len()
        invariant
            i <= candidates.len(),
            depth < usize::MAX || candidates@.filter(next_to(word@)).len() == 0,
            remaining@ == candidates@.take(i as int).filter(apart_from(word@)),
            queue@ == rest + candidates@.take(i as int).filter(next_to(word@)).map_values(
                at_depth((depth + 1) as usize),
            ),
        decreases candidates.len() - i,
    {
        let candidate = candidates[i];
        proof {
            let seen = candidates@.take(i as int);
            assert(candidates@.take(i + 1) == seen.push(candidate));
            seen.lemma_filter_push(candidate, next_to(word@));
            seen.lemma_filter_push(candidate, apart_from(word@));
        }
        if is_adjacent(word, candidate) {
            proof {
                candidates@.lemma_filter_contains(next_to(word@), i as int);
            }
            queue.push_back((candidate, depth + 1));
        } else {
            remaining.push(candidate);
        }
        i += 1;
    }
    proof {
        assert(candidates@.take(i as int) == candidates@);
        lemma_partition_len(candidates@, word@);
    }
    remaining
}

/// Entry `i` is the earliest entry of `queue` that holds the word `end`.
pub open spec fn first_hit(queue: Seq<(Word<'_>, Depth)>, end: Seq<char>, i: int) -> bool {
    &&& 0 <= i < queue.len()
    &&& queue[i].0@ == end
    &&& forall|j: int| 0 <= j < i ==> (#[trigger] queue[j]).0@ != end
}

/// Scans the whole frontier for the word `end` and returns the depth of the
/// earliest entry that holds it.
pub fn find_depth(queue: &VecDeque<(Word<'_>, Depth)>, end: &str) -> (found: Option<Depth>)
    ensures
        match found {
            Some(depth) => exists|i: int| first_hit(queue@, end@, i) && queue@[i].1 == depth,
            None => forall|j: int| 0 <= j < queue@.len() ==> (#[trigger] queue@[j]).0@ != end@,
        },
{
    let mut i: usize = 0;
    while i < queue.len()
        invariant
            i <= queue@.len(),
            forall|j: int| 0 <= j < i ==> (#[trigger] queue@[j]).0@ != end@,
        decreases queue@.len() - i,
    {
        let (word, depth) = queue[i];
        if same_word(word, end) {
            assert(first_hit(queue@, end@, i as int));
            return Some(depth);
        }
        i += 1;
    }
    None
}

/// Where a search stands between two expansions.
#[derive(Clone, Copy, Debug, PartialEq, Eq, Structural)]
pub enum SearchState {
    /// The frontier holds the end word, at this depth.
    Found(Depth),
    /// The end word is not in the frontier, and the frontier or the pool is
    /// empty: nothing more can be reached.
    Exhausted,
    /// The end word is not in the frontier, and there is an entry to expand
    /// and a candidate to reach.
    Searching,
}

/// Tells where a search stands. The frontier is scanned for `end` first, so
/// that a hit counts even when the pool is empty.
pub fn search_state(
    queue: &VecDeque<(Word<'_>, Depth)>,
    candidates: &Vec<Word<'_>>,
    end: &str,
) -> (state: SearchState)
    ensures
        match state {
            SearchState::Found(depth) => exists|i: int|
                first_hit(queue@, end@, i) && queue@[i].1 == depth,
            SearchState::Exhausted => {
                &&& forall|j: int| 0 <= j < queue@.len() ==> (#[trigger] queue@[j]).0@ != end@
                &&& (queue@.len() == 0 || candidates@.len() == 0)
            },
            SearchState::Searching => {
                &&& forall|j: int| 0 <= j < queue@.len() ==> (#[trigger] queue@[j]).0@ != end@
                &&& queue@.len() > 0
                &&& candidates@.len() > 0
            },
        },
{
    match find_depth(queue, end) {
        Some(depth) => SearchState::Found(depth),
        None => {
            if queue.len() == 0 || candidates.len() == 0 {
                SearchState::Exhausted
            } else {
                SearchState::Searching
            }
        },
    }
}

/// `result` is the distance from `start` to `end` through `pool`: the length
/// of a shortest chain, which is at most the size of the pool, or `None`
/// where there is no chain.
pub open spec fn is_answer(
    result: Option<Depth>,
    start: Seq<char>,
    end: Seq<char>,
    pool: Seq<Seq<char>>,
) -> bool {
    match result {
        Some(steps) => chain_distance(start, end, pool) == Some(steps as nat) && steps
            <= pool.len(),
        None => chain_distance(start, end, pool) is None,
    }
}

/// The least number of single-letter substitutions that lead from `start` to
/// `end` through the words of `pool`.
///
/// The search goes level by level from `start`. Before each expansion the
/// whole frontier is scanned for `end`, so that `start == end` gives
/// `Some(0)` whatever the pool holds. The start word is not taken out of the
/// pool: a copy of it there is one more candidate, and changes no distance.
/// Words whose length is not that of `start` are adjacent to nothing that is
/// reached and stay behind.
pub fn solve<'a>(start: Word<'a>, end: &str, pool: Vec<Word<'a>>) -> (result: Option<Depth>)
    ensures
        is_answer(result, start@, end@, words_of(pool@)),
        start@ == end@ ==> result == Some(0usize),
{
    let ghost pool0 = words_of(pool@);
    let mut queue: VecDeque<(Word<'a>, Depth)> = VecDeque::new();
    queue.push_back((start, 0));
    let mut candidates = pool;
    let ghost mut done: Seq<(Word<'a>, Depth)> = Seq::empty();
    let ghost mut parents: Seq<int> = seq![0int];
    proof {
        assert(pool0.len() == pool.len());
        assert forall|i: int| 0 <= i < candidates@.len() implies pool0.contains(
            (#[trigger] candidates@[i])@,
        ) by {
            assert(pool0[i] == candidates@[i]@);
        }
    }
    loop
        invariant
            pool0.len() <= usize::MAX,
            pool0.len() == pool.len(),
            pool0 == words_of(pool@),
            consistent(start@, end@, pool0, done + queue@, parents, done.len() as int, candidates@),
        decreases queue@.len() + 2 * candidates@.len(),
    {
        let ghost trace = done + queue@;
        let ghost head = done.len() as int;
        match search_state(&queue, &candidates, end) {
            SearchState::Found(depth) => {
                proof {
                    let i = choose|i: int| first_hit(queue@, end@, i) && queue@[i].1 == depth;
                    lemma_hit_is_distance(
                        start@,
                        end@,
                        pool0,
                        trace,
                        parents,
                        head,
                        candidates@,
                        head + i,
                    );
                    lemma_distance_is_shortest(start@, end@, pool0, depth as nat);
                    if start@ == end@ {
                        lemma_distance_to_self(start@, pool0);
                    }
                }
                return Some(depth);
            },
            SearchState::Exhausted => {
                proof {
                    lemma_exhausted_unconnected(
                        start@,
                        end@,
                        pool0,
                        trace,
                        parents,
                        head,
                        candidates@,
                    );
                    lemma_distance_is_shortest(start@, end@, pool0, 0);
                }
                return None;
            },
            SearchState::Searching => {},
        }
        proof {
            lemma_expansion_consistent(start@, end@, pool0, trace, parents, head, candidates@);
        }
        let ghost moved = candidates@.filter(next_to(queue@[0].0@));
        let ghost expanded = queue@[0];
        candidates = step(&mut queue, candidates);
        proof {
            parents = parents + Seq::new(moved.len(), |i: int| head);
            done = done.push(expanded);
            assert(done + queue@ == trace + moved.map_values(
                at_depth((expanded.1 + 1) as usize),
            ));
        }
    }
}

} // verus!
