//! What a search knows between two expansions, and why its answers are
//! distances.
//!
//! The trace of a search lists every entry that ever joined the frontier, in
//! the order of joining. The entries up to the head have been expanded; the
//! others are the frontier.

use crate::chain::{
    chain_between, connected, is_chain, is_distance, lemma_chain_prefix, lemma_chain_push,
    link_ok, reachable_in,
};
use crate::search::{apart_from, at_depth, lemma_partition_len, next_to, Depth};
use crate::word::{adjacent, Word};
use vstd::prelude::*;

verus! {

/// Some candidate of `pool` is the word `word`.
pub(crate) open spec fn pool_holds(pool: Seq<Word<'_>>, word: Seq<char>) -> bool {
    exists|i: int| 0 <= i < pool.len() && (#[trigger] pool[i])@ == word
}

/// Some entry of `trace` holds the word `word`.
pub(crate) open spec fn traced(trace: Seq<(Word<'_>, Depth)>, word: Seq<char>) -> bool {
    exists|m: int| 0 <= m < trace.len() && (#[trigger] trace[m]).0@ == word
}

/// Entry `i` of the trace was born of the entry `parents[i]`: an expanded
/// entry, one step shallower, whose word is adjacent to the word of `i`, and
/// the earliest entry of the trace of which that is true.
pub(crate) open spec fn born_of(
    pool0: Seq<Seq<char>>,
    trace: Seq<(Word<'_>, Depth)>,
    parents: Seq<int>,
    head: int,
    i: int,
) -> bool {
    let p = parents[i];
    &&& 0 <= p < i
    &&& p < head
    &&& pool0.contains(trace[i].0@)
    &&& adjacent(trace[p].0@, trace[i].0@)
    &&& trace[i].1 == trace[p].1 + 1
    &&& forall|j: int| 0 <= j < p ==> !adjacent((#[trigger] trace[j]).0@, trace[i].0@)
}

/// What holds of a search between two expansions.
///
/// `trace` lists every entry that ever joined the frontier, in the order of
/// joining; its first `head` entries have been expanded and the others are
/// the frontier. `pool` holds the candidates that are left of `pool0`.
pub(crate) open spec fn consistent(
    start: Seq<char>,
    end: Seq<char>,
    pool0: Seq<Seq<char>>,
    trace: Seq<(Word<'_>, Depth)>,
    parents: Seq<int>,
    head: int,
    pool: Seq<Word<'_>>,
) -> bool {
    &&& 0 <= head <= trace.len()
    &&& trace.len() >= 1
    &&& parents.len() == trace.len()
    &&& trace[0].0@ == start
    &&& trace[0].1 == 0
    &&& trace.len() + pool.len() == pool0.len() + 1
    &&& forall|i: int, j: int|
        0 <= i <= j < trace.len() ==> (#[trigger] trace[i]).1 <= (#[trigger] trace[j]).1
    &&& forall|i: int| 0 <= i < trace.len() ==> (#[trigger] trace[i]).1 <= i
    &&& forall|i: int| 1 <= i < trace.len() ==> #[trigger] born_of(pool0, trace, parents, head, i)
    &&& forall|i: int| 0 <= i < pool.len() ==> pool0.contains((#[trigger] pool[i])@)
    &&& forall|k: int|
        0 <= k < pool0.len() ==> pool_holds(pool, #[trigger] pool0[k]) || traced(trace, pool0[k])
    &&& forall|j: int, i: int|
        0 <= j < head && 0 <= i < pool.len() ==> !adjacent(
            (#[trigger] trace[j]).0@,
            (#[trigger] pool[i])@,
        )
    &&& forall|j: int| 0 <= j < head ==> (#[trigger] trace[j]).0@ != end
}

/// The depth of each entry is the length of a chain that leads from the
/// start word to its word.
proof fn lemma_trace_sound(
    start: Seq<char>,
    end: Seq<char>,
    pool0: Seq<Seq<char>>,
    trace: Seq<(Word<'_>, Depth)>,
    parents: Seq<int>,
    head: int,
    pool: Seq<Word<'_>>,
    i: int,
)
    requires
        consistent(start, end, pool0, trace, parents, head, pool),
        0 <= i < trace.len(),
    ensures
        reachable_in(start, trace[i].0@, pool0, trace[i].1 as nat),
    decreases i,
{
    if i == 0 {
        assert(chain_between(seq![start], start, start, pool0));
    } else {
        assert(born_of(pool0, trace, parents, head, i));
        let p = parents[i];
        lemma_trace_sound(start, end, pool0, trace, parents, head, pool, p);
        let path = choose|path: Seq<Seq<char>>|
            #[trigger] chain_between(path, start, trace[p].0@, pool0) && path.len() == trace[p].1
                + 1;
        lemma_chain_push(path, pool0, trace[i].0@);
        assert(chain_between(path.push(trace[i].0@), start, trace[i].0@, pool0));
    }
}

/// The trace holds every word that a chain reaches within the depth of the
/// entry to be expanded next, at a depth no greater than the length of the
/// chain; once every entry has been expanded, it holds every word that any
/// chain reaches.
proof fn lemma_levels_complete(
    start: Seq<char>,
    end: Seq<char>,
    pool0: Seq<Seq<char>>,
    trace: Seq<(Word<'_>, Depth)>,
    parents: Seq<int>,
    head: int,
    pool: Seq<Word<'_>>,
    path: Seq<Seq<char>>,
)
    requires
        consistent(start, end, pool0, trace, parents, head, pool),
        is_chain(path, pool0),
        path.first() == start,
        head == trace.len() || path.len() - 1 <= trace[head].1,
    ensures
        exists|m: int|
            0 <= m < trace.len() && (#[trigger] trace[m]).0@ == path.last() && trace[m].1
                <= path.len() - 1,
    decreases path.len(),
{
    let k = path.len() - 1;
    if k > 0 {
        let word = path[k];
        let shorter = path.take(k);
        lemma_chain_prefix(path, pool0, k);
        lemma_levels_complete(start, end, pool0, trace, parents, head, pool, shorter);
        // The word before the last has an entry shallower than the head: an
        // expanded one.
        let via = choose|m: int|
            0 <= m < trace.len() && (#[trigger] trace[m]).0@ == shorter.last() && trace[m].1
                <= shorter.len() - 1;
        assert(via < head);
        // The last word is a pool word adjacent to an expanded word, so it
        // has left the pool for the trace.
        assert(link_ok(path, pool0, k));
        let k0 = choose|k0: int| 0 <= k0 < pool0.len() && pool0[k0] == word;
        assert(traced(trace, pool0[k0]));
        // Its entry was born of `via` or of an earlier entry.
        let m = choose|m: int| 0 <= m < trace.len() && (#[trigger] trace[m]).0@ == word;
        if m > 0 {
            assert(born_of(pool0, trace, parents, head, m));
        }
        assert(trace[m].1 <= k);
    }
}

/// An expansion of the entry at `head` keeps the search consistent.
pub(crate) proof fn lemma_expansion_consistent<'a>(
    start: Seq<char>,
    end: Seq<char>,
    pool0: Seq<Seq<char>>,
    trace: Seq<(Word<'a>, Depth)>,
    parents: Seq<int>,
    head: int,
    pool: Seq<Word<'a>>,
)
    requires
        consistent(start, end, pool0, trace, parents, head, pool),
        head < trace.len(),
        trace[head].0@ != end,
        trace[head].1 < usize::MAX,
    ensures
        consistent(
            start,
            end,
            pool0,
            trace + pool.filter(next_to(trace[head].0@)).map_values(
                at_depth((trace[head].1 + 1) as usize),
            ),
            parents + Seq::new(pool.filter(next_to(trace[head].0@)).len(), |i: int| head),
            head + 1,
            pool.filter(apart_from(trace[head].0@)),
        ),
        pool.filter(next_to(trace[head].0@)).len() + pool.filter(apart_from(trace[head].0@)).len()
            == pool.len(),
{
    let word = trace[head].0@;
    let depth = trace[head].1;
    let moved = pool.filter(next_to(word));
    let kept = pool.filter(apart_from(word));
    let grown = trace + moved.map_values(at_depth((depth + 1) as usize));
    let origins = parents + Seq::new(moved.len(), |i: int| head);
    lemma_partition_len(pool, word);

    // Each side of the partition holds pool words only, and holds them by
    // their adjacency to the expanded word.
    assert forall|i: int| 0 <= i < moved.len() implies pool_holds(pool, (#[trigger] moved[i])@)
        && adjacent(word, moved[i]@) by {
        pool.lemma_filter_pred(next_to(word), i);
        pool.lemma_filter_contains_rev(next_to(word), moved[i]);
    }
    assert forall|i: int| 0 <= i < kept.len() implies pool_holds(pool, (#[trigger] kept[i])@)
        && !adjacent(word, kept[i]@) by {
        pool.lemma_filter_pred(apart_from(word), i);
        pool.lemma_filter_contains_rev(apart_from(word), kept[i]);
    }
    // No entry so far lies deeper than the new ones.
    assert forall|i: int| 0 <= i < trace.len() implies (#[trigger] trace[i]).1 <= depth + 1 by {
        if i >= 1 {
            assert(born_of(pool0, trace, parents, head, i));
        }
    }
    assert forall|i: int| 1 <= i < grown.len() implies #[trigger] born_of(
        pool0,
        grown,
        origins,
        head + 1,
        i,
    ) by {
        if i < trace.len() {
            assert(born_of(pool0, trace, parents, head, i));
        }
    }
    // A pool word is still in the pool, or was in the trace, or has joined it.
    assert forall|k: int| 0 <= k < pool0.len() implies pool_holds(kept, #[trigger] pool0[k])
        || traced(grown, pool0[k]) by {
        let v = pool0[k];
        if traced(trace, v) {
            let m = choose|m: int| 0 <= m < trace.len() && (#[trigger] trace[m]).0@ == v;
            assert(grown[m].0@ == v);
        } else {
            let i = choose|i: int| 0 <= i < pool.len() && (#[trigger] pool[i])@ == v;
            if adjacent(word, v) {
                pool.lemma_filter_contains(next_to(word), i);
                let m = choose|m: int| 0 <= m < moved.len() && moved[m] == pool[i];
                assert(grown[trace.len() + m].0@ == v);
            } else {
                pool.lemma_filter_contains(apart_from(word), i);
            }
        }
    }
}

/// An entry of the frontier that holds the end word, with none before it in
/// the frontier, gives the distance.
pub(crate) proof fn lemma_hit_is_distance(
    start: Seq<char>,
    end: Seq<char>,
    pool0: Seq<Seq<char>>,
    trace: Seq<(Word<'_>, Depth)>,
    parents: Seq<int>,
    head: int,
    pool: Seq<Word<'_>>,
    hit: int,
)
    requires
        consistent(start, end, pool0, trace, parents, head, pool),
        head <= hit < trace.len(),
        trace[hit].0@ == end,
        forall|j: int| head <= j < hit ==> (#[trigger] trace[j]).0@ != end,
    ensures
        is_distance(start, end, pool0, trace[hit].1 as nat),
        trace[hit].1 <= pool0.len(),
{
    let depth = trace[hit].1 as nat;
    lemma_trace_sound(start, end, pool0, trace, parents, head, pool, hit);
    assert forall|fewer: nat| fewer < depth implies !reachable_in(start, end, pool0, fewer) by {
        if reachable_in(start, end, pool0, fewer) {
            let path = choose|path: Seq<Seq<char>>|
                #[trigger] chain_between(path, start, end, pool0) && path.len() == fewer + 1;
            // The hit lies one step deeper than the head at most, so the
            // chain stays within the depth of the head
            assert(born_of(pool0, trace, parents, head, hit));
            lemma_levels_complete(start, end, pool0, trace, parents, head, pool, path);
            // and the end word has an entry no deeper than the chain is
            // long. That entry is in the frontier, not before the hit.
            let m = choose|m: int|
                0 <= m < trace.len() && (#[trigger] trace[m]).0@ == path.last() && trace[m].1
                    <= path.len() - 1;
            assert(trace[hit].1 <= trace[m].1);
        }
    }
}

/// Where no entry of the frontier holds the end word, and the frontier or
/// the pool is empty, no chain leads to the end word.
pub(crate) proof fn lemma_exhausted_unconnected(
    start: Seq<char>,
    end: Seq<char>,
    pool0: Seq<Seq<char>>,
    trace: Seq<(Word<'_>, Depth)>,
    parents: Seq<int>,
    head: int,
    pool: Seq<Word<'_>>,
)
    requires
        consistent(start, end, pool0, trace, parents, head, pool),
        forall|j: int| head <= j < trace.len() ==> (#[trigger] trace[j]).0@ != end,
        head == trace.len() || pool.len() == 0,
    ensures
        !connected(start, end, pool0),
{
    assert forall|steps: nat| !reachable_in(start, end, pool0, steps) by {
        if reachable_in(start, end, pool0, steps) {
            let path = choose|path: Seq<Seq<char>>|
                #[trigger] chain_between(path, start, end, pool0) && path.len() == steps + 1;
            if head == trace.len() {
                lemma_levels_complete(start, end, pool0, trace, parents, head, pool, path);
            } else if steps > 0 {
                // The end word is a pool word, and the pool is empty.
                assert(link_ok(path, pool0, path.len() - 1));
                let k = choose|k: int| 0 <= k < pool0.len() && pool0[k] == end;
                assert(traced(trace, pool0[k]));
            }
        }
    }
}

} // verus!
