//! Chains of words and the distance they define.
//!
//! A chain starts anywhere and moves, one adjacent word at a time, through
//! the words of a pool. The distance from one word to another is the number
//! of steps of a shortest chain between them, if there is a chain at all.

use crate::word::{adjacent, lemma_adjacent_symmetric};
use vstd::prelude::*;
use vstd::seq_lib::seq_to_set_is_finite;
use vstd::set_lib::lemma_len_subset;

verus! {

/// Step `i` of `path` is allowed: it arrives at a pool word adjacent to the
/// word it leaves.
pub open spec fn link_ok(path: Seq<Seq<char>>, pool: Seq<Seq<char>>, i: int) -> bool {
    pool.contains(path[i]) && adjacent(path[i - 1], path[i])
}

/// `path` is a chain through `pool`: it holds at least one word, and every
/// word after the first is a pool word adjacent to its predecessor. The first
/// word need not be in the pool.
pub open spec fn is_chain(path: Seq<Seq<char>>, pool: Seq<Seq<char>>) -> bool {
    &&& path.len() >= 1
    &&& forall|i: int| 1 <= i < path.len() ==> #[trigger] link_ok(path, pool, i)
}

/// `path` is a chain through `pool` that leads from `start` to `end`.
pub open spec fn chain_between(
    path: Seq<Seq<char>>,
    start: Seq<char>,
    end: Seq<char>,
    pool: Seq<Seq<char>>,
) -> bool {
    is_chain(path, pool) && path.first() == start && path.last() == end
}

/// Some chain through `pool` leads from `start` to `end` in exactly `steps`
/// steps.
pub open spec fn reachable_in(
    start: Seq<char>,
    end: Seq<char>,
    pool: Seq<Seq<char>>,
    steps: nat,
) -> bool {
    exists|path: Seq<Seq<char>>|
        #[trigger] chain_between(path, start, end, pool) && path.len() == steps + 1
}

/// Some chain through `pool` leads from `start` to `end`.
pub open spec fn connected(start: Seq<char>, end: Seq<char>, pool: Seq<Seq<char>>) -> bool {
    exists|steps: nat| reachable_in(start, end, pool, steps)
}

/// `steps` is the length of a shortest chain from `start` to `end`.
pub open spec fn is_distance(
    start: Seq<char>,
    end: Seq<char>,
    pool: Seq<Seq<char>>,
    steps: nat,
) -> bool {
    &&& reachable_in(start, end, pool, steps)
    &&& forall|fewer: nat| fewer < steps ==> !reachable_in(start, end, pool, fewer)
}

/// The length of a shortest chain from `start` to `end` through `pool`, or
/// `None` where no chain joins them.
pub open spec fn chain_distance(start: Seq<char>, end: Seq<char>, pool: Seq<Seq<char>>) -> Option<
    nat,
> {
    if connected(start, end, pool) {
        Some(choose|steps: nat| is_distance(start, end, pool, steps))
    } else {
        None
    }
}

/// Among the chain lengths up to `bound` there is a least one.
proof fn lemma_least_length(start: Seq<char>, end: Seq<char>, pool: Seq<Seq<char>>, bound: nat)
    requires
        reachable_in(start, end, pool, bound),
    ensures
        exists|steps: nat| steps <= bound && is_distance(start, end, pool, steps),
    decreases bound,
{
    if exists|fewer: nat| fewer < bound && reachable_in(start, end, pool, fewer) {
        let fewer = choose|fewer: nat| fewer < bound && reachable_in(start, end, pool, fewer);
        lemma_least_length(start, end, pool, fewer);
    } else {
        assert(is_distance(start, end, pool, bound));
    }
}

/// The distance is `Some(steps)` exactly when `steps` is the length of a
/// shortest chain, and `None` exactly when there is no chain.
pub proof fn lemma_distance_is_shortest(
    start: Seq<char>,
    end: Seq<char>,
    pool: Seq<Seq<char>>,
    steps: nat,
)
    ensures
        chain_distance(start, end, pool) == Some(steps) <==> is_distance(start, end, pool, steps),
        chain_distance(start, end, pool) is None <==> !connected(start, end, pool),
{
    if connected(start, end, pool) {
        let bound = choose|bound: nat| reachable_in(start, end, pool, bound);
        lemma_least_length(start, end, pool, bound);
        // Two least lengths are one: neither is less than the other.
        let least = choose|least: nat| is_distance(start, end, pool, least);
        assert(is_distance(start, end, pool, steps) ==> steps == least);
    }
}

/// A chain that is extended by one allowed step is a chain.
pub proof fn lemma_chain_push(path: Seq<Seq<char>>, pool: Seq<Seq<char>>, next: Seq<char>)
    requires
        is_chain(path, pool),
        pool.contains(next),
        adjacent(path.last(), next),
    ensures
        is_chain(path.push(next), pool),
        path.push(next).first() == path.first(),
{
    let longer = path.push(next);
    assert forall|i: int| 1 <= i < longer.len() implies #[trigger] link_ok(longer, pool, i) by {
        if i < path.len() {
            assert(link_ok(path, pool, i));
        }
    }
}

/// The first `keep` words of a chain form a chain.
pub proof fn lemma_chain_prefix(path: Seq<Seq<char>>, pool: Seq<Seq<char>>, keep: int)
    requires
        is_chain(path, pool),
        1 <= keep <= path.len(),
    ensures
        is_chain(path.take(keep), pool),
{
    let prefix = path.take(keep);
    assert forall|i: int| 1 <= i < prefix.len() implies #[trigger] link_ok(prefix, pool, i) by {
        assert(link_ok(path, pool, i));
    }
}

/// What is left of a chain after its first `drop` words is a chain.
pub proof fn lemma_chain_suffix(path: Seq<Seq<char>>, pool: Seq<Seq<char>>, drop: int)
    requires
        is_chain(path, pool),
        0 <= drop < path.len(),
    ensures
        is_chain(path.skip(drop), pool),
{
    let suffix = path.skip(drop);
    assert forall|i: int| 1 <= i < suffix.len() implies #[trigger] link_ok(suffix, pool, i) by {
        assert(link_ok(path, pool, i + drop));
    }
}

/// Two chains, the second of which starts where the first ends, join into one
/// chain whose steps are the steps of both.
pub proof fn lemma_chain_join(front: Seq<Seq<char>>, back: Seq<Seq<char>>, pool: Seq<Seq<char>>)
    requires
        is_chain(front, pool),
        is_chain(back, pool),
        front.last() == back.first(),
    ensures
        is_chain(front + back.drop_first(), pool),
        (front + back.drop_first()).len() == front.len() + back.len() - 1,
        (front + back.drop_first()).first() == front.first(),
        (front + back.drop_first()).last() == back.last(),
{
    let joined = front + back.drop_first();
    assert forall|i: int| 1 <= i < joined.len() implies #[trigger] link_ok(joined, pool, i) by {
        if i < front.len() {
            assert(link_ok(front, pool, i));
        } else {
            assert(link_ok(back, pool, i - front.len() + 1));
        }
    }
}

/// A chain whose first word is a pool word can be walked backwards.
pub proof fn lemma_chain_reverse(path: Seq<Seq<char>>, pool: Seq<Seq<char>>)
    requires
        is_chain(path, pool),
        path.len() == 1 || pool.contains(path.first()),
    ensures
        is_chain(path.reverse(), pool),
        path.reverse().len() == path.len(),
        path.reverse().first() == path.last(),
        path.reverse().last() == path.first(),
{
    let back = path.reverse();
    assert forall|i: int| 1 <= i < back.len() implies #[trigger] link_ok(back, pool, i) by {
        let j = path.len() - i;
        assert(link_ok(path, pool, j));
        lemma_adjacent_symmetric(path[j - 1], path[j]);
        if j - 1 >= 1 {
            assert(link_ok(path, pool, j - 1));
        }
    }
}

/// All words of a chain have one length.
pub proof fn lemma_chain_one_length(path: Seq<Seq<char>>, pool: Seq<Seq<char>>, i: int)
    requires
        is_chain(path, pool),
        0 <= i < path.len(),
    ensures
        path[i].len() == path.first().len(),
    decreases i,
{
    if i > 0 {
        assert(link_ok(path, pool, i));
        lemma_chain_one_length(path, pool, i - 1);
    }
}

/// Every word is at distance zero from itself, whatever the pool holds.
pub proof fn lemma_distance_to_self(word: Seq<char>, pool: Seq<Seq<char>>)
    ensures
        chain_distance(word, word, pool) == Some(0nat),
{
    let path = seq![word];
    assert(chain_between(path, word, word, pool));
    lemma_distance_is_shortest(word, word, pool, 0);
}

/// Where a chain of `steps` steps leads from `a` to `b`, and `a` is a pool
/// word or the chain is empty, one of as many steps leads back from `b` to
/// `a`.
pub proof fn lemma_reachable_back(a: Seq<char>, b: Seq<char>, pool: Seq<Seq<char>>, steps: nat)
    requires
        reachable_in(a, b, pool, steps),
        a == b || pool.contains(a),
    ensures
        reachable_in(b, a, pool, steps),
{
    let path = choose|path: Seq<Seq<char>>|
        #[trigger] chain_between(path, a, b, pool) && path.len() == steps + 1;
    if path.len() > 1 {
        assert(link_ok(path, pool, path.len() - 1));
    }
    lemma_chain_reverse(path, pool);
    assert(chain_between(path.reverse(), b, a, pool));
}

/// Distance does not depend on direction: between two pool words, and from
/// any word to itself, the distance from `a` to `b` is the distance from `b`
/// to `a`.
pub proof fn lemma_distance_symmetric(a: Seq<char>, b: Seq<char>, pool: Seq<Seq<char>>)
    requires
        a == b || (pool.contains(a) && pool.contains(b)),
    ensures
        chain_distance(a, b, pool) == chain_distance(b, a, pool),
{
    assert forall|steps: nat| reachable_in(a, b, pool, steps) == reachable_in(
        b,
        a,
        pool,
        steps,
    ) by {
        if reachable_in(a, b, pool, steps) {
            lemma_reachable_back(a, b, pool, steps);
        }
        if reachable_in(b, a, pool, steps) {
            lemma_reachable_back(b, a, pool, steps);
        }
    }
    if connected(a, b, pool) {
        let steps = choose|steps: nat| reachable_in(a, b, pool, steps);
        lemma_least_length(a, b, pool, steps);
        let least = choose|least: nat| is_distance(a, b, pool, least);
        lemma_distance_is_shortest(a, b, pool, least);
        lemma_distance_is_shortest(b, a, pool, least);
    }
}

/// On a shortest chain every word lies at its own position's distance from
/// the start: word `i` of a chain of least length from `a` to `b` cannot be
/// reached from `a` in fewer than `i` steps, and is reached in `i`.
pub proof fn lemma_shortest_chain_levels(
    a: Seq<char>,
    b: Seq<char>,
    pool: Seq<Seq<char>>,
    path: Seq<Seq<char>>,
    i: int,
)
    requires
        chain_between(path, a, b, pool),
        chain_distance(a, b, pool) == Some((path.len() - 1) as nat),
        0 <= i < path.len(),
    ensures
        chain_distance(a, path[i], pool) == Some(i as nat),
{
    let steps = (path.len() - 1) as nat;
    lemma_distance_is_shortest(a, b, pool, steps);
    lemma_chain_prefix(path, pool, i + 1);
    assert(chain_between(path.take(i + 1), a, path[i], pool));
    assert forall|fewer: nat| fewer < i implies !reachable_in(a, path[i], pool, fewer) by {
        if reachable_in(a, path[i], pool, fewer) {
            let front = choose|front: Seq<Seq<char>>|
                #[trigger] chain_between(front, a, path[i], pool) && front.len() == fewer + 1;
            lemma_chain_suffix(path, pool, i);
            lemma_chain_join(front, path.skip(i), pool);
            let shortcut = front + path.skip(i).drop_first();
            assert(chain_between(shortcut, a, b, pool));
            assert(reachable_in(a, b, pool, (shortcut.len() - 1) as nat));
        }
    }
    lemma_distance_is_shortest(a, path[i], pool, i as nat);
}

/// No chain joins words of different lengths.
pub proof fn lemma_unequal_lengths_unconnected(a: Seq<char>, b: Seq<char>, pool: Seq<Seq<char>>)
    requires
        a.len() != b.len(),
    ensures
        chain_distance(a, b, pool) is None,
{
    assert forall|steps: nat| !reachable_in(a, b, pool, steps) by {
        if reachable_in(a, b, pool, steps) {
            let path = choose|path: Seq<Seq<char>>|
                #[trigger] chain_between(path, a, b, pool) && path.len() == steps + 1;
            lemma_chain_one_length(path, pool, path.len() - 1);
        }
    }
}

/// A word outside the pool is reached from no other word.
pub proof fn lemma_outside_pool_unconnected(a: Seq<char>, b: Seq<char>, pool: Seq<Seq<char>>)
    requires
        a != b,
        !pool.contains(b),
    ensures
        chain_distance(a, b, pool) is None,
{
    assert forall|steps: nat| !reachable_in(a, b, pool, steps) by {
        if reachable_in(a, b, pool, steps) {
            let path = choose|path: Seq<Seq<char>>|
                #[trigger] chain_between(path, a, b, pool) && path.len() == steps + 1;
            assert(link_ok(path, pool, path.len() - 1));
        }
    }
}

/// From the second word on, a shortest chain holds no word twice: a chain
/// that came back to a word could leave out what lies between.
pub proof fn lemma_shortest_chain_distinct(
    a: Seq<char>,
    b: Seq<char>,
    pool: Seq<Seq<char>>,
    path: Seq<Seq<char>>,
)
    requires
        chain_between(path, a, b, pool),
        is_distance(a, b, pool, (path.len() - 1) as nat),
    ensures
        path.skip(1).no_duplicates(),
{
    let rest = path.skip(1);
    assert forall|i: int, j: int| 0 <= i < j < rest.len() implies rest[i] != rest[j] by {
        if rest[i] == rest[j] {
            lemma_chain_prefix(path, pool, i + 2);
            lemma_chain_suffix(path, pool, j + 1);
            lemma_chain_join(path.take(i + 2), path.skip(j + 1), pool);
            let shortcut = path.take(i + 2) + path.skip(j + 1).drop_first();
            assert(chain_between(shortcut, a, b, pool));
            assert(reachable_in(a, b, pool, (shortcut.len() - 1) as nat));
        }
    }
}

/// No distance exceeds the number of words in the pool.
pub proof fn lemma_distance_at_most_pool(a: Seq<char>, b: Seq<char>, pool: Seq<Seq<char>>)
    ensures
        chain_distance(a, b, pool) matches Some(steps) ==> steps <= pool.len(),
{
    if let Some(steps) = chain_distance(a, b, pool) {
        lemma_distance_is_shortest(a, b, pool, steps);
        let path = choose|path: Seq<Seq<char>>|
            #[trigger] chain_between(path, a, b, pool) && path.len() == steps + 1;
        lemma_shortest_chain_distinct(a, b, pool, path);
        let rest = path.skip(1);
        assert forall|word: Seq<char>| rest.to_set().contains(word) implies pool.to_set().contains(
            word,
        ) by {
            let i = choose|i: int| 0 <= i < rest.len() && rest[i] == word;
            assert(link_ok(path, pool, i + 1));
        }
        rest.unique_seq_to_set();
        pool.lemma_cardinality_of_set();
        seq_to_set_is_finite(pool);
        lemma_len_subset(rest.to_set(), pool.to_set());
    }
}

/// Every word of `small` is a word of `large`.
pub open spec fn pool_within(small: Seq<Seq<char>>, large: Seq<Seq<char>>) -> bool {
    forall|word: Seq<char>| small.contains(word) ==> large.contains(word)
}

/// A chain through a pool is a chain through every pool that holds the
/// words of the first.
pub proof fn lemma_chain_in_larger_pool(
    path: Seq<Seq<char>>,
    small: Seq<Seq<char>>,
    large: Seq<Seq<char>>,
)
    requires
        is_chain(path, small),
        pool_within(small, large),
    ensures
        is_chain(path, large),
{
    assert forall|i: int| 1 <= i < path.len() implies #[trigger] link_ok(path, large, i) by {
        assert(link_ok(path, small, i));
    }
}

/// The distance depends on which words the pool holds, not on their order
/// nor on how often it holds them.
pub proof fn lemma_distance_same_words(
    a: Seq<char>,
    b: Seq<char>,
    pool: Seq<Seq<char>>,
    other: Seq<Seq<char>>,
)
    requires
        pool_within(pool, other),
        pool_within(other, pool),
    ensures
        chain_distance(a, b, pool) == chain_distance(a, b, other),
{
    assert forall|steps: nat| reachable_in(a, b, pool, steps) == reachable_in(
        a,
        b,
        other,
        steps,
    ) by {
        if reachable_in(a, b, pool, steps) {
            let path = choose|path: Seq<Seq<char>>|
                #[trigger] chain_between(path, a, b, pool) && path.len() == steps + 1;
            lemma_chain_in_larger_pool(path, pool, other);
            assert(chain_between(path, a, b, other));
        }
        if reachable_in(a, b, other, steps) {
            let path = choose|path: Seq<Seq<char>>|
                #[trigger] chain_between(path, a, b, other) && path.len() == steps + 1;
            lemma_chain_in_larger_pool(path, other, pool);
            assert(chain_between(path, a, b, pool));
        }
    }
    if connected(a, b, pool) {
        let steps = choose|steps: nat| reachable_in(a, b, pool, steps);
        lemma_least_length(a, b, pool, steps);
        let least = choose|least: nat| is_distance(a, b, pool, least);
        lemma_distance_is_shortest(a, b, pool, least);
        lemma_distance_is_shortest(a, b, other, least);
    }
}

/// A chain from `a` through a pool that holds `a` besides the words of
/// `pool` can be cut down to a chain through `pool` alone: it starts afresh
/// wherever it comes back to `a`.
proof fn lemma_chain_without_start(path: Seq<Seq<char>>, a: Seq<char>, pool: Seq<Seq<char>>)
    requires
        is_chain(path, pool.push(a)),
        path.first() == a,
    ensures
        exists|steps: nat| steps < path.len() && reachable_in(a, path.last(), pool, steps),
    decreases path.len(),
{
    let last = path.len() - 1;
    if path.last() == a {
        assert(chain_between(seq![a], a, a, pool));
        assert(reachable_in(a, a, pool, 0));
    } else {
        lemma_chain_prefix(path, pool.push(a), last);
        lemma_chain_without_start(path.take(last), a, pool);
        let steps = choose|steps: nat|
            steps < last && reachable_in(a, path.take(last).last(), pool, steps);
        let front = choose|front: Seq<Seq<char>>|
            #[trigger] chain_between(front, a, path[last - 1], pool) && front.len() == steps + 1;
        assert(link_ok(path, pool.push(a), last));
        let i = choose|i: int| 0 <= i < pool.push(a).len() && pool.push(a)[i] == path[last];
        assert(pool[i] == path[last]);
        lemma_chain_push(front, pool, path[last]);
        assert(chain_between(front.push(path[last]), a, path[last], pool));
        assert(reachable_in(a, path[last], pool, steps + 1));
    }
}

/// It makes no difference to the distances from a word whether the pool
/// holds that word: no shortest chain comes back to where it started.
pub proof fn lemma_start_word_immaterial(a: Seq<char>, b: Seq<char>, pool: Seq<Seq<char>>)
    ensures
        chain_distance(a, b, pool.push(a)) == chain_distance(a, b, pool),
{
    let wider = pool.push(a);
    assert(pool_within(pool, wider)) by {
        assert forall|word: Seq<char>| pool.contains(word) implies wider.contains(word) by {
            let i = choose|i: int| 0 <= i < pool.len() && pool[i] == word;
            assert(wider[i] == word);
        }
    }
    // A chain through the pool is one through the wider pool, and a chain
    // through the wider pool gives one through the pool that is no longer.
    assert forall|steps: nat| reachable_in(a, b, pool, steps) implies reachable_in(
        a,
        b,
        wider,
        steps,
    ) by {
        let path = choose|path: Seq<Seq<char>>|
            #[trigger] chain_between(path, a, b, pool) && path.len() == steps + 1;
        lemma_chain_in_larger_pool(path, pool, wider);
        assert(chain_between(path, a, b, wider));
    }
    assert forall|steps: nat| reachable_in(a, b, wider, steps) implies exists|fewer: nat|
        fewer <= steps && reachable_in(a, b, pool, fewer) by {
        let path = choose|path: Seq<Seq<char>>|
            #[trigger] chain_between(path, a, b, wider) && path.len() == steps + 1;
        lemma_chain_without_start(path, a, pool);
    }
    if connected(a, b, wider) {
        let some = choose|some: nat| reachable_in(a, b, wider, some);
        let fewer = choose|fewer: nat| fewer <= some && reachable_in(a, b, pool, fewer);
        lemma_least_length(a, b, pool, fewer);
        let least = choose|least: nat| is_distance(a, b, pool, least);
        assert(is_distance(a, b, wider, least));
        lemma_distance_is_shortest(a, b, pool, least);
        lemma_distance_is_shortest(a, b, wider, least);
    }
}

} // verus!
