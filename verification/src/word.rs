//! Words as sequences of characters, and the one-letter-apart relation
//! between them.

use vstd::prelude::*;
use vstd::std_specs::iter::IteratorSpec;

verus! {

/// A word: a sequence of characters that is read, compared and handed on,
/// never changed.
pub type Word<'a> = &'a str;

/// The number of positions at which `a` and `b` hold different characters,
/// counted over the positions that both have.
pub open spec fn hamming_distance(a: Seq<char>, b: Seq<char>) -> nat
    decreases a.len(),
{
    if a.len() == 0 || b.len() == 0 {
        0
    } else if a[0] == b[0] {
        hamming_distance(a.drop_first(), b.drop_first())
    } else {
        1 + hamming_distance(a.drop_first(), b.drop_first())
    }
}

/// Two words are adjacent when they have the same length and differ at
/// exactly one position.
pub open spec fn adjacent(a: Seq<char>, b: Seq<char>) -> bool {
    a.len() == b.len() && hamming_distance(a, b) == 1
}

/// The words of a pool as sequences of characters.
pub open spec fn words_of(pool: Seq<Word<'_>>) -> Seq<Seq<char>> {
    pool.map_values(|w: Word<'_>| w@)
}

/// Decides whether `a` and `b` are the same sequence of characters.
pub fn same_word(a: &str, b: &str) -> (same: bool)
    ensures
        same == (a@ == b@),
{
    let mut left = a.chars();
    let mut right = b.chars();
    let ghost mut n: int = 0;
    loop
        invariant
            0 <= n <= a@.len(),
            n <= b@.len(),
            left.remaining() == a@.skip(n),
            right.remaining() == b@.skip(n),
            a@.take(n) == b@.take(n),
        decreases a@.len() - n,
    {
        let x = left.next();
        let y = right.next();
        match (x, y) {
            (None, None) => {
                assert(a@ == a@.take(n));
                assert(b@ == b@.take(n));
                return true;
            },
            (Some(c), Some(d)) => {
                if c != d {
                    return false;
                }
                proof {
                    n = n + 1;
                }
            },
            _ => {
                return false;
            },
        }
    }
}

/// Decides whether `a` and `b` are adjacent: of one length, and different at
/// exactly one position.
pub fn is_adjacent(a: &str, b: &str) -> (near: bool)
    ensures
        near == adjacent(a@, b@),
{
    let mut left = a.chars();
    let mut right = b.chars();
    let mut differing = false;
    let ghost mut n: int = 0;
    loop
        invariant
            0 <= n <= a@.len(),
            n <= b@.len(),
            left.remaining() == a@.skip(n),
            right.remaining() == b@.skip(n),
            hamming_distance(a@, b@) == (if differing { 1nat } else { 0nat }) + hamming_distance(
                a@.skip(n),
                b@.skip(n),
            ),
        decreases a@.len() - n,
    {
        let x = left.next();
        let y = right.next();
        match (x, y) {
            (None, None) => {
                return differing;
            },
            (Some(c), Some(d)) => {
                proof {
                    assert(a@.skip(n).drop_first() == a@.skip(n + 1));
                    assert(b@.skip(n).drop_first() == b@.skip(n + 1));
                }
                if c != d {
                    if differing {
                        return false;
                    }
                    differing = true;
                }
                proof {
                    n = n + 1;
                }
            },
            _ => {
                return false;
            },
        }
    }
}

/// The distance from `a` to `b` is the distance from `b` to `a`.
pub proof fn lemma_hamming_symmetric(a: Seq<char>, b: Seq<char>)
    ensures
        hamming_distance(a, b) == hamming_distance(b, a),
    decreases a.len(),
{
    if a.len() != 0 && b.len() != 0 {
        lemma_hamming_symmetric(a.drop_first(), b.drop_first());
    }
}

/// Adjacency is symmetric.
pub proof fn lemma_adjacent_symmetric(a: Seq<char>, b: Seq<char>)
    ensures
        adjacent(a, b) == adjacent(b, a),
{
    lemma_hamming_symmetric(a, b);
}

/// Words of one length are at distance zero exactly when they are equal.
pub proof fn lemma_distance_zero_iff_equal(a: Seq<char>, b: Seq<char>)
    requires
        a.len() == b.len(),
    ensures
        hamming_distance(a, b) == 0 <==> a == b,
    decreases a.len(),
{
    if a.len() == 0 {
        assert(a =~= b);
    } else {
        lemma_distance_zero_iff_equal(a.drop_first(), b.drop_first());
        if a[0] == b[0] && a.drop_first() == b.drop_first() {
            assert forall|i: int| 0 <= i < a.len() implies a[i] == b[i] by {
                if i > 0 {
                    assert(a[i] == a.drop_first()[i - 1]);
                    assert(b[i] == b.drop_first()[i - 1]);
                }
            }
            assert(a =~= b);
        }
    }
}

/// `a` and `b` hold different characters at position `i` and equal ones at
/// every other position.
pub open spec fn differ_only_at(a: Seq<char>, b: Seq<char>, i: int) -> bool {
    &&& 0 <= i < a.len()
    &&& a[i] != b[i]
    &&& forall|j: int| 0 <= j < a.len() && j != i ==> a[j] == b[j]
}

/// Two words are adjacent exactly when they have one length and there is one
/// position, and no other, at which they differ.
pub proof fn lemma_adjacent_iff_one_difference(a: Seq<char>, b: Seq<char>)
    ensures
        adjacent(a, b) <==> a.len() == b.len() && exists|i: int| differ_only_at(a, b, i),
    decreases a.len(),
{
    if a.len() == b.len() && a.len() > 0 {
        let x = a.drop_first();
        let y = b.drop_first();
        lemma_distance_zero_iff_equal(x, y);
        lemma_adjacent_iff_one_difference(x, y);
        assert forall|j: int| 0 < j < a.len() implies a[j] == x[j - 1] && b[j] == y[j - 1] by {}
        if a[0] != b[0] {
            // The difference is at the front, and the rests are equal.
            if x == y {
                assert(differ_only_at(a, b, 0));
            }
            if exists|i: int| differ_only_at(a, b, i) {
                assert(x =~= y);
            }
        } else {
            // The difference lies in the rests, one position further on.
            if adjacent(x, y) {
                let i = choose|i: int| differ_only_at(x, y, i);
                assert(differ_only_at(a, b, i + 1));
            }
            if exists|i: int| differ_only_at(a, b, i) {
                let i = choose|i: int| differ_only_at(a, b, i);
                assert(differ_only_at(x, y, i - 1));
            }
        }
    }
}

} // verus!
