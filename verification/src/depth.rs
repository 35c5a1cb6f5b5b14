//! The nesting depth of a text under one pair of delimiters, and the blocks
//! that it determines.

use vstd::prelude::*;

verus! {

/// What a character does to the nesting depth: an opening delimiter raises
/// it by one, a closing delimiter lowers it by one, any other character
/// leaves it. Where both delimiters are the same character, it opens.
pub open spec fn step(c: char, open: char, close: char) -> int {
    if c == open {
        1
    } else if c == close {
        -1
    } else {
        0
    }
}

/// The nesting depth after the first `n` characters of `s`.
pub open spec fn depth(s: Seq<char>, open: char, close: char, n: int) -> int
    decreases n,
{
    if n <= 0 {
        0
    } else {
        depth(s, open, close, n - 1) + step(s[n - 1], open, close)
    }
}

/// Some closing delimiter of `s` has no block to close: the depth falls
/// below zero somewhere.
pub open spec fn has_stray_close(s: Seq<char>, open: char, close: char) -> bool {
    exists|n: int| 0 <= n <= s.len() && #[trigger] depth(s, open, close, n) < 0
}

/// No closing delimiter of `s` is stray, and every block that opens is closed.
pub open spec fn is_balanced(s: Seq<char>, open: char, close: char) -> bool {
    !has_stray_close(s, open, close) && depth(s, open, close, s.len() as int) == 0
}

/// The character of index `k` closes a top-level block: it takes the depth
/// from one back to zero.
pub open spec fn closes_at(s: Seq<char>, open: char, close: char, k: int) -> bool {
    0 <= k < s.len() && depth(s, open, close, k) == 1 && depth(s, open, close, k + 1) == 0
}

/// The greatest index up to `k` before which the depth is zero.
pub open spec fn last_top_level(s: Seq<char>, open: char, close: char, k: int) -> int
    decreases k,
{
    if k <= 0 {
        0
    } else if depth(s, open, close, k) == 0 {
        k
    } else {
        last_top_level(s, open, close, k - 1)
    }
}

/// The top-level blocks that close within the first `n` characters of `s`,
/// in the order in which they close. A block is the pair of the index of its
/// opening delimiter and the index of its closing delimiter.
pub open spec fn blocks(s: Seq<char>, open: char, close: char, n: int) -> Seq<(int, int)>
    decreases n,
{
    if n <= 0 {
        Seq::empty()
    } else if closes_at(s, open, close, n - 1) {
        blocks(s, open, close, n - 1).push((last_top_level(s, open, close, n - 1), n - 1))
    } else {
        blocks(s, open, close, n - 1)
    }
}

/// The characters from index `a` to index `b` form a top-level block: the
/// depth leaves zero at `a` and is back at zero just after `b`, not before.
pub open spec fn is_excursion(s: Seq<char>, open: char, close: char, a: int, b: int) -> bool {
    &&& 0 <= a < b < s.len()
    &&& depth(s, open, close, a) == 0
    &&& depth(s, open, close, b + 1) == 0
    &&& forall|k: int| a < k <= b ==> #[trigger] depth(s, open, close, k) > 0
}

/// The indices among the first `n` at which the depth comes back to zero.
pub open spec fn round_trips(s: Seq<char>, open: char, close: char, n: int) -> Set<int> {
    Set::new(
        |k: int| 0 <= k < n && depth(s, open, close, k) > 0 && depth(s, open, close, k + 1) == 0,
    )
}

/// In a text without delimiters the depth stays at zero and no block closes.
pub proof fn lemma_no_delimiters(s: Seq<char>, open: char, close: char, n: int)
    requires
        0 <= n <= s.len(),
        forall|i: int| 0 <= i < s.len() ==> s[i] != open && s[i] != close,
    ensures
        depth(s, open, close, n) == 0,
        blocks(s, open, close, n) == Seq::<(int, int)>::empty(),
    decreases n,
{
    if n > 0 {
        lemma_no_delimiters(s, open, close, n - 1);
    }
}

/// Where the depth never falls below zero, `last_top_level` finds the last
/// index up to `k` with depth zero, and the depth is positive from there on.
pub proof fn lemma_last_top_level(s: Seq<char>, open: char, close: char, k: int)
    requires
        0 <= k,
        forall|j: int| 0 <= j <= k ==> #[trigger] depth(s, open, close, j) >= 0,
    ensures
        0 <= last_top_level(s, open, close, k) <= k,
        depth(s, open, close, last_top_level(s, open, close, k)) == 0,
        forall|j: int|
            last_top_level(s, open, close, k) < j <= k ==> #[trigger] depth(s, open, close, j)
                > 0,
    decreases k,
{
    if k > 0 && depth(s, open, close, k) != 0 {
        lemma_last_top_level(s, open, close, k - 1);
    }
}

/// In a text whose depth never falls below zero up to `n`, the blocks found
/// among the first `n` characters are exactly the top-level excursions that
/// end there: each block is one, they follow each other in the order of the
/// text without overlap, none is missing, and there are as many as the depth
/// comes back to zero.
pub proof fn lemma_blocks_are_excursions(s: Seq<char>, open: char, close: char, n: int)
    requires
        0 <= n <= s.len(),
        forall|j: int| 0 <= j <= n ==> #[trigger] depth(s, open, close, j) >= 0,
    ensures
        forall|i: int|
            0 <= i < blocks(s, open, close, n).len() ==> {
                &&& is_excursion(
                    s,
                    open,
                    close,
                    (#[trigger] blocks(s, open, close, n)[i]).0,
                    blocks(s, open, close, n)[i].1,
                )
                &&& blocks(s, open, close, n)[i].1 < n
            },
        forall|i: int, j: int|
            0 <= i < j < blocks(s, open, close, n).len() ==> (#[trigger] blocks(
                s,
                open,
                close,
                n,
            )[i]).1 < (#[trigger] blocks(s, open, close, n)[j]).0,
        forall|a: int, b: int|
            b < n && #[trigger] is_excursion(s, open, close, a, b) ==> blocks(
                s,
                open,
                close,
                n,
            ).contains((a, b)),
        round_trips(s, open, close, n).finite(),
        blocks(s, open, close, n).len() == round_trips(s, open, close, n).len(),
    decreases n,
{
    let bs = blocks(s, open, close, n);
    if n == 0 {
        assert(round_trips(s, open, close, n) =~= Set::<int>::empty());
    } else {
        let k = n - 1;
        let prev = blocks(s, open, close, k);
        lemma_blocks_are_excursions(s, open, close, k);
        lemma_last_top_level(s, open, close, k);
        if closes_at(s, open, close, k) {
            // One more block, from the last index of depth zero to `k`: it
            // comes after the others and is the one excursion that ends at `k`.
            assert(round_trips(s, open, close, n) =~= round_trips(s, open, close, k).insert(k));
            assert forall|x: int, y: int|
                y < n && #[trigger] is_excursion(s, open, close, x, y) implies bs.contains(
                (x, y),
            ) by {
                if y == k {
                    assert(bs[prev.len() as int] == (x, y));
                } else {
                    let i = choose|i: int| 0 <= i < prev.len() && prev[i] == (x, y);
                    assert(bs[i] == (x, y));
                }
            }
        } else {
            // No block and no excursion ends at `k`.
            assert(round_trips(s, open, close, n) =~= round_trips(s, open, close, k));
        }
    }
}

} // verus!
