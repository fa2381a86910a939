//! The order in which candidates are tiled: the longest first, and those
//! of one length in the order in which they were found.

use crate::record::Match;
use vstd::prelude::*;

verus! {

/// The candidates of the given length, in their order.
pub open spec fn of_length(candidates: Seq<Match>, len: nat) -> Seq<Match>
    decreases candidates.len(),
{
    if candidates.len() == 0 {
        Seq::empty()
    } else if candidates.last().length == len {
        of_length(candidates.drop_last(), len).push(candidates.last())
    } else {
        of_length(candidates.drop_last(), len)
    }
}

/// The candidates of length `top` at most: those of length `top` first,
/// then those one shorter, and so on, each length in the candidates'
/// order.
pub open spec fn longest_first(candidates: Seq<Match>, top: nat) -> Seq<Match>
    decreases top,
{
    if top == 0 {
        of_length(candidates, 0)
    } else {
        of_length(candidates, top) + longest_first(candidates, (top - 1) as nat)
    }
}

/// No candidate is followed by a longer one.
pub open spec fn descending(candidates: Seq<Match>) -> bool {
    forall|a: int, b: int|
        0 <= a <= b < candidates.len() ==> (#[trigger] candidates[a]).length >= (
        #[trigger] candidates[b]).length
}

/// No candidate is longer than `top`.
pub open spec fn at_most(candidates: Seq<Match>, top: nat) -> bool {
    forall|n: int| 0 <= n < candidates.len() ==> (#[trigger] candidates[n]).length <= top
}

/// `slice::sort_by` with a comparison of the lengths, the longer first. The
/// sort is stable: the result is in descending order of length, and the
/// matches of any one length are the same as before, in the same order.
#[verifier::external_body]
pub(crate) fn sort_longest_first(matches: &mut Vec<Match>)
    ensures
        final(matches)@.len() == old(matches)@.len(),
        descending(final(matches)@),
        forall|len: nat| #[trigger] of_length(final(matches)@, len) == of_length(old(matches)@, len),
{
    matches.sort_by(|a, b| b.length.cmp(&a.length));
}

/// The candidates of a length are candidates, and of that length; and
/// every candidate of that length is among them.
pub proof fn lemma_of_length_members(candidates: Seq<Match>, len: nat)
    ensures
        forall|n: int|
            0 <= n < of_length(candidates, len).len() ==> {
                &&& (#[trigger] of_length(candidates, len)[n]).length == len
                &&& candidates.contains(of_length(candidates, len)[n])
            },
        forall|n: int|
            0 <= n < candidates.len() && (#[trigger] candidates[n]).length == len ==> of_length(
                candidates,
                len,
            ).contains(candidates[n]),
    decreases candidates.len(),
{
    if candidates.len() > 0 {
        let front = candidates.drop_last();
        let last = candidates.last();
        let chosen = of_length(candidates, len);
        lemma_of_length_members(front, len);
        assert forall|n: int| 0 <= n < chosen.len() implies {
            &&& (#[trigger] chosen[n]).length == len
            &&& candidates.contains(chosen[n])
        } by {
            if n < of_length(front, len).len() {
                let m = of_length(front, len)[n];
                assert(chosen[n] == m);
                let q = choose|q: int| 0 <= q < front.len() && front[q] == m;
                assert(candidates[q] == m);
            } else {
                assert(chosen[n] == last);
                assert(candidates[candidates.len() - 1] == last);
            }
        }
        assert forall|n: int|
            0 <= n < candidates.len() && (#[trigger] candidates[n]).length == len implies chosen.contains(
            candidates[n],
        ) by {
            if n < front.len() {
                assert(front[n] == candidates[n]);
                let q = choose|q: int|
                    0 <= q < of_length(front, len).len() && of_length(front, len)[q] == front[n];
                assert(chosen[q] == candidates[n]);
            } else {
                assert(chosen[chosen.len() - 1] == candidates[n]);
            }
        }
    }
}

/// Where no candidate has the length, none is chosen.
pub proof fn lemma_of_length_none(candidates: Seq<Match>, len: nat)
    requires
        forall|n: int| 0 <= n < candidates.len() ==> (#[trigger] candidates[n]).length != len,
    ensures
        of_length(candidates, len) == Seq::<Match>::empty(),
    decreases candidates.len(),
{
    if candidates.len() > 0 {
        let front = candidates.drop_last();
        assert forall|n: int| 0 <= n < front.len() implies (#[trigger] front[n]).length != len by {
            assert(front[n] == candidates[n]);
        }
        lemma_of_length_none(front, len);
        assert(candidates[candidates.len() - 1].length != len);
    }
}

/// Where every candidate is longer than `top`, the order up to `top` is
/// empty.
pub proof fn lemma_longest_first_none(candidates: Seq<Match>, top: nat)
    requires
        forall|n: int| 0 <= n < candidates.len() ==> (#[trigger] candidates[n]).length > top,
    ensures
        longest_first(candidates, top) == Seq::<Match>::empty(),
    decreases top,
{
    lemma_of_length_none(candidates, top);
    if top > 0 {
        lemma_longest_first_none(candidates, (top - 1) as nat);
    }
}

/// A candidate that is no longer than those before it comes last in the
/// order.
pub proof fn lemma_longest_first_push(candidates: Seq<Match>, m: Match, top: nat)
    requires
        forall|n: int| 0 <= n < candidates.len() ==> (#[trigger] candidates[n]).length >= m.length,
        m.length <= top,
    ensures
        longest_first(candidates.push(m), top) == longest_first(candidates, top).push(m),
    decreases top,
{
    let more = candidates.push(m);
    assert(more.drop_last() =~= candidates);
    if top == m.length {
        if top > 0 {
            let below = (top - 1) as nat;
            assert forall|n: int| 0 <= n < more.len() implies (#[trigger] more[n]).length
                > below by {
                if n < candidates.len() {
                    assert(more[n] == candidates[n]);
                }
            }
            lemma_longest_first_none(more, below);
            lemma_longest_first_none(candidates, below);
        }
        assert(longest_first(more, top) =~= longest_first(candidates, top).push(m));
    } else {
        lemma_longest_first_push(candidates, m, (top - 1) as nat);
        assert(longest_first(more, top) =~= longest_first(candidates, top).push(m));
    }
}

/// A sequence in descending order of length is its own order.
pub proof fn lemma_descending_is_ordered(candidates: Seq<Match>, top: nat)
    requires
        descending(candidates),
        at_most(candidates, top),
    ensures
        longest_first(candidates, top) == candidates,
    decreases candidates.len(),
{
    if candidates.len() == 0 {
        lemma_longest_first_none_of_empty(top);
        assert(candidates =~= Seq::<Match>::empty());
    } else {
        let front = candidates.drop_last();
        let last = candidates.last();
        assert forall|a: int, b: int| 0 <= a <= b < front.len() implies (#[trigger] front[a]).length
            >= (#[trigger] front[b]).length by {
            assert(front[a] == candidates[a] && front[b] == candidates[b]);
        }
        assert forall|n: int| 0 <= n < front.len() implies (#[trigger] front[n]).length
            <= top by {
            assert(front[n] == candidates[n]);
        }
        lemma_descending_is_ordered(front, top);
        assert forall|n: int| 0 <= n < front.len() implies (#[trigger] front[n]).length
            >= last.length by {
            assert(front[n] == candidates[n]);
            assert(candidates[candidates.len() - 1] == last);
        }
        assert(candidates[candidates.len() - 1] == last);
        lemma_longest_first_push(front, last, top);
        assert(front.push(last) =~= candidates);
    }
}

/// The order of no candidates is empty.
pub proof fn lemma_longest_first_none_of_empty(top: nat)
    ensures
        longest_first(Seq::<Match>::empty(), top) == Seq::<Match>::empty(),
{
    lemma_longest_first_none(Seq::<Match>::empty(), top);
}

/// Two sequences with the same candidates of each length, in the same
/// order, have the same order.
pub proof fn lemma_longest_first_same(ours: Seq<Match>, theirs: Seq<Match>, top: nat)
    requires
        forall|len: nat| #[trigger] of_length(ours, len) == of_length(theirs, len),
    ensures
        longest_first(ours, top) == longest_first(theirs, top),
    decreases top,
{
    assert(of_length(ours, top) == of_length(theirs, top));
    if top > 0 {
        lemma_longest_first_same(ours, theirs, (top - 1) as nat);
    }
}

/// The order holds candidates only, each of them no longer than `top`, in
/// descending order of length; and it holds every candidate that is no
/// longer than `top`.
pub proof fn lemma_longest_first_members(candidates: Seq<Match>, top: nat)
    ensures
        forall|n: int|
            0 <= n < longest_first(candidates, top).len() ==> {
                &&& (#[trigger] longest_first(candidates, top)[n]).length <= top
                &&& candidates.contains(longest_first(candidates, top)[n])
            },
        forall|n: int|
            0 <= n < candidates.len() && (#[trigger] candidates[n]).length <= top
                ==> longest_first(candidates, top).contains(candidates[n]),
        descending(longest_first(candidates, top)),
    decreases top,
{
    let order = longest_first(candidates, top);
    let head = of_length(candidates, top);
    lemma_of_length_members(candidates, top);
    if top == 0 {
        assert(order == head);
    } else {
        let below = (top - 1) as nat;
        let tail = longest_first(candidates, below);
        lemma_longest_first_members(candidates, below);
        assert(order == head + tail);
        assert forall|n: int| 0 <= n < order.len() implies {
            &&& (#[trigger] order[n]).length <= top
            &&& candidates.contains(order[n])
        } by {
            if n < head.len() {
                assert(order[n] == head[n]);
            } else {
                assert(order[n] == tail[n - head.len()]);
            }
        }
        assert forall|n: int|
            0 <= n < candidates.len() && (#[trigger] candidates[n]).length
                <= top implies order.contains(candidates[n]) by {
            if candidates[n].length == top {
                let q = choose|q: int| 0 <= q < head.len() && head[q] == candidates[n];
                assert(order[q] == candidates[n]);
            } else {
                let q = choose|q: int| 0 <= q < tail.len() && tail[q] == candidates[n];
                assert(order[q + head.len()] == candidates[n]);
            }
        }
        assert forall|a: int, b: int| 0 <= a <= b < order.len() implies (#[trigger] order[a]).length
            >= (#[trigger] order[b]).length by {
            if b < head.len() {
                assert(order[a] == head[a] && order[b] == head[b]);
            } else if a < head.len() {
                assert(order[a] == head[a] && order[b] == tail[b - head.len()]);
            } else {
                assert(order[a] == tail[a - head.len()] && order[b] == tail[b - head.len()]);
            }
        }
    }
}

} // verus!
