//! One pass over all pairs of positions, as mathematics: the candidates
//! that it finds and the length at which it stops early.

use crate::board::Board;
use crate::record::Match;
use vstd::prelude::*;

verus! {

/// What a pass has found: the candidates in the order in which they were
/// found, and, where the pass met a match of more than twice the search
/// length, that match's length.
pub struct Scan {
    pub candidates: Seq<Match>,
    pub stopped: Option<nat>,
}

/// The greatest length among the candidates, zero where there are none.
pub open spec fn longest_of(candidates: Seq<Match>) -> nat
    decreases candidates.len(),
{
    if candidates.len() == 0 {
        0
    } else {
        let rest = longest_of(candidates.drop_last());
        if candidates.last().length > rest {
            candidates.last().length as nat
        } else {
            rest
        }
    }
}

/// The pair `(a, c)` comes before the pair `(i, j)`: in an earlier row, or
/// earlier in the same row.
pub open spec fn earlier(a: int, c: int, i: int, j: int) -> bool {
    a < i || (a == i && c < j)
}

impl Scan {
    /// The length that the pass reports: the one at which it stopped, or
    /// else the greatest among its candidates.
    pub open spec fn longest(self) -> nat {
        match self.stopped {
            Some(k) => k,
            None => longest_of(self.candidates),
        }
    }
}

impl Board {
    /// The match that starts at `(i, j)` and runs as far as the two
    /// sequences agree.
    pub open spec fn found(self, i: int, j: int) -> Match {
        Match {
            pattern_index: i as usize,
            text_index: j as usize,
            length: self.extension(i, j) as usize,
        }
    }

    /// The pair `(i, j)` lies on the board and its extension is more than
    /// twice the search length.
    pub open spec fn exceeds(self, s: nat, i: int, j: int) -> bool {
        &&& 0 <= i < self.pattern.len()
        &&& 0 <= j < self.text.len()
        &&& self.extension(i, j) > 2 * s
    }

    /// The pass after it has looked at the pair `(i, j)`: an extension of
    /// more than twice the search length stops it; one of at least the
    /// search length is a candidate; a shorter one is passed over. Once
    /// stopped, a pass looks at nothing.
    pub open spec fn probe(self, so_far: Scan, s: nat, i: int, j: int) -> Scan {
        let k = self.extension(i, j);
        if so_far.stopped is Some {
            so_far
        } else if k > 2 * s {
            Scan { candidates: so_far.candidates, stopped: Some(k) }
        } else if k >= s {
            Scan { candidates: so_far.candidates.push(self.found(i, j)), stopped: None }
        } else {
            so_far
        }
    }

    /// The pass after it has looked at every pair before `(i, j)`, row by
    /// row of the pattern and along the text within a row.
    pub open spec fn scanned(self, s: nat, i: int, j: int) -> Scan
        decreases i, j,
    {
        if j > 0 {
            self.probe(self.scanned(s, i, j - 1), s, i, j - 1)
        } else if i > 0 {
            self.scanned(s, i - 1, self.text.len() as int)
        } else {
            Scan { candidates: Seq::empty(), stopped: None }
        }
    }

    /// The whole pass at search length `s`.
    pub open spec fn scan(self, s: nat) -> Scan {
        self.scanned(s, self.pattern.len() as int, 0)
    }

    /// What holds of a pass at any point: each candidate is the match
    /// found at an earlier pair, of a length from `s` to twice `s`; a stop
    /// came from an earlier pair whose extension exceeds twice `s`; and a
    /// pass that has not stopped has seen no such pair and holds every
    /// earlier pair whose extension is at least `s`.
    pub proof fn lemma_scanned(self, s: nat, i: int, j: int)
        requires
            self.wf(),
            s > 0,
            0 <= i <= self.pattern.len(),
            0 <= j <= self.text.len(),
        ensures
            forall|n: int|
                0 <= n < self.scanned(s, i, j).candidates.len() ==> {
                    let m = #[trigger] self.scanned(s, i, j).candidates[n];
                    &&& earlier(m.pattern_index as int, m.text_index as int, i, j)
                    &&& m.text_index < self.text.len()
                    &&& m == self.found(m.pattern_index as int, m.text_index as int)
                    &&& s <= m.length <= 2 * s
                    &&& m.length == self.extension(m.pattern_index as int, m.text_index as int)
                },
            self.scanned(s, i, j).stopped matches Some(k) ==> exists|a: int, c: int|
                earlier(a, c, i, j) && #[trigger] self.exceeds(s, a, c) && self.extension(a, c)
                    == k,
            self.scanned(s, i, j).stopped is None ==> forall|a: int, c: int|
                0 <= a && 0 <= c < self.text.len() && earlier(a, c, i, j) ==> {
                    &&& #[trigger] self.extension(a, c) <= 2 * s
                    &&& self.extension(a, c) >= s ==> self.scanned(s, i, j).candidates.contains(
                        self.found(a, c),
                    )
                },
        decreases i, j,
    {
        let now = self.scanned(s, i, j);
        if j > 0 {
            let prev = self.scanned(s, i, j - 1);
            self.lemma_scanned(s, i, j - 1);
            self.lemma_extension_fits(i, j - 1);
            let k = self.extension(i, j - 1);
            assert(now == self.probe(prev, s, i, j - 1));
            if prev.stopped is Some {
                let (a, c) = choose|a: int, c: int|
                    earlier(a, c, i, j - 1) && #[trigger] self.exceeds(s, a, c)
                        && self.extension(a, c) == prev.stopped->0;
                assert(earlier(a, c, i, j) && self.exceeds(s, a, c));
            } else if k > 2 * s {
                assert(earlier(i, j - 1, i, j) && self.exceeds(s, i, j - 1));
            } else {
                assert forall|a: int, c: int|
                    0 <= a && 0 <= c < self.text.len() && earlier(a, c, i, j) implies {
                    &&& #[trigger] self.extension(a, c) <= 2 * s
                    &&& self.extension(a, c) >= s ==> now.candidates.contains(self.found(a, c))
                } by {
                    if earlier(a, c, i, j - 1) {
                        if self.extension(a, c) >= s {
                            let n = choose|n: int|
                                0 <= n < prev.candidates.len() && prev.candidates[n] == self.found(
                                    a,
                                    c,
                                );
                            assert(now.candidates[n] == self.found(a, c));
                        }
                    } else {
                        assert(a == i && c == j - 1);
                        if k >= s {
                            assert(now.candidates[prev.candidates.len() as int] == self.found(
                                a,
                                c,
                            ));
                        }
                    }
                }
                assert forall|n: int| 0 <= n < now.candidates.len() implies {
                    let m = #[trigger] now.candidates[n];
                    &&& earlier(m.pattern_index as int, m.text_index as int, i, j)
                    &&& m.text_index < self.text.len()
                    &&& m == self.found(m.pattern_index as int, m.text_index as int)
                    &&& s <= m.length <= 2 * s
                    &&& m.length == self.extension(m.pattern_index as int, m.text_index as int)
                } by {
                    if n < prev.candidates.len() {
                        assert(now.candidates[n] == prev.candidates[n]);
                    }
                }
            }
        } else if i > 0 {
            self.lemma_scanned(s, i - 1, self.text.len() as int);
            let prev = self.scanned(s, i - 1, self.text.len() as int);
            assert(now == prev);
            if prev.stopped is Some {
                let (a, c) = choose|a: int, c: int|
                    earlier(a, c, i - 1, self.text.len() as int) && #[trigger] self.exceeds(
                        s,
                        a,
                        c,
                    ) && self.extension(a, c) == prev.stopped->0;
                assert(earlier(a, c, i, j) && self.exceeds(s, a, c));
            }
        }
    }

    /// Pairs whose extension is below the search length leave a pass as it
    /// was: here the pairs of row `i` from `j0` up to `j1`.
    pub proof fn lemma_row_idle(self, s: nat, i: int, j0: int, j1: int)
        requires
            0 <= j0 <= j1,
            forall|c: int| j0 <= c < j1 ==> #[trigger] self.extension(i, c) < s,
        ensures
            self.scanned(s, i, j1) == self.scanned(s, i, j0),
        decreases j1 - j0,
    {
        if j1 > j0 {
            self.lemma_row_idle(s, i, j0, j1 - 1);
            assert(self.extension(i, j1 - 1) < s);
        }
    }

    /// Rows in which every extension is below the search length leave a
    /// pass as it was: here the rows from `i0` up to `i1`.
    pub proof fn lemma_rows_idle(self, s: nat, i0: int, i1: int)
        requires
            0 <= i0 <= i1,
            forall|a: int, c: int|
                i0 <= a < i1 && 0 <= c < self.text.len() ==> #[trigger] self.extension(a, c) < s,
        ensures
            self.scanned(s, i1, 0) == self.scanned(s, i0, 0),
        decreases i1 - i0,
    {
        if i1 > i0 {
            self.lemma_rows_idle(s, i0, i1 - 1);
            self.lemma_row_idle(s, i1 - 1, 0, self.text.len() as int);
        }
    }

    /// A pass that has stopped stays as it is to the end.
    pub proof fn lemma_stopped_stays(self, s: nat, i: int, j: int)
        requires
            0 <= i < self.pattern.len(),
            0 <= j <= self.text.len(),
            self.scanned(s, i, j).stopped is Some,
        ensures
            self.scan(s) == self.scanned(s, i, j),
    {
        self.lemma_stopped_row(s, i, j, self.text.len() as int);
        self.lemma_stopped_rows(s, i, self.pattern.len() as int);
    }

    /// A pass that has stopped within row `i` is the same at the row's end.
    proof fn lemma_stopped_row(self, s: nat, i: int, j: int, j1: int)
        requires
            0 <= j <= j1,
            self.scanned(s, i, j).stopped is Some,
        ensures
            self.scanned(s, i, j1) == self.scanned(s, i, j),
        decreases j1 - j,
    {
        if j1 > j {
            self.lemma_stopped_row(s, i, j, j1 - 1);
        }
    }

    /// A pass that has stopped by the end of row `i` is the same before any
    /// later row.
    proof fn lemma_stopped_rows(self, s: nat, i: int, i1: int)
        requires
            0 <= i < i1,
            self.scanned(s, i, self.text.len() as int).stopped is Some,
        ensures
            self.scanned(s, i1, 0) == self.scanned(s, i, self.text.len() as int),
        decreases i1 - i,
    {
        if i1 > i + 1 {
            self.lemma_stopped_rows(s, i, i1 - 1);
            self.lemma_stopped_row(s, i1 - 1, 0, self.text.len() as int);
        }
    }
}

/// The greatest length after one more candidate.
pub proof fn lemma_longest_of_push(candidates: Seq<Match>, m: Match)
    ensures
        longest_of(candidates.push(m)) == if m.length > longest_of(candidates) {
            m.length as nat
        } else {
            longest_of(candidates)
        },
{
    assert(candidates.push(m).drop_last() =~= candidates);
}

/// No candidate is longer than the greatest length.
pub proof fn lemma_longest_of_bounds(candidates: Seq<Match>, top: nat)
    ensures
        forall|n: int| 0 <= n < candidates.len() ==> (#[trigger] candidates[n]).length
            <= longest_of(candidates),
        (forall|n: int| 0 <= n < candidates.len() ==> (#[trigger] candidates[n]).length <= top)
            ==> longest_of(candidates) <= top,
    decreases candidates.len(),
{
    if candidates.len() > 0 {
        lemma_longest_of_bounds(candidates.drop_last(), top);
        assert forall|n: int| 0 <= n < candidates.len() implies (#[trigger] candidates[n]).length
            <= longest_of(candidates) by {
            if n < candidates.len() - 1 {
                assert(candidates.drop_last()[n] == candidates[n]);
            }
        }
        if forall|n: int| 0 <= n < candidates.len() ==> (#[trigger] candidates[n]).length <= top {
            assert forall|n: int| 0 <= n < candidates.drop_last().len() implies (
            #[trigger] candidates.drop_last()[n]).length <= top by {
                assert(candidates.drop_last()[n] == candidates[n]);
            }
        }
    }
}

} // verus!
