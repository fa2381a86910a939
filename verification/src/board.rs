//! The two sequences and their marks, as mathematics: which positions a
//! tile has taken, and how far a common substring runs from a pair of
//! positions.

use crate::record::Match;
use vstd::prelude::*;

verus! {

/// No position of the span is marked.
pub open spec fn clear(marks: Seq<bool>, start: int, len: int) -> bool {
    forall|x: int| start <= x < start + len ==> !#[trigger] marks[x]
}

/// The marks with every position of the span marked as well.
pub open spec fn covered(marks: Seq<bool>, start: int, len: int) -> Seq<bool> {
    Seq::new(marks.len(), |x: int| marks[x] || start <= x < start + len)
}

/// Every mark of `before` is a mark of `after`.
pub open spec fn grown(before: Seq<bool>, after: Seq<bool>) -> bool {
    &&& before.len() == after.len()
    &&& forall|x: int| 0 <= x < before.len() && before[x] ==> #[trigger] after[x]
}

/// The number of positions that are not marked.
pub open spec fn open_count(marks: Seq<bool>) -> nat
    decreases marks.len(),
{
    if marks.len() == 0 {
        0
    } else {
        open_count(marks.drop_last()) + if marks.last() {
            0nat
        } else {
            1nat
        }
    }
}

/// A pattern, a text, and the positions of each that tiles have taken.
pub struct Board {
    pub pattern: Seq<u8>,
    pub text: Seq<u8>,
    pub pattern_marks: Seq<bool>,
    pub text_marks: Seq<bool>,
}

impl Board {
    /// There is one mark for each position, and every position can be
    /// written as a `usize`.
    pub open spec fn wf(self) -> bool {
        &&& self.pattern_marks.len() == self.pattern.len()
        &&& self.text_marks.len() == self.text.len()
        &&& self.pattern.len() <= usize::MAX
        &&& self.text.len() <= usize::MAX
    }

    /// The board on which nothing is marked yet.
    pub open spec fn fresh(pattern: Seq<u8>, text: Seq<u8>) -> Board {
        Board {
            pattern,
            text,
            pattern_marks: Seq::new(pattern.len(), |x: int| false),
            text_marks: Seq::new(text.len(), |x: int| false),
        }
    }

    /// `d` positions behind `i` in the pattern and `j` in the text, both
    /// sequences go on, hold the same byte, and neither position is marked.
    pub open spec fn agree(self, i: int, j: int, d: int) -> bool {
        &&& 0 <= i + d < self.pattern.len()
        &&& 0 <= j + d < self.text.len()
        &&& self.pattern[i + d] == self.text[j + d]
        &&& !self.pattern_marks[i + d]
        &&& !self.text_marks[j + d]
    }

    /// How far the pattern from `i` and the text from `j` agree: the
    /// length of the longest common substring that starts there and
    /// touches no mark.
    pub open spec fn extension(self, i: int, j: int) -> nat
        decreases self.pattern.len() - i,
    {
        if self.agree(i, j, 0) {
            1 + self.extension(i + 1, j + 1)
        } else {
            0
        }
    }

    /// The match lies within both sequences.
    pub open spec fn fits(self, m: Match) -> bool {
        &&& m.pattern_index + m.length <= self.pattern.len()
        &&& m.text_index + m.length <= self.text.len()
    }

    /// The match is a common substring: the pattern and the text hold the
    /// same bytes over it.
    pub open spec fn common(self, m: Match) -> bool {
        self.pattern.subrange(m.pattern_index as int, m.pattern_index + m.length)
            == self.text.subrange(m.text_index as int, m.text_index + m.length)
    }

    /// No position of the match is marked, in either sequence.
    pub open spec fn admits(self, m: Match) -> bool {
        &&& clear(self.pattern_marks, m.pattern_index as int, m.length as int)
        &&& clear(self.text_marks, m.text_index as int, m.length as int)
    }

    /// The board after the match has become a tile: its positions are
    /// marked in both sequences.
    pub open spec fn place(self, m: Match) -> Board {
        Board {
            pattern_marks: covered(self.pattern_marks, m.pattern_index as int, m.length as int),
            text_marks: covered(self.text_marks, m.text_index as int, m.length as int),
            ..self
        }
    }

    /// Every mark of `self` is a mark of `later`, on the same sequences.
    pub open spec fn within(self, later: Board) -> bool {
        &&& self.pattern == later.pattern
        &&& self.text == later.text
        &&& grown(self.pattern_marks, later.pattern_marks)
        &&& grown(self.text_marks, later.text_marks)
    }

    /// The first `d` pairs of positions from `(i, j)` agree, and the
    /// extension from there is `d` more than the one `d` positions on.
    pub proof fn lemma_extension_prefix(self, i: int, j: int, d: nat)
        requires
            d <= self.extension(i, j),
        ensures
            self.extension(i, j) == d + self.extension(i + d, j + d),
            forall|e: int| 0 <= e < d ==> self.agree(i, j, e),
        decreases d,
    {
        if d > 0 {
            let c = (d - 1) as nat;
            self.lemma_extension_prefix(i, j, c);
            assert(self.extension(i + c, j + c) >= 1);
            assert(self.agree(i + c, j + c, 0));
            assert(self.agree(i, j, c as int));
            assert(self.extension(i + c, j + c) == 1 + self.extension(i + c + 1, j + c + 1));
        }
    }

    /// The extension stops where the pair of positions no longer agrees.
    pub proof fn lemma_extension_end(self, i: int, j: int)
        ensures
            !self.agree(i, j, self.extension(i, j) as int),
    {
        let k = self.extension(i, j);
        self.lemma_extension_prefix(i, j, k);
        assert(self.extension(i + k, j + k) == 0);
        assert(!self.agree(i + k, j + k, 0));
    }

    /// An extension ends within both sequences, and is zero from a start
    /// outside of them.
    pub proof fn lemma_extension_fits(self, i: int, j: int)
        ensures
            0 <= i <= self.pattern.len() ==> i + self.extension(i, j) <= self.pattern.len(),
            0 <= j <= self.text.len() ==> j + self.extension(i, j) <= self.text.len(),
            self.extension(i, j) > 0 ==> 0 <= i < self.pattern.len() && 0 <= j < self.text.len(),
        decreases self.pattern.len() - i,
    {
        if self.agree(i, j, 0) {
            self.lemma_extension_fits(i + 1, j + 1);
        }
    }

    /// Over at least `s` positions of agreement the two windows of width
    /// `s` hold the same bytes and no mark.
    pub proof fn lemma_extension_windows(self, i: int, j: int, s: nat)
        requires
            self.wf(),
            self.extension(i, j) >= s,
            s > 0,
        ensures
            0 <= i,
            0 <= j,
            i + s <= self.pattern.len(),
            j + s <= self.text.len(),
            self.pattern.subrange(i, i + s) == self.text.subrange(j, j + s),
            clear(self.pattern_marks, i, s as int),
            clear(self.text_marks, j, s as int),
    {
        self.lemma_extension_prefix(i, j, s);
        self.lemma_extension_fits(i, j);
        assert forall|x: int| i <= x < i + s implies !#[trigger] self.pattern_marks[x] by {
            assert(self.agree(i, j, x - i));
        }
        assert forall|x: int| j <= x < j + s implies !#[trigger] self.text_marks[x] by {
            assert(self.agree(i, j, x - j));
        }
        let ours = self.pattern.subrange(i, i + s);
        let theirs = self.text.subrange(j, j + s);
        assert forall|e: int| 0 <= e < s implies #[trigger] ours[e] == theirs[e] by {
            assert(self.agree(i, j, e));
        }
        assert(ours =~= theirs);
    }

    /// A mark within the first `s` positions from `i` or from `j` keeps
    /// the extension below `s`.
    pub proof fn lemma_extension_blocked(self, i: int, j: int, s: nat)
        requires
            self.wf(),
            s > 0,
            !(clear(self.pattern_marks, i, s as int) && clear(self.text_marks, j, s as int)),
        ensures
            self.extension(i, j) < s,
    {
        if self.extension(i, j) >= s {
            self.lemma_extension_windows(i, j, s);
        }
    }
}

/// Marks that have grown leave no more positions open.
pub proof fn lemma_open_count_grown(before: Seq<bool>, after: Seq<bool>)
    requires
        grown(before, after),
    ensures
        open_count(after) <= open_count(before),
    decreases before.len(),
{
    if before.len() > 0 {
        assert(before[before.len() - 1] ==> after[before.len() - 1]);
        lemma_open_count_grown(before.drop_last(), after.drop_last());
    }
}

/// Marks that have grown by the position `x` leave fewer positions open.
pub proof fn lemma_open_count_less(before: Seq<bool>, after: Seq<bool>, x: int)
    requires
        grown(before, after),
        0 <= x < before.len(),
        !before[x],
        after[x],
    ensures
        open_count(after) < open_count(before),
    decreases before.len(),
{
    let last = before.len() - 1;
    assert(before[last] ==> after[last]);
    if x == last {
        lemma_open_count_grown(before.drop_last(), after.drop_last());
    } else {
        lemma_open_count_less(before.drop_last(), after.drop_last(), x);
    }
}

} // verus!
