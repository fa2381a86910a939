//! The tiling of the candidates of one pass.

use crate::board::clear;
use crate::board::covered;
use crate::candidates::lemma_longest_of_bounds;
use crate::candidates::longest_of;
use crate::marks::is_marked;
use crate::marks::mark;
use crate::order::lemma_descending_is_ordered;
use crate::order::lemma_longest_first_same;
use crate::order::lemma_of_length_members;
use crate::order::of_length;
use crate::order::sort_longest_first;
use crate::passes::tiling;
use crate::record::Match;
use crate::state::RkrGst;
use crate::tiling::tile;
use crate::tiling::tiled;
use crate::tiling::tiling_order;
use vstd::prelude::*;

verus! {

impl<'a> RkrGst<'a> {
    /// Whether no position of the match is marked in either sequence.
    fn admits(&self, m: &Match) -> (free: bool)
        requires
            self.wf(),
            self.board().fits(*m),
        ensures
            free == self.board().admits(*m),
    {
        let mut i: usize = 0;
        while i < m.length
            invariant
                self.wf(),
                self.board().fits(*m),
                i <= m.length,
                clear(self.board().pattern_marks, m.pattern_index as int, i as int),
                clear(self.board().text_marks, m.text_index as int, i as int),
            decreases m.length - i,
        {
            if is_marked(&self.text_mark, m.text_index + i) || is_marked(
                &self.pattern_mark,
                m.pattern_index + i,
            ) {
                return false;
            }
            i += 1;
        }
        true
    }

    /// Marks every position of the match in both sequences.
    fn place(&mut self, m: &Match)
        requires
            old(self).wf(),
            old(self).board().fits(*m),
        ensures
            final(self).board() == old(self).board().place(*m),
            final(self).matches == old(self).matches,
            final(self).result == old(self).result,
    {
        let ghost before = self.board();
        let mut i: usize = 0;
        while i < m.length
            invariant
                before.wf(),
                before.fits(*m),
                i <= m.length,
                self.board().pattern == before.pattern,
                self.board().text == before.text,
                self.board().pattern_marks == covered(
                    before.pattern_marks,
                    m.pattern_index as int,
                    i as int,
                ),
                self.board().text_marks == covered(
                    before.text_marks,
                    m.text_index as int,
                    i as int,
                ),
                self.matches == old(self).matches,
                self.result == old(self).result,
            decreases m.length - i,
        {
            let ghost pattern_marks = self.board().pattern_marks;
            let ghost text_marks = self.board().text_marks;
            mark(&mut self.text_mark, m.text_index + i);
            mark(&mut self.pattern_mark, m.pattern_index + i);
            proof {
                assert(pattern_marks.update(m.pattern_index + i, true) =~= covered(
                    before.pattern_marks,
                    m.pattern_index as int,
                    i + 1,
                ));
                assert(text_marks.update(m.text_index + i, true) =~= covered(
                    before.text_marks,
                    m.text_index as int,
                    i + 1,
                ));
            }
            i += 1;
        }
        proof {
            assert(covered(before.pattern_marks, m.pattern_index as int, 0)
                =~= before.pattern_marks);
            assert(covered(before.text_marks, m.text_index as int, 0) =~= before.text_marks);
        }
    }

    /// Tiles the candidates of the pass, the longest first and those of
    /// one length in the order in which they were found: a candidate of
    /// which no position is marked becomes a tile, and its positions are
    /// marked; any other is dropped as a whole. No candidate is left
    /// afterwards.
    pub(crate) fn mark_strings(&mut self)
        requires
            old(self).wf(),
            forall|n: int|
                0 <= n < old(self).matches@.len() ==> old(self).board().fits(
                    #[trigger] old(self).matches@[n],
                ),
        ensures
            final(self).board() == tile(old(self).board(), old(self).matches@).board,
            final(self).result@ == old(self).result@ + tile(
                old(self).board(),
                old(self).matches@,
            ).accepted,
            final(self).matches@ == Seq::<Match>::empty(),
    {
        let ghost board = self.board();
        let ghost found = self.matches@;
        let ghost order = tiling_order(found);
        sort_longest_first(&mut self.matches);
        proof {
            let sorted = self.matches@;
            let top = longest_of(found);
            lemma_longest_of_bounds(found, 0);
            assert forall|n: int| 0 <= n < sorted.len() implies found.contains(
                #[trigger] sorted[n],
            ) by {
                let len = sorted[n].length as nat;
                lemma_of_length_members(sorted, len);
                lemma_of_length_members(found, len);
                assert(of_length(sorted, len) == of_length(found, len));
                let q = choose|q: int|
                    0 <= q < of_length(sorted, len).len() && of_length(sorted, len)[q] == sorted[n];
                assert(found.contains(of_length(found, len)[q]));
            }
            assert forall|n: int| 0 <= n < sorted.len() implies (#[trigger] sorted[n]).length
                <= top && board.fits(sorted[n]) by {
                let q = choose|q: int| 0 <= q < found.len() && found[q] == sorted[n];
                assert(board.fits(found[q]));
            }
            lemma_descending_is_ordered(sorted, top);
            lemma_longest_first_same(sorted, found, top);
            assert(sorted == order);
        }
        let mut n: usize = 0;
        while n < self.matches.len()
            invariant
                self.wf(),
                board.wf(),
                self.matches@ == order,
                n <= order.len(),
                forall|q: int| 0 <= q < order.len() ==> board.fits(#[trigger] order[q]),
                self.board() == tiled(board, order, n as nat).board,
                self.board().pattern == board.pattern,
                self.board().text == board.text,
                self.result@ == old(self).result@ + tiled(board, order, n as nat).accepted,
            decreases order.len() - n,
        {
            let m = self.matches[n];
            assert(board.fits(order[n as int]));
            if self.admits(&m) {
                self.result.push(m);
                self.place(&m);
                proof {
                    assert(self.result@ =~= old(self).result@ + tiled(
                        board,
                        order,
                        (n + 1) as nat,
                    ).accepted);
                }
            }
            n += 1;
        }
        self.matches.clear();
        proof {
            assert(self.matches@ =~= Seq::<Match>::empty());
        }
    }
}

} // verus!
