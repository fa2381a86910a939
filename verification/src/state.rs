//! The state of one run.

use crate::board::Board;
use crate::marks::Marks;
use crate::marks::marked;
use crate::record::Match;
use vstd::prelude::*;

verus! {

/// The state of one run: the two sequences, their marks, the candidates
/// of the pass at hand and the tiles laid so far.
pub(crate) struct RkrGst<'a> {
    pub(crate) pattern: &'a [u8],
    pub(crate) text: &'a [u8],
    pub(crate) pattern_mark: Marks,
    pub(crate) text_mark: Marks,
    pub(crate) matches: Vec<Match>,
    pub(crate) result: Vec<Match>,
}

impl<'a> RkrGst<'a> {
    /// The sequences and marks of the run, as a board.
    pub(crate) open spec fn board(&self) -> Board {
        Board {
            pattern: self.pattern@,
            text: self.text@,
            pattern_marks: marked(self.pattern_mark),
            text_marks: marked(self.text_mark),
        }
    }

    /// There is one mark for each position of each sequence.
    pub(crate) open spec fn wf(&self) -> bool {
        self.board().wf()
    }
}

} // verus!
