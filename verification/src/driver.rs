//! The run: pass after pass, from the initial search length down to the
//! minimum match length.

use crate::board::Board;
use crate::board::open_count;
use crate::candidates::lemma_longest_of_bounds;
use crate::laws::all_maximal;
use crate::laws::apart;
use crate::laws::at_least;
use crate::laws::lemma_empty_input;
use crate::laws::lemma_minimum_out_of_reach;
use crate::laws::lemma_tiles_apart;
use crate::laws::lemma_tiles_common;
use crate::laws::lemma_tiles_fit;
use crate::laws::lemma_tiles_maximal;
use crate::marks::mark_capacity;
use crate::marks::unmarked;
use crate::passes::drive;
use crate::passes::lemma_candidates_sound;
use crate::passes::lemma_pass;
use crate::passes::length_rank;
use crate::passes::stop_rank;
use crate::passes::tiling;
use crate::record::Match;
use crate::state::RkrGst;
use crate::tiling::tile;
use crate::window::exceeds_double;
use vstd::prelude::*;

verus! {

/// Why a run was refused before any work began.
#[derive(Copy, Clone, Debug, PartialEq, Eq, Structural)]
pub enum InvalidArgument {
    /// The initial search length is zero.
    ZeroSearchLength,
    /// The minimum match length is zero.
    ZeroMatchLength,
    /// The pattern has more positions than can be marked.
    PatternTooLong,
    /// The text has more positions than can be marked.
    TextTooLong,
}

/// The first thing wrong with the arguments of a run, if anything is.
pub open spec fn refused(
    pattern_len: nat,
    text_len: nat,
    initial: nat,
    min: nat,
) -> Option<InvalidArgument> {
    if initial == 0 {
        Some(InvalidArgument::ZeroSearchLength)
    } else if min == 0 {
        Some(InvalidArgument::ZeroMatchLength)
    } else if pattern_len > mark_capacity() {
        Some(InvalidArgument::PatternTooLong)
    } else if text_len > mark_capacity() {
        Some(InvalidArgument::TextTooLong)
    } else {
        None
    }
}

/// The tiling of a pattern and a text, or the reason why the arguments
/// admit none: a length of zero, or a sequence too long to be marked.
pub fn try_run(
    pattern: &[u8],
    text: &[u8],
    initial_search_length: usize,
    minimum_match_length: usize,
) -> (outcome: Result<Vec<Match>, InvalidArgument>)
    ensures
        match outcome {
            Ok(tiles) => {
                &&& refused(
                    pattern@.len(),
                    text@.len(),
                    initial_search_length as nat,
                    minimum_match_length as nat,
                ) is None
                &&& tiles@ == tiling(
                    pattern@,
                    text@,
                    initial_search_length as nat,
                    minimum_match_length as nat,
                )
            },
            Err(reason) => refused(
                pattern@.len(),
                text@.len(),
                initial_search_length as nat,
                minimum_match_length as nat,
            ) == Some(reason),
        },
{
    if initial_search_length == 0 {
        Err(InvalidArgument::ZeroSearchLength)
    } else if minimum_match_length == 0 {
        Err(InvalidArgument::ZeroMatchLength)
    } else if pattern.len() > usize::MAX / 8 {
        Err(InvalidArgument::PatternTooLong)
    } else if text.len() > usize::MAX / 8 {
        Err(InvalidArgument::TextTooLong)
    } else {
        Ok(run(pattern, text, initial_search_length, minimum_match_length))
    }
}

/// The tiling of a pattern and a text: the common substrings, none
/// overlapping another, that the passes find, in the order in which they
/// became tiles. The first pass looks for matches of at least
/// `initial_search_length` positions; the last one for matches of at least
/// `minimum_match_length`.
///
/// Every tile lies within both sequences and covers the same bytes in
/// each; no two tiles share a position; no tile could be made longer when
/// it was laid; and none is shorter than the minimum match length, where
/// that is no more than the initial search length.
///
/// Both lengths must be positive, and each sequence short enough for its
/// marks to be held; `try_run` tests this and refuses what `run` does not
/// take.
pub fn run(
    pattern: &[u8],
    text: &[u8],
    initial_search_length: usize,
    minimum_match_length: usize,
) -> (tiles: Vec<Match>)
    requires
        initial_search_length > 0,
        minimum_match_length > 0,
        pattern@.len() <= mark_capacity(),
        text@.len() <= mark_capacity(),
    ensures
        tiles@ == tiling(
            pattern@,
            text@,
            initial_search_length as nat,
            minimum_match_length as nat,
        ),
        forall|n: int|
            0 <= n < tiles@.len() ==> {
                let m = #[trigger] tiles@[n];
                &&& m.length >= 1
                &&& m.pattern_index + m.length <= pattern@.len()
                &&& m.text_index + m.length <= text@.len()
                &&& pattern@.subrange(m.pattern_index as int, m.pattern_index + m.length)
                    == text@.subrange(m.text_index as int, m.text_index + m.length)
            },
        minimum_match_length <= initial_search_length ==> at_least(
            tiles@,
            minimum_match_length as nat,
        ),
        forall|a: int, b: int|
            0 <= a < tiles@.len() && 0 <= b < tiles@.len() && a != b ==> apart(
                #[trigger] tiles@[a],
                #[trigger] tiles@[b],
            ),
        all_maximal(Board::fresh(pattern@, text@), tiles@),
        pattern@.len() == 0 || text@.len() == 0 ==> tiles@.len() == 0,
        minimum_match_length <= initial_search_length && (minimum_match_length > pattern@.len()
            || minimum_match_length > text@.len()) ==> tiles@.len() == 0,
{
    let mut s = initial_search_length;
    let mut params = RkrGst {
        pattern,
        text,
        pattern_mark: unmarked(pattern.len()),
        text_mark: unmarked(text.len()),
        matches: Vec::new(),
        result: Vec::new(),
    };
    let ghost whole = tiling(
        pattern@,
        text@,
        initial_search_length as nat,
        minimum_match_length as nat,
    );
    let ghost min = minimum_match_length as nat;
    proof {
        let initial = initial_search_length as nat;
        lemma_tiles_fit(pattern@, text@, initial, min);
        lemma_tiles_common(pattern@, text@, initial, min);
        lemma_tiles_apart(pattern@, text@, initial, min);
        lemma_tiles_maximal(pattern@, text@, initial, min);
        if pattern@.len() == 0 || text@.len() == 0 {
            lemma_empty_input(pattern@, text@, initial, min);
        }
        if min <= initial && (min > pattern@.len() || min > text@.len()) {
            lemma_minimum_out_of_reach(pattern@, text@, initial, min);
        }
        assert(params.board() == Board::fresh(pattern@, text@));
        assert(params.result@ + drive(params.board(), s as nat, min) =~= whole);
    }
    loop
        invariant_except_break
            whole == params.result@ + drive(params.board(), s as nat, min),
        invariant
            params.wf(),
            s >= 1,
            min >= 1,
            min == minimum_match_length,
        ensures
            params.result@ == whole,
        decreases
            open_count(params.board().pattern_marks),
            stop_rank(params.board(), s as nat),
            length_rank(params.board(), s as nat),
    {
        let ghost board = params.board();
        proof {
            lemma_pass(board, s as nat, min);
            lemma_candidates_sound(board, s as nat);
            lemma_longest_of_bounds(board.scan(s as nat).candidates, 2 * (s as nat));
        }
        let lmax = params.scan_pattern(s);
        if exceeds_double(lmax, s) {
            proof {
                lemma_pass(board, lmax as nat, min);
            }
            s = lmax;
        } else {
            params.mark_strings();
            let ghost laid = tile(board, board.scan(s as nat).candidates);
            if exceeds_double(s, minimum_match_length) {
                s /= 2;
                proof {
                    assert(whole =~= params.result@ + drive(laid.board, s as nat, min));
                }
            } else if s > minimum_match_length {
                s = minimum_match_length;
                proof {
                    assert(whole =~= params.result@ + drive(laid.board, s as nat, min));
                }
            } else {
                proof {
                    assert(whole =~= params.result@);
                }
                break ;
            }
        }
    }
    params.result
}

} // verus!
