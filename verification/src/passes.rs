//! The passes of a run, as mathematics: scan, then grow the search length
//! or tile and shrink it, until the minimum match length has been tried.

use crate::board::lemma_open_count_less;
use crate::board::open_count;
use crate::board::Board;
use crate::candidates::lemma_longest_of_bounds;
use crate::candidates::longest_of;
use crate::order::lemma_longest_first_members;
use crate::record::Match;
use crate::tiling::all_laid_well;
use crate::tiling::laid;
use crate::tiling::lemma_tiled;
use crate::tiling::lemma_tiled_open;
use crate::tiling::sound;
use crate::tiling::tile;
use crate::tiling::tiled;
use crate::tiling::tiling_order;
use vstd::prelude::*;

verus! {

/// The search length of the pass after a pass that tiled: half the
/// length, but the minimum where the minimum is at least half; none once
/// the minimum itself has been tried.
pub open spec fn next_length(s: nat, min: nat) -> Option<nat> {
    if s > 2 * min {
        Some(s / 2)
    } else if s > min {
        Some(min)
    } else {
        None
    }
}

/// One where the pass at search length `s` stops early, zero where it
/// runs to its end.
pub open spec fn stop_rank(board: Board, s: nat) -> int {
    if board.scan(s).stopped is Some {
        1
    } else {
        0
    }
}

/// How far the search length can still move in its direction: up to the
/// pattern's length where the pass stops early, down to zero otherwise.
pub open spec fn length_rank(board: Board, s: nat) -> int {
    if board.scan(s).stopped is Some {
        board.pattern.len() - s
    } else {
        s as int
    }
}

/// The tiles that the passes from search length `s` on lay on the board,
/// in the order in which they are laid. A pass that meets a match of more
/// than twice its search length is run again at that match's length and
/// lays nothing; any other pass tiles its candidates and is followed by
/// one at the next shorter search length, down to the minimum.
pub open spec fn drive(board: Board, s: nat, min: nat) -> Seq<Match>
    decreases open_count(board.pattern_marks), stop_rank(board, s), length_rank(board, s),
    when board.wf() && s > 0 && min > 0
    via drive_decreases
{
    let scan = board.scan(s);
    match scan.stopped {
        Some(k) => drive(board, k, min),
        None => {
            let after = tile(board, scan.candidates);
            match next_length(s, min) {
                Some(n) => after.accepted + drive(after.board, n, min),
                None => after.accepted,
            }
        },
    }
}

/// The tiling of a pattern and a text: the tiles that the passes lay on a
/// board without marks, from the initial search length down to the
/// minimum match length.
pub open spec fn tiling(pattern: Seq<u8>, text: Seq<u8>, initial: nat, min: nat) -> Seq<Match> {
    drive(Board::fresh(pattern, text), initial, min)
}

/// Each candidate of a pass is sound, touches no mark of the board, and
/// has a length from the search length to twice the search length: the
/// extension from where it starts.
pub proof fn lemma_candidates_sound(board: Board, s: nat)
    requires
        board.wf(),
        s > 0,
    ensures
        forall|n: int|
            0 <= n < board.scan(s).candidates.len() ==> {
                let m = #[trigger] board.scan(s).candidates[n];
                &&& sound(board, m)
                &&& board.admits(m)
                &&& s <= m.length <= 2 * s
                &&& m.length == board.extension(m.pattern_index as int, m.text_index as int)
            },
{
    let found = board.scan(s).candidates;
    board.lemma_scanned(s, board.pattern.len() as int, 0);
    assert forall|n: int| 0 <= n < found.len() implies {
        let m = #[trigger] found[n];
        &&& sound(board, m)
        &&& board.admits(m)
        &&& s <= m.length <= 2 * s
        &&& m.length == board.extension(m.pattern_index as int, m.text_index as int)
    } by {
        let m = found[n];
        let i = m.pattern_index as int;
        let j = m.text_index as int;
        board.lemma_extension_fits(i, j);
        board.lemma_extension_windows(i, j, m.length as nat);
    }
}

/// What one pass does to the measure by which the passes come to an end.
/// A pass that stops early reports a length of more than twice its search
/// length that still lies within both sequences. A pass that tiles leaves
/// the board well formed, with every tile laid well; where it had
/// candidates, fewer positions of the pattern are open afterwards; where it
/// had none, the board is as before and no pass at half the search length
/// or more stops early.
pub proof fn lemma_pass(board: Board, s: nat, min: nat)
    requires
        board.wf(),
        s > 0,
    ensures
        board.scan(s).stopped matches Some(k) ==> 2 * s < k <= board.pattern.len() && k
            <= board.text.len(),
        board.scan(s).stopped is None ==> {
            let after = tile(board, board.scan(s).candidates);
            &&& after.board.wf()
            &&& board.within(after.board)
            &&& all_laid_well(board, after.accepted)
            &&& after.board == laid(board, after.accepted, after.accepted.len())
            &&& board.scan(s).candidates.len() > 0 ==> open_count(after.board.pattern_marks)
                < open_count(board.pattern_marks)
            &&& board.scan(s).candidates.len() == 0 ==> {
                &&& after.board == board
                &&& after.accepted == Seq::<Match>::empty()
                &&& forall|n: nat| n > 0 && 2 * n + 1 >= s ==> (#[trigger] board.scan(n)).stopped is None
            }
        },
{
    let scan = board.scan(s);
    let width = board.pattern.len() as int;
    board.lemma_scanned(s, width, 0);
    match scan.stopped {
        Some(k) => {
            let (a, c) = choose|a: int, c: int|
                crate::candidates::earlier(a, c, width, 0) && #[trigger] board.exceeds(s, a, c)
                    && board.extension(a, c) == k;
            board.lemma_extension_fits(a, c);
        },
        None => {
            let found = scan.candidates;
            let order = tiling_order(found);
            let after = tile(board, found);
            lemma_candidates_sound(board, s);
            lemma_longest_first_members(found, longest_of(found));
            lemma_longest_of_bounds(found, 0);
            assert forall|q: int| 0 <= q < order.len() implies sound(board, #[trigger] order[q])
                && board.admits(order[q]) by {
                let n = choose|n: int| 0 <= n < found.len() && found[n] == order[q];
                assert(sound(board, found[n]));
            }
            lemma_tiled(board, order, order.len());
            if found.len() > 0 {
                assert(order.contains(found[0]));
                let m = order[0];
                let first = tiled(board, order, 1);
                assert(tiled(board, order, 0).board == board);
                assert(first.board == board.place(m));
                let x = m.pattern_index as int;
                assert(!board.pattern_marks[x]);
                lemma_open_count_less(board.pattern_marks, first.board.pattern_marks, x);
                lemma_tiled_open(board, order, 1, order.len());
            } else {
                assert(order.len() == 0) by {
                    if order.len() > 0 {
                        let n = choose|n: int| 0 <= n < found.len() && found[n] == order[0];
                    }
                }
                assert(after.accepted =~= Seq::<Match>::empty());
                assert forall|n: nat| n > 0 && 2 * n + 1 >= s implies (#[trigger] board.scan(
                    n,
                )).stopped is None by {
                    board.lemma_scanned(n, width, 0);
                    if board.scan(n).stopped is Some {
                        let (a, c) = choose|a: int, c: int|
                            crate::candidates::earlier(a, c, width, 0) && #[trigger] board.exceeds(
                                n,
                                a,
                                c,
                            );
                        assert(board.extension(a, c) <= 2 * s);
                        assert(found.contains(board.found(a, c)));
                    }
                }
            }
        },
    }
}

#[via_fn]
proof fn drive_decreases(board: Board, s: nat, min: nat) {
    if board.wf() && s > 0 && min > 0 {
        lemma_pass(board, s, min);
        match board.scan(s).stopped {
            Some(k) => {
                lemma_pass(board, k, min);
            },
            None => {},
        }
    }
}

} // verus!
