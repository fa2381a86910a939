//! Greedy tiling, as mathematics: which candidates of a pass become
//! tiles, and the passes that follow one another down to the minimum
//! match length.

use crate::board::lemma_open_count_grown;
use crate::board::open_count;
use crate::board::Board;
use crate::candidates::longest_of;
use crate::order::longest_first;
use crate::record::Match;
use vstd::prelude::*;

verus! {

/// A board and the tiles that were laid on it.
pub struct Tiled {
    pub board: Board,
    pub accepted: Seq<Match>,
}

/// The board and the tiles after the first `n` matches of `order` have
/// been tried in turn: a match becomes a tile where no position of it is
/// marked yet, and is passed over as a whole otherwise.
pub open spec fn tiled(board: Board, order: Seq<Match>, n: nat) -> Tiled
    decreases n,
{
    if n == 0 {
        Tiled { board, accepted: Seq::empty() }
    } else {
        let before = tiled(board, order, (n - 1) as nat);
        let m = order[n - 1];
        if before.board.admits(m) {
            Tiled { board: before.board.place(m), accepted: before.accepted.push(m) }
        } else {
            before
        }
    }
}

/// The order in which the candidates of a pass are tried.
pub open spec fn tiling_order(candidates: Seq<Match>) -> Seq<Match> {
    longest_first(candidates, longest_of(candidates))
}

/// The board and the tiles after all candidates of a pass have been tried,
/// the longest first.
pub open spec fn tile(board: Board, candidates: Seq<Match>) -> Tiled {
    tiled(board, tiling_order(candidates), tiling_order(candidates).len())
}

/// The board after the first `n` of `tiles` have been laid on it.
pub open spec fn laid(board: Board, tiles: Seq<Match>, n: nat) -> Board
    decreases n,
{
    if n == 0 {
        board
    } else {
        laid(board, tiles, (n - 1) as nat).place(tiles[n - 1])
    }
}

/// The match is a common substring of at least one position that lies
/// within both sequences.
pub open spec fn sound(board: Board, m: Match) -> bool {
    &&& m.length >= 1
    &&& board.fits(m)
    &&& board.common(m)
}

/// The tile `n` is sound and touched no mark when it was laid: neither a
/// mark of the board nor a tile before it.
pub open spec fn laid_well(board: Board, tiles: Seq<Match>, n: int) -> bool {
    &&& sound(board, tiles[n])
    &&& laid(board, tiles, n as nat).admits(tiles[n])
}

/// Every tile is sound and touched no mark when it was laid.
pub open spec fn all_laid_well(board: Board, tiles: Seq<Match>) -> bool {
    forall|n: int| 0 <= n < tiles.len() ==> #[trigger] laid_well(board, tiles, n)
}

/// Laying tiles keeps the board well formed and every mark in place.
pub proof fn lemma_laid_within(board: Board, tiles: Seq<Match>, n: nat)
    requires
        board.wf(),
    ensures
        laid(board, tiles, n).wf(),
        board.within(laid(board, tiles, n)),
    decreases n,
{
    if n > 0 {
        lemma_laid_within(board, tiles, (n - 1) as nat);
    }
}

/// The board after `n` tiles depends on the first `n` tiles only.
pub proof fn lemma_laid_same(board: Board, ours: Seq<Match>, theirs: Seq<Match>, n: nat)
    requires
        n <= ours.len(),
        n <= theirs.len(),
        forall|q: int| 0 <= q < n ==> ours[q] == theirs[q],
    ensures
        laid(board, ours, n) == laid(board, theirs, n),
    decreases n,
{
    if n > 0 {
        lemma_laid_same(board, ours, theirs, (n - 1) as nat);
    }
}

/// Laying one sequence of tiles and then another is laying the two in a
/// row.
pub proof fn lemma_laid_add(board: Board, first: Seq<Match>, second: Seq<Match>, n: nat)
    requires
        n <= second.len(),
    ensures
        laid(board, first + second, first.len() + n) == laid(
            laid(board, first, first.len()),
            second,
            n,
        ),
    decreases n,
{
    if n == 0 {
        lemma_laid_same(board, first + second, first, first.len());
    } else {
        lemma_laid_add(board, first, second, (n - 1) as nat);
        assert((first + second)[first.len() + n - 1] == second[n - 1]);
    }
}

/// Tiles that were laid well, followed by tiles that were laid well on the
/// board that the first left, were all laid well.
pub proof fn lemma_laid_well_add(board: Board, first: Seq<Match>, second: Seq<Match>)
    requires
        board.wf(),
        all_laid_well(board, first),
        all_laid_well(laid(board, first, first.len()), second),
    ensures
        all_laid_well(board, first + second),
{
    let all = first + second;
    let middle = laid(board, first, first.len());
    lemma_laid_within(board, first, first.len());
    assert forall|n: int| 0 <= n < all.len() implies #[trigger] laid_well(board, all, n) by {
        if n < first.len() {
            assert(laid_well(board, first, n));
            lemma_laid_same(board, all, first, n as nat);
            assert(all[n] == first[n]);
        } else {
            let q = n - first.len();
            assert(laid_well(middle, second, q));
            lemma_laid_add(board, first, second, q as nat);
            assert(all[n] == second[q]);
        }
    }
}

/// What holds after any number of candidates have been tried: the board
/// is the one on which the tiles so far were laid, every earlier mark is
/// still in place, each tile was laid well, and each is one of the
/// candidates tried.
pub proof fn lemma_tiled(board: Board, order: Seq<Match>, n: nat)
    requires
        board.wf(),
        n <= order.len(),
        forall|q: int| 0 <= q < order.len() ==> sound(board, #[trigger] order[q]),
    ensures
        tiled(board, order, n).board == laid(
            board,
            tiled(board, order, n).accepted,
            tiled(board, order, n).accepted.len(),
        ),
        tiled(board, order, n).board.wf(),
        board.within(tiled(board, order, n).board),
        all_laid_well(board, tiled(board, order, n).accepted),
        forall|x: int|
            0 <= x < tiled(board, order, n).accepted.len() ==> exists|q: int|
                0 <= q < n && order[q] == #[trigger] tiled(board, order, n).accepted[x],
    decreases n,
{
    if n > 0 {
        let before = tiled(board, order, (n - 1) as nat);
        let now = tiled(board, order, n);
        let m = order[n - 1];
        lemma_tiled(board, order, (n - 1) as nat);
        if before.board.admits(m) {
            let tiles = before.accepted.push(m);
            assert(now.accepted == tiles);
            lemma_laid_same(board, tiles, before.accepted, before.accepted.len());
            assert(tiles[tiles.len() - 1] == m);
            assert(sound(board, order[n - 1]));
            assert forall|x: int| 0 <= x < tiles.len() implies #[trigger] laid_well(
                board,
                tiles,
                x,
            ) by {
                if x < before.accepted.len() {
                    assert(laid_well(board, before.accepted, x));
                    lemma_laid_same(board, tiles, before.accepted, x as nat);
                    assert(tiles[x] == before.accepted[x]);
                }
            }
            assert forall|x: int| 0 <= x < tiles.len() implies exists|q: int|
                0 <= q < n && order[q] == #[trigger] tiles[x] by {
                if x < before.accepted.len() {
                    assert(tiles[x] == before.accepted[x]);
                    let q = choose|q: int| 0 <= q < n - 1 && order[q] == before.accepted[x];
                    assert(order[q] == tiles[x]);
                } else {
                    assert(order[n - 1] == tiles[x]);
                }
            }
        }
    }
}

/// Trying more candidates leaves no more positions of the pattern open.
pub proof fn lemma_tiled_open(board: Board, order: Seq<Match>, n0: nat, n: nat)
    requires
        board.wf(),
        n0 <= n,
    ensures
        open_count(tiled(board, order, n).board.pattern_marks) <= open_count(
            tiled(board, order, n0).board.pattern_marks,
        ),
    decreases n - n0,
{
    if n > n0 {
        lemma_tiled_open(board, order, n0, (n - 1) as nat);
        let before = tiled(board, order, (n - 1) as nat);
        let m = order[n - 1];
        if before.board.admits(m) {
            lemma_open_count_grown(
                before.board.pattern_marks,
                before.board.place(m).pattern_marks,
            );
        }
    }
}

} // verus!
