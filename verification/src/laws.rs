//! What holds of every tiling: the tiles lie within both sequences, cover
//! equal bytes, keep apart from one another, and cannot be made longer.

use crate::board::Board;
use crate::candidates::lemma_longest_of_bounds;
use crate::candidates::longest_of;
use crate::order::descending;
use crate::order::lemma_longest_first_members;
use crate::passes::drive;
use crate::passes::lemma_candidates_sound;
use crate::passes::lemma_pass;
use crate::passes::length_rank;
use crate::passes::next_length;
use crate::passes::stop_rank;
use crate::passes::tiling;
use crate::board::open_count;
use crate::record::Match;
use crate::tiling::all_laid_well;
use crate::tiling::laid;
use crate::tiling::laid_well;
use crate::tiling::lemma_laid_add;
use crate::tiling::lemma_laid_same;
use crate::tiling::lemma_laid_well_add;
use crate::tiling::lemma_laid_within;
use crate::tiling::lemma_tiled;
use crate::tiling::sound;
use crate::tiling::tile;
use crate::tiling::tiled;
use crate::tiling::tiling_order;
use vstd::prelude::*;

verus! {

/// The two matches share no position of the pattern and none of the text.
pub open spec fn apart(a: Match, b: Match) -> bool {
    &&& a.pattern_index + a.length <= b.pattern_index || b.pattern_index + b.length
        <= a.pattern_index
    &&& a.text_index + a.length <= b.text_index || b.text_index + b.length <= a.text_index
}

/// The match cannot be made longer by a position at either end: just
/// behind it, and just before it, a sequence ends, the bytes differ, or a
/// position is marked.
pub open spec fn ended(board: Board, m: Match) -> bool {
    &&& !board.agree(m.pattern_index + m.length, m.text_index + m.length, 0)
    &&& !board.agree(m.pattern_index - 1, m.text_index - 1, 0)
}

/// When it was laid, on the board with the tiles before it, the tile `n`
/// could not be made longer at either end.
pub open spec fn laid_maximal(board: Board, tiles: Seq<Match>, n: int) -> bool {
    ended(laid(board, tiles, n as nat), tiles[n])
}

/// No tile could be made longer when it was laid.
pub open spec fn all_maximal(board: Board, tiles: Seq<Match>) -> bool {
    forall|n: int| 0 <= n < tiles.len() ==> #[trigger] laid_maximal(board, tiles, n)
}

/// No tile is shorter than `min`.
pub open spec fn at_least(tiles: Seq<Match>, min: nat) -> bool {
    forall|n: int| 0 <= n < tiles.len() ==> (#[trigger] tiles[n]).length >= min
}

/// Every position of a tile is marked on the board once the tile and any
/// number of later ones have been laid.
pub proof fn lemma_laid_marks(board: Board, tiles: Seq<Match>, n: nat, q: int)
    requires
        board.wf(),
        0 <= q < n <= tiles.len(),
        board.fits(tiles[q]),
    ensures
        forall|x: int|
            tiles[q].pattern_index <= x < tiles[q].pattern_index + tiles[q].length ==> #[trigger] laid(
                board,
                tiles,
                n,
            ).pattern_marks[x],
        forall|x: int|
            tiles[q].text_index <= x < tiles[q].text_index + tiles[q].length ==> #[trigger] laid(
                board,
                tiles,
                n,
            ).text_marks[x],
    decreases n,
{
    let before = laid(board, tiles, (n - 1) as nat);
    lemma_laid_within(board, tiles, (n - 1) as nat);
    if q < n - 1 {
        lemma_laid_marks(board, tiles, (n - 1) as nat, q);
    }
}

/// Tiles that were laid well share no position with one another.
pub proof fn lemma_laid_well_apart(board: Board, tiles: Seq<Match>, a: int, b: int)
    requires
        board.wf(),
        all_laid_well(board, tiles),
        0 <= a < b < tiles.len(),
    ensures
        apart(tiles[a], tiles[b]),
{
    assert(laid_well(board, tiles, a));
    assert(laid_well(board, tiles, b));
    lemma_laid_marks(board, tiles, b as nat, a);
    let on = laid(board, tiles, b as nat);
    let first = tiles[a];
    let second = tiles[b];
    if !(first.pattern_index + first.length <= second.pattern_index || second.pattern_index
        + second.length <= first.pattern_index) {
        let x = if first.pattern_index >= second.pattern_index {
            first.pattern_index as int
        } else {
            second.pattern_index as int
        };
        assert(on.pattern_marks[x]);
    }
    if !(first.text_index + first.length <= second.text_index || second.text_index
        + second.length <= first.text_index) {
        let x = if first.text_index >= second.text_index {
            first.text_index as int
        } else {
            second.text_index as int
        };
        assert(on.text_marks[x]);
    }
}

/// Tiles that could not be made longer, followed by tiles that could not
/// be made longer on the board that the first left, could none of them be
/// made longer.
pub proof fn lemma_maximal_add(board: Board, first: Seq<Match>, second: Seq<Match>)
    requires
        all_maximal(board, first),
        all_maximal(laid(board, first, first.len()), second),
    ensures
        all_maximal(board, first + second),
{
    let all = first + second;
    let middle = laid(board, first, first.len());
    assert forall|n: int| 0 <= n < all.len() implies #[trigger] laid_maximal(board, all, n) by {
        if n < first.len() {
            assert(laid_maximal(board, first, n));
            lemma_laid_same(board, all, first, n as nat);
            assert(all[n] == first[n]);
        } else {
            let q = n - first.len();
            assert(laid_maximal(middle, second, q));
            lemma_laid_add(board, first, second, q as nat);
            assert(all[n] == second[q]);
        }
    }
}

/// In a pass that ran to its end, a candidate that has been tried holds a
/// marked position afterwards, and no tile could be made longer when it
/// was laid: a longer candidate around it was tried before it.
pub proof fn lemma_tiled_maximal(board: Board, s: nat, n: nat)
    requires
        board.wf(),
        s > 0,
        board.scan(s).stopped is None,
        n <= tiling_order(board.scan(s).candidates).len(),
    ensures
        all_maximal(board, tiled(board, tiling_order(board.scan(s).candidates), n).accepted),
        forall|q: int|
            0 <= q < n ==> !tiled(
                board,
                tiling_order(board.scan(s).candidates),
                n,
            ).board.admits(#[trigger] tiling_order(board.scan(s).candidates)[q]),
    decreases n,
{
    let found = board.scan(s).candidates;
    let order = tiling_order(found);
    let now = tiled(board, order, n);
    lemma_candidates_sound(board, s);
    lemma_longest_first_members(found, longest_of(found));
    lemma_longest_of_bounds(found, 0);
    assert forall|q: int| 0 <= q < order.len() implies sound(board, #[trigger] order[q])
        && order[q].length == board.extension(
        order[q].pattern_index as int,
        order[q].text_index as int,
    ) by {
        let x = choose|x: int| 0 <= x < found.len() && found[x] == order[q];
        assert(sound(board, found[x]));
    }
    lemma_tiled(board, order, n);
    if n > 0 {
        let before = tiled(board, order, (n - 1) as nat);
        let m = order[n - 1];
        lemma_tiled_maximal(board, s, (n - 1) as nat);
        lemma_tiled(board, order, (n - 1) as nat);
        assert(sound(board, order[n - 1]));
        let i = m.pattern_index as int;
        let j = m.text_index as int;
        let len = m.length as int;
        if before.board.admits(m) {
            let tiles = before.accepted.push(m);
            let last = before.accepted.len() as int;
            assert(now.accepted == tiles);
            assert(now.board == before.board.place(m));
            assert forall|q: int| 0 <= q < n implies !now.board.admits(#[trigger] order[q]) by {
                if q < n - 1 {
                    assert(!before.board.admits(order[q]));
                    let c = order[q];
                    if !crate::board::clear(
                        before.board.pattern_marks,
                        c.pattern_index as int,
                        c.length as int,
                    ) {
                        let x = choose|x: int|
                            c.pattern_index <= x < c.pattern_index + c.length
                                && before.board.pattern_marks[x];
                        assert(sound(board, order[q]));
                        assert(now.board.pattern_marks[x]);
                    } else {
                        let x = choose|x: int|
                            c.text_index <= x < c.text_index + c.length
                                && before.board.text_marks[x];
                        assert(sound(board, order[q]));
                        assert(now.board.text_marks[x]);
                    }
                } else {
                    assert(now.board.pattern_marks[i]);
                }
            }
            lemma_laid_same(board, tiles, before.accepted, before.accepted.len());
            assert(laid(board, tiles, last as nat) == before.board);
            assert(tiles[last] == m);
            // Behind the tile the board itself gave no further agreement.
            board.lemma_extension_end(i, j);
            assert(!before.board.agree(i + len, j + len, 0));
            // Before the tile, agreement would have made a longer candidate.
            if before.board.agree(i - 1, j - 1, 0) {
                assert(board.agree(i - 1, j - 1, 0));
                assert(board.extension(i - 1, j - 1) == 1 + board.extension(i, j));
                board.lemma_scanned(s, board.pattern.len() as int, 0);
                assert(board.extension(i - 1, j - 1) <= 2 * s);
                let longer = board.found(i - 1, j - 1);
                assert(found.contains(longer));
                let x = choose|x: int| 0 <= x < found.len() && found[x] == longer;
                assert(found[x].length <= longest_of(found));
                assert(order.contains(found[x]));
                let q = choose|q: int| 0 <= q < order.len() && order[q] == longer;
                assert(descending(order));
                if q >= n - 1 {
                    assert(order[n - 1].length >= order[q].length);
                }
                assert(!before.board.admits(order[q]));
                assert(before.board.pattern_marks[i - 1] == false);
                assert(before.board.text_marks[j - 1] == false);
                assert(crate::board::clear(before.board.pattern_marks, i - 1, len + 1));
                assert(crate::board::clear(before.board.text_marks, j - 1, len + 1));
                assert(false);
            }
            assert(laid_maximal(board, tiles, last));
            assert forall|x: int| 0 <= x < tiles.len() implies #[trigger] laid_maximal(
                board,
                tiles,
                x,
            ) by {
                if x < last {
                    assert(laid_maximal(board, before.accepted, x));
                    lemma_laid_same(board, tiles, before.accepted, x as nat);
                    assert(tiles[x] == before.accepted[x]);
                }
            }
        } else {
            assert forall|q: int| 0 <= q < n implies !now.board.admits(#[trigger] order[q]) by {
                if q < n - 1 {
                    assert(!before.board.admits(order[q]));
                }
            }
        }
    }
}

/// What holds of the tiles that the passes from search length `s` on lay
/// on a board: each was laid well and could not be made longer when it was
/// laid; and where `s` is at least the minimum match length, so is every
/// tile.
pub proof fn lemma_drive(board: Board, s: nat, min: nat)
    requires
        board.wf(),
        s > 0,
        min > 0,
    ensures
        all_laid_well(board, drive(board, s, min)),
        all_maximal(board, drive(board, s, min)),
        s >= min ==> at_least(drive(board, s, min), min),
    decreases open_count(board.pattern_marks), stop_rank(board, s), length_rank(board, s),
{
    let scan = board.scan(s);
    lemma_pass(board, s, min);
    match scan.stopped {
        Some(k) => {
            lemma_pass(board, k, min);
            lemma_drive(board, k, min);
        },
        None => {
            let found = scan.candidates;
            let order = tiling_order(found);
            let after = tile(board, found);
            let first = after.accepted;
            lemma_tiled_maximal(board, s, order.len());
            lemma_candidates_sound(board, s);
            lemma_longest_first_members(found, longest_of(found));
            assert forall|q: int| 0 <= q < order.len() implies sound(board, #[trigger] order[q])
                && order[q].length >= s by {
                let x = choose|x: int| 0 <= x < found.len() && found[x] == order[q];
                assert(sound(board, found[x]));
            }
            lemma_tiled(board, order, order.len());
            assert forall|x: int| 0 <= x < first.len() implies (#[trigger] first[x]).length
                >= s by {
                let q = choose|q: int| 0 <= q < order.len() && order[q] == first[x];
                assert(order[q].length >= s);
            }
            match next_length(s, min) {
                Some(n) => {
                    let rest = drive(after.board, n, min);
                    lemma_drive(after.board, n, min);
                    lemma_laid_well_add(board, first, rest);
                    lemma_maximal_add(board, first, rest);
                    if s >= min {
                        assert forall|x: int| 0 <= x < (first + rest).len() implies (#[trigger] (
                        first + rest)[x]).length >= min by {
                            if x < first.len() {
                                assert((first + rest)[x] == first[x]);
                            } else {
                                assert((first + rest)[x] == rest[x - first.len()]);
                            }
                        }
                    }
                },
                None => {},
            }
        },
    }
}

/// Every tile of a tiling lies within the pattern and within the text,
/// and holds at least one position; and where the minimum match length is
/// no more than the initial search length, no tile is shorter than the
/// minimum match length.
pub proof fn lemma_tiles_fit(pattern: Seq<u8>, text: Seq<u8>, initial: nat, min: nat)
    requires
        pattern.len() <= usize::MAX,
        text.len() <= usize::MAX,
        initial > 0,
        min > 0,
    ensures
        forall|n: int|
            0 <= n < tiling(pattern, text, initial, min).len() ==> {
                let m = #[trigger] tiling(pattern, text, initial, min)[n];
                &&& m.pattern_index + m.length <= pattern.len()
                &&& m.text_index + m.length <= text.len()
                &&& m.length >= 1
            },
        min <= initial ==> at_least(tiling(pattern, text, initial, min), min),
{
    let board = Board::fresh(pattern, text);
    let tiles = tiling(pattern, text, initial, min);
    lemma_drive(board, initial, min);
    assert forall|n: int| 0 <= n < tiles.len() implies {
        let m = #[trigger] tiles[n];
        &&& m.pattern_index + m.length <= pattern.len()
        &&& m.text_index + m.length <= text.len()
        &&& m.length >= 1
    } by {
        assert(laid_well(board, tiles, n));
    }
}

/// No two tiles of a tiling share a position of the pattern or a
/// position of the text.
pub proof fn lemma_tiles_apart(pattern: Seq<u8>, text: Seq<u8>, initial: nat, min: nat)
    requires
        pattern.len() <= usize::MAX,
        text.len() <= usize::MAX,
        initial > 0,
        min > 0,
    ensures
        forall|a: int, b: int|
            0 <= a < tiling(pattern, text, initial, min).len() && 0 <= b < tiling(
                pattern,
                text,
                initial,
                min,
            ).len() && a != b ==> apart(
                #[trigger] tiling(pattern, text, initial, min)[a],
                #[trigger] tiling(pattern, text, initial, min)[b],
            ),
{
    let board = Board::fresh(pattern, text);
    let tiles = tiling(pattern, text, initial, min);
    lemma_drive(board, initial, min);
    assert forall|a: int, b: int|
        0 <= a < tiles.len() && 0 <= b < tiles.len() && a != b implies apart(
        #[trigger] tiles[a],
        #[trigger] tiles[b],
    ) by {
        if a < b {
            lemma_laid_well_apart(board, tiles, a, b);
        } else {
            lemma_laid_well_apart(board, tiles, b, a);
        }
    }
}

/// Under every tile of a tiling the pattern and the text hold the same
/// bytes.
pub proof fn lemma_tiles_common(pattern: Seq<u8>, text: Seq<u8>, initial: nat, min: nat)
    requires
        pattern.len() <= usize::MAX,
        text.len() <= usize::MAX,
        initial > 0,
        min > 0,
    ensures
        forall|n: int|
            0 <= n < tiling(pattern, text, initial, min).len() ==> {
                let m = #[trigger] tiling(pattern, text, initial, min)[n];
                pattern.subrange(m.pattern_index as int, m.pattern_index + m.length)
                    == text.subrange(m.text_index as int, m.text_index + m.length)
            },
{
    let board = Board::fresh(pattern, text);
    let tiles = tiling(pattern, text, initial, min);
    lemma_drive(board, initial, min);
    assert forall|n: int| 0 <= n < tiles.len() implies {
        let m = #[trigger] tiles[n];
        pattern.subrange(m.pattern_index as int, m.pattern_index + m.length) == text.subrange(
            m.text_index as int,
            m.text_index + m.length,
        )
    } by {
        assert(laid_well(board, tiles, n));
    }
}

/// No tile of a tiling could be made longer when it was laid: on the
/// board with the tiles before it, the positions just behind it, and
/// those just before it, lie outside a sequence, hold different bytes, or
/// are marked.
pub proof fn lemma_tiles_maximal(pattern: Seq<u8>, text: Seq<u8>, initial: nat, min: nat)
    requires
        pattern.len() <= usize::MAX,
        text.len() <= usize::MAX,
        initial > 0,
        min > 0,
    ensures
        all_maximal(Board::fresh(pattern, text), tiling(pattern, text, initial, min)),
{
    lemma_drive(Board::fresh(pattern, text), initial, min);
}

/// Two runs on the same sequences with the same lengths lay the same
/// tiles in the same order.
pub proof fn lemma_rerun_same(
    pattern: Seq<u8>,
    text: Seq<u8>,
    initial: nat,
    min: nat,
    first: Seq<Match>,
    second: Seq<Match>,
)
    requires
        first == tiling(pattern, text, initial, min),
        second == tiling(pattern, text, initial, min),
    ensures
        first == second,
{
}

/// An empty pattern or an empty text has no tiles.
pub proof fn lemma_empty_input(pattern: Seq<u8>, text: Seq<u8>, initial: nat, min: nat)
    requires
        pattern.len() <= usize::MAX,
        text.len() <= usize::MAX,
        initial > 0,
        min > 0,
        pattern.len() == 0 || text.len() == 0,
    ensures
        tiling(pattern, text, initial, min) == Seq::<Match>::empty(),
{
    lemma_tiles_fit(pattern, text, initial, min);
    let tiles = tiling(pattern, text, initial, min);
    if tiles.len() > 0 {
        let m = tiles[0];
        assert(m.length >= 1);
    }
    assert(tiles =~= Seq::<Match>::empty());
}

/// Where the minimum match length is more than the length of the pattern
/// or of the text, and no more than the initial search length, there are
/// no tiles.
pub proof fn lemma_minimum_out_of_reach(pattern: Seq<u8>, text: Seq<u8>, initial: nat, min: nat)
    requires
        pattern.len() <= usize::MAX,
        text.len() <= usize::MAX,
        0 < min <= initial,
        min > pattern.len() || min > text.len(),
    ensures
        tiling(pattern, text, initial, min) == Seq::<Match>::empty(),
{
    lemma_tiles_fit(pattern, text, initial, min);
    let tiles = tiling(pattern, text, initial, min);
    if tiles.len() > 0 {
        let m = tiles[0];
        assert(m.length >= min);
    }
    assert(tiles =~= Seq::<Match>::empty());
}

} // verus!
