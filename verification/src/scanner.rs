//! The scan of the pattern against the index of the text: the candidates
//! of one pass.

use crate::board::clear;
use crate::candidates::Scan;
use crate::candidates::lemma_longest_of_push;
use crate::candidates::longest_of;
use crate::checksum::adler_of;
use crate::checksum::held;
use crate::index::ascending;
use crate::index::bucket;
use crate::index::index_windows;
use crate::index::indexed;
use crate::index::lemma_unlisted_short;
use crate::marks::is_marked;
use crate::record::Match;
use crate::state::RkrGst;
use crate::window::exceeds_double;
use crate::window::skip_marked;
use crate::window::slide;
use crate::window::window;
use crate::window::window_checksum;
use vstd::prelude::*;

verus! {

/// The end of the part of a row that has been looked at, once the first
/// `n` listed starts have been tried: the next listed start, or the end
/// of the text.
spec fn row_end(starts: Seq<usize>, n: int, end: int) -> int {
    if n < starts.len() {
        starts[n] as int
    } else {
        end
    }
}

impl<'a> RkrGst<'a> {
    /// How far the pattern from `pattern_index` and the text from
    /// `text_index` go on with the same bytes and without a mark.
    fn extend(&self, pattern_index: usize, text_index: usize) -> (k: usize)
        requires
            self.wf(),
            pattern_index <= self.pattern@.len(),
            text_index <= self.text@.len(),
        ensures
            k == self.board().extension(pattern_index as int, text_index as int),
    {
        let pattern_left = self.pattern.len() - pattern_index;
        let text_left = self.text.len() - text_index;
        let mut k: usize = 0;
        while k < text_left && k < pattern_left && self.text[text_index + k]
            == self.pattern[pattern_index + k] && !is_marked(&self.text_mark, text_index + k)
            && !is_marked(&self.pattern_mark, pattern_index + k)
            invariant
                self.wf(),
                pattern_left == self.pattern@.len() - pattern_index,
                text_left == self.text@.len() - text_index,
                k <= pattern_left,
                k <= text_left,
                self.board().extension(pattern_index as int, text_index as int) == k
                    + self.board().extension(pattern_index + k, text_index + k),
            ensures
                self.board().extension(pattern_index + k, text_index + k) == 0,
            decreases pattern_left - k,
        {
            k += 1;
        }
        k
    }

    /// One pass at the given search length. The candidates of the pass
    /// replace those of the pass before; the length returned is that of
    /// the match that stopped the pass, or else the greatest among the
    /// candidates.
    pub(crate) fn scan_pattern(&mut self, search_length: usize) -> (longest: usize)
        requires
            old(self).wf(),
            search_length >= 1,
        ensures
            final(self).board() == old(self).board(),
            final(self).result == old(self).result,
            final(self).matches@ == old(self).board().scan(search_length as nat).candidates,
            longest == old(self).board().scan(search_length as nat).longest(),
    {
        let index = index_windows(self.text, &self.text_mark, search_length);
        self.matches.clear();
        let mut max_match: usize = 0;
        let ghost board = self.board();
        let ghost s = search_length as nat;
        let len = self.pattern.len();
        if search_length > len {
            proof {
                assert forall|a: int, c: int|
                    0 <= a < len && 0 <= c < board.text.len() implies #[trigger] board.extension(
                    a,
                    c,
                ) < s by {
                    board.lemma_extension_fits(a, c);
                }
                board.lemma_rows_idle(s, 0, len as int);
                assert(self.matches@ =~= board.scan(s).candidates);
            }
            return 0;
        }
        let last = len - search_length;
        let mut i: usize = 0;
        while i <= last
            invariant
                self.wf(),
                self.board() == board,
                board == old(self).board(),
                self.result == old(self).result,
                s == search_length,
                s >= 1,
                len == board.pattern.len(),
                last == len - search_length,
                i <= len,
                indexed(index@, board.text, board.text_marks, s, board.text.len() as int + 1),
                board.scanned(s, i as int, 0) == (Scan {
                    candidates: self.matches@,
                    stopped: None,
                }),
                max_match == longest_of(self.matches@),
            decreases len - i,
        {
            let next = skip_marked(&self.pattern_mark, i, search_length);
            if next > i {
                proof {
                    assert forall|a: int, c: int|
                        i <= a < next && 0 <= c < board.text.len() implies #[trigger] board.extension(
                        a,
                        c,
                    ) < s by {
                        assert(board.pattern_marks[next - 1]);
                        board.lemma_extension_blocked(a, c, s);
                    }
                    board.lemma_rows_idle(s, i as int, next as int);
                }
                i = next;
            } else {
                let from = i;
                let mut hasher = window_checksum(self.pattern, i, search_length);
                loop
                    invariant_except_break
                        i <= last,
                        held(hasher) == adler_of(window(board.pattern, i as int, s)),
                        i > from || clear(board.pattern_marks, from as int, s as int),
                    invariant
                        self.wf(),
                        self.board() == board,
                        board == old(self).board(),
                        self.result == old(self).result,
                        s == search_length,
                        s >= 1,
                        len == board.pattern.len(),
                        last == len - search_length,
                        from <= i <= len,
                        indexed(
                            index@,
                            board.text,
                            board.text_marks,
                            s,
                            board.text.len() as int + 1,
                        ),
                        board.scanned(s, i as int, 0) == (Scan {
                            candidates: self.matches@,
                            stopped: None,
                        }),
                        max_match == longest_of(self.matches@),
                    ensures
                        i > from,
                    decreases len - i,
                {
                    if is_marked(&self.pattern_mark, i + search_length - 1) {
                        break ;
                    }
                    let key = hasher.hash();
                    match index.get(&key) {
                        Some(starts) => {
                            let ghost listed = starts@;
                            let ghost end = board.text.len() as int;
                            proof {
                                assert(listed == bucket(index@, key));
                                assert(ascending(bucket(index@, key)));
                                assert forall|c: int|
                                    0 <= c < row_end(listed, 0, end) implies #[trigger] board.extension(
                                    i as int,
                                    c,
                                ) < s by {
                                    if listed.contains(c as usize) {
                                        let q = choose|q: int|
                                            0 <= q < listed.len() && listed[q] == c as usize;
                                        assert(listed[0] <= listed[q]);
                                    }
                                    lemma_unlisted_short(board, index@, s, i as int, c);
                                }
                                assert(row_end(listed, 0, end) >= 0);
                                board.lemma_row_idle(s, i as int, 0, row_end(listed, 0, end));
                            }
                            let mut n: usize = 0;
                            while n < starts.len()
                                invariant
                                    self.wf(),
                                    self.board() == board,
                                    board == old(self).board(),
                                    self.result == old(self).result,
                                    s == search_length,
                                    s >= 1,
                                    i <= last,
                                    len == board.pattern.len(),
                                    last == len - search_length,
                                    end == board.text.len(),
                                    listed == starts@,
                                    listed == bucket(index@, key),
                                    key == adler_of(window(board.pattern, i as int, s)),
                                    indexed(index@, board.text, board.text_marks, s, end + 1),
                                    n <= listed.len(),
                                    0 <= row_end(listed, n as int, end) <= end,
                                    board.scanned(s, i as int, row_end(listed, n as int, end))
                                        == (Scan { candidates: self.matches@, stopped: None }),
                                    max_match == longest_of(self.matches@),
                                decreases listed.len() - n,
                            {
                                let text_index = starts[n];
                                proof {
                                    assert(bucket(index@, key)[n as int] + s <= board.text.len());
                                }
                                let k = self.extend(i, text_index);
                                let ghost looked = board.scanned(s, i as int, text_index + 1);
                                proof {
                                    board.lemma_extension_fits(i as int, text_index as int);
                                    assert(looked == board.probe(
                                        board.scanned(s, i as int, text_index as int),
                                        s,
                                        i as int,
                                        text_index as int,
                                    ));
                                }
                                if exceeds_double(k, search_length) {
                                    proof {
                                        board.lemma_stopped_stays(s, i as int, text_index + 1);
                                    }
                                    return k;
                                }
                                if k >= search_length {
                                    proof {
                                        lemma_longest_of_push(
                                            self.matches@,
                                            board.found(i as int, text_index as int),
                                        );
                                    }
                                    self.matches.push(
                                        Match { pattern_index: i, text_index, length: k },
                                    );
                                    if k > max_match {
                                        max_match = k;
                                    }
                                }
                                n += 1;
                                proof {
                                    let next = row_end(listed, n as int, end);
                                    assert(ascending(bucket(index@, key)));
                                    assert forall|c: int|
                                        text_index + 1 <= c < next implies #[trigger] board.extension(
                                        i as int,
                                        c,
                                    ) < s by {
                                        if listed.contains(c as usize) {
                                            let q = choose|q: int|
                                                0 <= q < listed.len() && listed[q] == c as usize;
                                            if q < n {
                                                assert(q == n - 1 || listed[q] < listed[n - 1]);
                                            } else {
                                                assert(q == n || listed[n as int] < listed[q]);
                                            }
                                        }
                                        lemma_unlisted_short(board, index@, s, i as int, c);
                                    }
                                    if n < listed.len() {
                                        assert(listed[n - 1] < listed[n as int]);
                                        assert(bucket(index@, key)[n as int] + s
                                            <= board.text.len());
                                    }
                                    board.lemma_row_idle(s, i as int, text_index + 1, next);
                                }
                            }
                        },
                        None => {
                            proof {
                                assert(bucket(index@, key) =~= Seq::<usize>::empty());
                                assert forall|c: int|
                                    0 <= c < board.text.len() implies #[trigger] board.extension(
                                    i as int,
                                    c,
                                ) < s by {
                                    lemma_unlisted_short(board, index@, s, i as int, c);
                                }
                                board.lemma_row_idle(s, i as int, 0, board.text.len() as int);
                            }
                        },
                    }
                    i += 1;
                    if i > last {
                        break ;
                    }
                    slide(&mut hasher, self.pattern, i - 1, search_length);
                }
            }
        }
        proof {
            assert forall|a: int, c: int|
                i <= a < len && 0 <= c < board.text.len() implies #[trigger] board.extension(a, c)
                < s by {
                board.lemma_extension_fits(a, c);
            }
            board.lemma_rows_idle(s, i as int, len as int);
        }
        max_match
    }
}

} // verus!
