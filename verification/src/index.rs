//! The index of a pass: under the checksum of each window of the text,
//! the positions at which such a window starts.

use crate::board::clear;
use crate::board::Board;
use crate::checksum::adler_of;
use crate::checksum::held;
use crate::marks::is_marked;
use crate::marks::marked;
use crate::marks::Marks;
use crate::window::skip_marked;
use crate::window::slide;
use crate::window::window;
use crate::window::window_checksum;
use std::collections::HashMap;
use vstd::prelude::*;

verus! {

/// The starts that the index lists under a checksum.
pub open spec fn bucket(index: Map<u32, Vec<usize>>, key: u32) -> Seq<usize> {
    if index.contains_key(key) {
        index[key]@
    } else {
        Seq::empty()
    }
}

/// Each start is below the next.
pub open spec fn ascending(starts: Seq<usize>) -> bool {
    forall|a: int, b: int| 0 <= a < b < starts.len() ==> starts[a] < starts[b]
}

/// The index holds the windows that start below `upto`: each window of
/// width `s` without a mark is listed under its checksum; what is listed
/// under a checksum is the start, below `upto`, of a window without a mark
/// that has this checksum; and the starts under one checksum ascend.
pub open spec fn indexed(
    index: Map<u32, Vec<usize>>,
    text: Seq<u8>,
    marks: Seq<bool>,
    s: nat,
    upto: int,
) -> bool {
    &&& forall|j: int|
        0 <= j < upto && j + s <= text.len() && clear(marks, j, s as int) ==> bucket(
            index,
            adler_of(#[trigger] window(text, j, s)),
        ).contains(j as usize)
    &&& forall|key: u32, n: int|
        0 <= n < bucket(index, key).len() ==> listable(
            text,
            marks,
            s,
            upto,
            key,
            #[trigger] bucket(index, key)[n],
        )
    &&& forall|key: u32| ascending(#[trigger] bucket(index, key))
}

/// At `start`, below `upto`, a window of width `s` lies within the text,
/// holds no mark and has the checksum `key`.
pub open spec fn listable(
    text: Seq<u8>,
    marks: Seq<bool>,
    s: nat,
    upto: int,
    key: u32,
    start: usize,
) -> bool {
    &&& start < upto
    &&& start + s <= text.len()
    &&& clear(marks, start as int, s as int)
    &&& key == adler_of(window(text, start as int, s))
}

/// A start that the index does not list under the checksum of the
/// pattern's window at `i` begins no common substring of length `s` with
/// it.
pub proof fn lemma_unlisted_short(
    board: Board,
    index: Map<u32, Vec<usize>>,
    s: nat,
    i: int,
    c: int,
)
    requires
        board.wf(),
        s > 0,
        indexed(index, board.text, board.text_marks, s, board.text.len() as int + 1),
        0 <= c < board.text.len(),
        !bucket(index, adler_of(window(board.pattern, i, s))).contains(c as usize),
    ensures
        board.extension(i, c) < s,
{
    if board.extension(i, c) >= s {
        board.lemma_extension_windows(i, c, s);
        assert(window(board.pattern, i, s) == window(board.text, c, s));
    }
}

/// Lists `start` behind the starts that the index holds under `key`.
fn record(index: &mut HashMap<u32, Vec<usize>>, key: u32, start: usize)
    ensures
        bucket(final(index)@, key) == bucket(old(index)@, key).push(start),
        forall|other: u32|
            other != key ==> #[trigger] bucket(final(index)@, other) == bucket(old(index)@, other),
{
    index.entry(key).or_insert(Vec::new()).push(start);
}

/// The index of the text for a pass at search length `width`. The walk
/// jumps behind the first mark of a window that holds one, and slides a
/// window without a mark on until its last position is marked; so the
/// windows without a mark are listed, and no others.
pub(crate) fn index_windows(text: &[u8], marks: &Marks, width: usize) -> (index: HashMap<
    u32,
    Vec<usize>,
>)
    requires
        width >= 1,
        marked(*marks).len() == text@.len(),
    ensures
        indexed(index@, text@, marked(*marks), width as nat, text@.len() as int + 1),
{
    let mut index: HashMap<u32, Vec<usize>> = HashMap::new();
    let len = text.len();
    if width > len {
        return index;
    }
    let last = len - width;
    let mut i: usize = 0;
    while i <= last
        invariant
            width >= 1,
            len == text@.len(),
            marked(*marks).len() == text@.len(),
            last == len - width,
            i <= len,
            indexed(index@, text@, marked(*marks), width as nat, i as int),
        decreases len - i,
    {
        let next = skip_marked(marks, i, width);
        if next > i {
            proof {
                assert forall|j: int|
                    0 <= j < next && j + width <= text@.len() && clear(
                        marked(*marks),
                        j,
                        width as int,
                    ) implies bucket(
                    index@,
                    adler_of(#[trigger] window(text@, j, width as nat)),
                ).contains(j as usize) by {
                    if j >= i {
                        assert(marked(*marks)[next - 1]);
                    }
                }
            }
            i = next;
        } else {
            let from = i;
            let mut hasher = window_checksum(text, i, width);
            loop
                invariant_except_break
                    i <= last,
                    held(hasher) == adler_of(window(text@, i as int, width as nat)),
                    clear(marked(*marks), i as int, width - 1),
                    i > from || clear(marked(*marks), from as int, width as int),
                invariant
                    width >= 1,
                    len == text@.len(),
                    marked(*marks).len() == text@.len(),
                    last == len - width,
                    from <= i <= len,
                    indexed(index@, text@, marked(*marks), width as nat, i as int),
                ensures
                    i > from,
                decreases len - i,
            {
                if is_marked(marks, i + width - 1) {
                    break ;
                }
                let ghost before = index@;
                record(&mut index, hasher.hash(), i);
                proof {
                    let key = held(hasher);
                    let now = index@;
                    let s = width as nat;
                    assert(clear(marked(*marks), i as int, s as int));
                    assert forall|j: int|
                        0 <= j < i + 1 && j + s <= text@.len() && clear(
                            marked(*marks),
                            j,
                            s as int,
                        ) implies bucket(now, adler_of(#[trigger] window(text@, j, s))).contains(
                        j as usize,
                    ) by {
                        let at = adler_of(window(text@, j, s));
                        if j < i {
                            let n = choose|n: int|
                                0 <= n < bucket(before, at).len() && bucket(before, at)[n]
                                    == j as usize;
                            if at == key {
                                assert(bucket(now, at)[n] == j as usize);
                            } else {
                                assert(bucket(now, at) == bucket(before, at));
                            }
                        } else {
                            assert(bucket(now, key)[bucket(before, key).len() as int] == i);
                        }
                    }
                    assert forall|other: u32, n: int|
                        0 <= n < bucket(now, other).len() implies listable(
                        text@,
                        marked(*marks),
                        s,
                        i + 1,
                        other,
                        #[trigger] bucket(now, other)[n],
                    ) by {
                        if other == key {
                            if n < bucket(before, key).len() {
                                assert(bucket(now, key)[n] == bucket(before, key)[n]);
                                assert(listable(
                                    text@,
                                    marked(*marks),
                                    s,
                                    i as int,
                                    key,
                                    bucket(before, key)[n],
                                ));
                            }
                        } else {
                            assert(bucket(now, other) == bucket(before, other));
                            assert(listable(
                                text@,
                                marked(*marks),
                                s,
                                i as int,
                                other,
                                bucket(before, other)[n],
                            ));
                        }
                    }
                    assert forall|other: u32| ascending(#[trigger] bucket(now, other)) by {
                        if other == key {
                            assert(ascending(bucket(before, key)));
                            assert forall|a: int, b: int|
                                0 <= a < b < bucket(now, key).len() implies bucket(now, key)[a]
                                < bucket(now, key)[b] by {
                                assert(bucket(now, key)[a] == bucket(before, key)[a]);
                                assert(listable(
                                    text@,
                                    marked(*marks),
                                    s,
                                    i as int,
                                    key,
                                    bucket(before, key)[a],
                                ));
                                if b < bucket(before, key).len() {
                                    assert(bucket(now, key)[b] == bucket(before, key)[b]);
                                }
                            }
                        } else {
                            assert(bucket(now, other) == bucket(before, other));
                            assert(ascending(bucket(before, other)));
                        }
                    }
                }
                i += 1;
                if i > last {
                    break ;
                }
                slide(&mut hasher, text, i - 1, width);
            }
        }
    }
    proof {
        let all = text@.len() as int + 1;
        assert forall|key: u32, n: int| 0 <= n < bucket(index@, key).len() implies listable(
            text@,
            marked(*marks),
            width as nat,
            all,
            key,
            #[trigger] bucket(index@, key)[n],
        ) by {
            assert(listable(
                text@,
                marked(*marks),
                width as nat,
                i as int,
                key,
                bucket(index@, key)[n],
            ));
        }
    }
    index
}

} // verus!
