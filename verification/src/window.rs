//! Windows of a sequence: their running checksum, and the marks that they
//! must not touch.

use crate::board::clear;
use crate::checksum::adler_of;
use crate::checksum::held;
use crate::checksum::lemma_fed;
use crate::checksum::lemma_unfed;
use crate::marks::is_marked;
use crate::marks::marked;
use crate::marks::Marks;
use adler32::RollingAdler32;
use vstd::prelude::*;

verus! {

/// The modulus of the checksum.
const BASE: usize = 65521;

/// The `width` bytes of the sequence from `start` on.
pub open spec fn window(data: Seq<u8>, start: int, width: nat) -> Seq<u8> {
    data.subrange(start, start + width)
}

/// Whether `k` is more than twice `s`, computed without overflow.
pub(crate) fn exceeds_double(k: usize, s: usize) -> (more: bool)
    ensures
        more == (k > 2 * s),
{
    k > s && k - s > s
}

/// A hasher that holds the checksum of the window of `width` bytes at
/// `start`.
pub(crate) fn window_checksum(data: &[u8], start: usize, width: usize) -> (hasher: RollingAdler32)
    requires
        start + width <= data@.len(),
    ensures
        held(hasher) == adler_of(window(data@, start as int, width as nat)),
{
    let len = data.len();
    let mut hasher = RollingAdler32::new();
    let mut j: usize = 0;
    proof {
        assert(window(data@, start as int, 0) =~= Seq::<u8>::empty());
    }
    while j < width
        invariant
            j <= width,
            start + width <= len,
            len == data@.len(),
            held(hasher) == adler_of(window(data@, start as int, j as nat)),
        decreases width - j,
    {
        proof {
            let fed_so_far = window(data@, start as int, j as nat);
            lemma_fed(fed_so_far, data@[start + j]);
            assert(fed_so_far.push(data@[start + j]) =~= window(
                data@,
                start as int,
                (j + 1) as nat,
            ));
        }
        hasher.update(data[start + j]);
        j += 1;
    }
    hasher
}

/// Moves the hasher's window one position on: the byte at `start` leaves
/// it and the byte behind its end enters. The size handed to the hasher is
/// the width modulo the checksum's modulus: the hasher takes the byte out
/// modulo that number, and is exact only for sizes up to it.
pub(crate) fn slide(hasher: &mut RollingAdler32, data: &[u8], start: usize, width: usize)
    requires
        width >= 1,
        start + width < data@.len(),
        held(*old(hasher)) == adler_of(window(data@, start as int, width as nat)),
    ensures
        held(*final(hasher)) == adler_of(window(data@, start + 1, width as nat)),
{
    proof {
        let leaving = window(data@, start as int, width as nat);
        lemma_unfed(leaving);
        lemma_fed(leaving.drop_first(), data@[start + width]);
        assert(leaving.drop_first().push(data@[start + width]) =~= window(
            data@,
            start + 1,
            width as nat,
        ));
    }
    hasher.remove(width % BASE, data[start]);
    hasher.update(data[start + width]);
}

/// Where the window of `width` positions at `from` holds a mark, the
/// position behind the first mark in it; `from` itself where it holds
/// none.
pub(crate) fn skip_marked(marks: &Marks, from: usize, width: usize) -> (next: usize)
    requires
        from + width <= marked(*marks).len(),
        from + width <= usize::MAX,
    ensures
        from <= next <= from + width,
        next == from ==> clear(marked(*marks), from as int, width as int),
        next > from ==> marked(*marks)[next - 1] && clear(
            marked(*marks),
            from as int,
            next - 1 - from,
        ),
{
    let mut j = from;
    while j < from + width
        invariant
            from <= j <= from + width,
            from + width <= marked(*marks).len(),
            from + width <= usize::MAX,
            clear(marked(*marks), from as int, j - from),
        decreases from + width - j,
    {
        if is_marked(marks, j) {
            return j + 1;
        }
        j += 1;
    }
    from
}

} // verus!
