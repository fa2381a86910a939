//! The per-position marks of one sequence, kept in a bit vector of the
//! `bitvec` crate. Nothing in this file is proved: the contracts say what
//! the bit vector's own functions do.

use bitvec::order::Lsb0;
use bitvec::vec::BitVec;
use vstd::prelude::*;

verus! {

/// One mark for each position of a sequence, held in a
/// `bitvec::vec::BitVec`. The verifier does not look inside: what it knows
/// of the marks, it knows from `marked` and the three functions below.
#[verifier::external_body]
pub struct Marks {
    bits: BitVec<usize, Lsb0>,
}

/// The bits that the bit vector holds, position by position.
pub uninterp spec fn marked(marks: Marks) -> Seq<bool>;

/// The largest number of positions that a bit vector can hold: an eighth
/// of the range of `usize`.
pub open spec fn mark_capacity() -> int {
    usize::MAX as int / 8
}

/// `BitVec::repeat(false, len)`: a bit vector of `len` bits, all of them
/// clear. The call panics when `len` is above `BitSlice::MAX_BITS`, so such
/// a length is left out.
#[verifier::external_body]
pub(crate) fn unmarked(len: usize) -> (marks: Marks)
    requires
        len <= mark_capacity(),
    ensures
        marked(marks) == Seq::new(len as nat, |i: int| false),
{
    Marks { bits: BitVec::repeat(false, len) }
}

/// `BitVec`'s `Index<usize>`: the bit at `index`. Out of range it panics,
/// so such an index is left out.
#[verifier::external_body]
pub(crate) fn is_marked(marks: &Marks, index: usize) -> (bit: bool)
    requires
        index < marked(*marks).len(),
    ensures
        bit == marked(*marks)[index as int],
{
    marks.bits[index]
}

/// `BitSlice::set(index, true)`: sets the bit at `index` and leaves the
/// others as they were. Out of range it panics, so such an index is left
/// out.
#[verifier::external_body]
pub(crate) fn mark(marks: &mut Marks, index: usize)
    requires
        index < marked(*old(marks)).len(),
    ensures
        marked(*final(marks)) == marked(*old(marks)).update(index as int, true),
{
    marks.bits.set(index, true)
}

} // verus!
