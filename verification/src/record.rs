//! The record of one common substring.

use vstd::prelude::*;

verus! {

/// A substring that the pattern and the text share: where it starts in
/// each, and how long it is.
#[derive(Copy, Clone, Debug, Ord, PartialOrd, Eq, PartialEq, Structural)]
pub struct Match {
    pub pattern_index: usize,
    pub text_index: usize,
    pub length: usize,
}

} // verus!
