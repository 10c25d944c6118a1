//! Parts of a whole.
use vstd::prelude::*;

verus! {

/// A part of a whole, both counted. It reads as a percentage; a share of
/// nothing is zero.
#[derive(Clone, Copy, Debug, PartialEq, Eq, Structural)]
pub struct Share {
    pub part: u64,
    pub whole: u64,
}

} // verus!
