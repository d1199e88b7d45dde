use vstd::prelude::*;

verus! {

/// The failures of the index. None of them changes a tree.
#[derive(Debug, Clone, Copy, PartialEq, Eq, Structural)]
pub enum OctreeError {
    /// An axis value is not below `2^bits`, or an address names no cell.
    InvalidCoordinate,
    /// A depth is beyond what the tree or the codec allows.
    InvalidDepth,
    /// The point to remove is not stored.
    NotFound,
    /// `3 * bits` does not fit in a 64-bit address.
    Overflow,
}

} // verus!
