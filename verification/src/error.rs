use vstd::prelude::*;

verus! {

/// Why an operation of this library was refused.
#[derive(Clone, Copy, Debug, PartialEq, Eq, Structural)]
pub enum Error {
    /// The tree height is zero, or a treehash range does not fit its leaves.
    InvalidConfiguration,
    /// The number of leaves is not two to the power of the tree height.
    InvalidLeafCount,
    /// A leaf arrived that is not the next expected one.
    OutOfOrderLeaf,
    /// A leaf arrived after the last expected one had been consumed.
    InvalidUsage,
}

} // verus!
