use vstd::prelude::*;

verus! {

/// How much of the product graph is pruned before the jump tables are built.
#[derive(Clone, Copy, Debug, PartialEq, Eq, Structural)]
pub enum TrimmingStrategy {
    /// Keep every vertex that the forward pass reached.
    NoTrimming,
    /// Drop the vertices without a successor in the next level.
    PartialTrimming,
    /// Also drop the vertices of the last level that cannot accept.
    FullTrimming,
}

} // verus!
