//! The parameters of a randomly generated branch.
use vstd::prelude::*;

verus! {

/// How big a generated branch is.
#[derive(Debug, Clone, Copy, PartialEq, Eq, Structural)]
pub struct BranchGenerator {
    /// How many halls the branch has.
    pub edges: u8,
    /// The most sides a polygon of the branch has.
    pub max_loop_len: u8,
}

} // verus!
