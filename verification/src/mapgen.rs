//! Generating the layout of caves.
use vstd::prelude::*;

pub mod builder;
pub mod graph_representation;

verus! {
} // verus!
