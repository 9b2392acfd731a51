//! Game logic for a grid-based roguelike, with its geometry.
use vstd::prelude::*;

pub mod geom;
pub mod positional;
pub mod writer;
pub mod lazyrc;
pub mod pathfinding;
pub mod actions;
pub mod entity;
pub mod floor;
pub mod strategy;
pub mod posmap;
pub mod mapgen;

verus! {
} // verus!
