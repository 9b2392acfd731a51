//! A 2D space, divided into square tiles.
pub mod grid;
pub mod coords;
pub mod isometry;
pub mod tiles;
pub mod map;
pub mod induced_subgraph;
pub mod free_group;
pub mod edge_supergraph;
pub mod chunks;
pub mod shapes;
pub mod geometry;
