//! A maze solver: parses a textual grid description into a validated model,
//! derives the 8-directional adjacency between passable cells, runs a
//! breadth-first search from the start cell, and reconstructs a shortest
//! path to the exit by greedy descent over the recorded distances.

pub mod table;
pub mod text;
pub mod grid_info;
pub mod path_detective;
pub mod sink;
