//! Lazy graph search: all-paths breadth-first search, A*, and memoised path counting over
//! vertices that generate their own neighbours, with integer points as ready-made vertices.
pub mod coord;
pub mod graph;
pub mod parse;
mod vertex_map;
pub mod walks;

pub use coord::{Cartesian, LatticePoint};
pub use graph::{astar_search, bfs_search_all, count_paths, Vertex};
pub use parse::ParseCoordError;
