//! Grid-based shortest-path search.
//!
//! A [`Grid`] owns one [`Node`] per cell, addressed by the row-major index
//! `width * y + x`.  After obstacles, a start and a goal have been placed,
//! [`Grid::solve`] runs an A*-style search over the cells, driven by one of
//! three integer-scaled heuristics, and reconstructs the found path by
//! following parent links back to the start.

mod clock;
pub mod grid;
pub mod node;
pub mod position;
pub mod search;

pub use grid::Grid;
pub use grid::GridError;
pub use grid::Heuristic;
pub use grid::MAX_CELLS;
pub use node::Node;
pub use node::NodeType;
pub use position::Position;
pub use position::diagonal_distance;
pub use position::euclidean_distance;
pub use position::manhattan_distance;
