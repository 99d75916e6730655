//! Grid mazes: randomized depth-first carving, and breadth-first and
//! depth-first path search over the carved passages.

pub mod bfs_traversal;
pub mod cli;
pub mod dfs_traversal;
pub mod generator;
pub mod graph;
pub mod maze;
pub mod random;
pub mod render;
pub mod tree;
pub mod tui_layout;
