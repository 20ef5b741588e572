//! A grid-based pathfinding and maze-generation engine.
//!
//! Given a snapshot of a rectangular (optionally toroidal) tile grid, a
//! start tile and a goal tile, the engine computes the order in which
//! cells are explored and a reconstructed path, using one of five
//! interchangeable search strategies; or it carves a random perfect maze
//! over the grid with Wilson's loop-erased random walk algorithm.

pub mod algorithms;
pub mod astar;
pub mod bfs;
pub mod dfs;
pub mod dijkstra;
pub mod dijkstra_events;
pub mod frontier;
pub mod grid;
pub mod heuristic;
pub mod node;
pub mod policy;
pub mod rng;
pub mod terrain;
pub mod terrain_node;
pub mod tile;
pub mod tile_modifier;
pub mod wilsons;
pub mod wilsons_bounded;
