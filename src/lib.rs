//! An autonomous controller for the game of Snake: a grid occupancy model,
//! an adjacency graph of traversable cells, direction-aware path search, and
//! three interchangeable steering strategies.

pub mod geometry;
pub mod adjacency;
pub mod parents;
pub mod pathfinding;
pub mod arena;
pub mod snake;
pub mod solver;
