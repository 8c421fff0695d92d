//! Shortest-path engine for rectangular mazes: a weighted A* search driven
//! by a Jump Point Search successor generator, with exact `a + b*sqrt(2)`
//! cost arithmetic, a streaming event channel, and binary and image grid
//! codecs.
//!
//! The pieces, leaves first: [`position`] is the coordinate algebra and
//! [`cost`] the exact cost arithmetic with its `sqrt(2)` order theory;
//! [`maze`] and [`maze_builder`] model and validate grids; [`paths`] holds
//! the path model shared by [`heuristics`] (the weighted diagonal-distance
//! estimate and its admissibility proof) and [`generator`] (the jump-point
//! successor rule); [`algorithm`] runs the search over [`channel`] events;
//! [`binary_maze`] and [`image_maze`] read and write grids as packed files
//! and rasters; [`context`] picks the execution context a user interface
//! needs.

pub mod algorithm;
pub mod binary_maze;
pub mod channel;
pub mod context;
pub mod cost;
pub mod generator;
pub mod heuristics;
pub mod image_maze;
pub mod maze;
pub mod maze_builder;
pub mod paths;
pub mod position;
