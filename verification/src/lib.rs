//! Grid-based maze game core: a two-dimensional grid container with a
//! character-based text form, the maze model built on it, grid
//! coordinates and their save-file format, axis-aligned collision
//! detection with the play-mode rules, the firing rate limiter, and the
//! cost model of the maze pathfinder.

pub mod array2d;
pub mod battle;
pub mod collision;
pub mod grid_coord;
pub mod maze;
pub mod pathfinding;
pub mod save_format;
pub mod text;
