//! Procedural generation of a maze that exists at multiple levels of detail
//! at once, organized as a quadtree: one root maze tile splits recursively
//! into four child tiles, each a fully connected maze whose outer walls agree
//! exactly with the parent's walls along the shared boundary.
//!
//! The grid and connection data model, the depth-first carver, the solution
//! finder and the boundary-propagating subdivision are verified; writing the
//! generated tiles out as binary assets is left to the surrounding program.

pub mod direction;
pub mod grid_coords;
pub mod grid;
mod rng;
pub mod dfs;
pub mod tile;
pub mod geometry;
