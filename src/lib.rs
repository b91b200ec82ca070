//! Counting clusters of bright cells in a luminance grid.
//!
//! A luminance grid is thresholded into an occupancy grid, whose maximal
//! 8-connected regions of active cells are then counted. An occupancy grid
//! can also be rendered back into a black and white mask.

pub mod grid;
pub mod threshold;
pub mod label;
pub mod mask;
pub mod output_path;
pub mod clusters;
