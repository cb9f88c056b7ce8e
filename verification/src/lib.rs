//! Raster geometry for line-of-sight (viewshed) analysis over elevation grids.
//!
//! The library holds the integer side of the analysis: how grid points map to
//! indices of a row-major pixel vector and back, which pixels neighbour one
//! another, how lines and circles are rasterised, and how the samples along a
//! line of sight decide which pixels can be seen from its first point.
pub mod point;
pub mod grid;
pub mod line;
pub mod circle;
pub mod sight;
