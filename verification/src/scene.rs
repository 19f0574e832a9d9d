//! The spatial index over the points of a fractal.
pub mod chunk_grid;
