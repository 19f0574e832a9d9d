//! The parts of fractal generation and analysis that work on indices and counts.
pub mod dimension;
pub mod generator;
pub mod random_walk;
