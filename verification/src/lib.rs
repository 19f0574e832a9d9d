//! Verified core of an interactive editor for iterated-function-system fractals:
//! shape topology, undo history, file-text cleanup, selection editing,
//! vertex regrouping, random-walk bookkeeping and the animation player.
pub mod types;
pub mod editing;
pub mod file_io;
pub mod scene;
pub mod shapes;
pub mod fractal;
pub mod gizmo;
pub mod heatmap;
pub mod undo;
