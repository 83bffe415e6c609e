//! Rendering core for a terminal user interface: a constraint-based layout
//! solver that tiles a rectangle, a double-buffered cell grid with a diff
//! engine that computes the minimal ordered update sequence between frames,
//! and a canvas layer that rasterizes lines onto a sub-cell point grid.

pub mod buffer;
pub mod canvas;
pub mod layout;
