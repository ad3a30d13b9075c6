//! Conway's Game of Life on a fixed rectangular grid whose outer ring of cells
//! is permanently dead.
//!
//! A generation advances in two phases: [`rules::set_next_state`] stages every
//! interior cell's next state from a read-only view of the current generation,
//! and [`rules::cycle_next`] commits the staged states.

pub mod grid;
pub mod rules;
pub mod render;
pub mod laws;

pub use grid::{Pixel, PixelInfo, PixelMap};
pub use grid::{populate_pixmap, update_pixel, get_key_clones};
pub use rules::{cycle_next, get_neighborhood_score, set_next_state};
pub use render::render_pixelmap;
