//! Collision geometry for tile-based levels: the marked ground cells of a
//! level are merged into a small set of axis-aligned rectangles, each of
//! which becomes one static collision body.
pub mod body;
pub mod cli;
pub mod collider;
pub mod cover;
pub mod grid;
pub mod index;
pub mod plate;
pub mod play;
pub mod rect;
