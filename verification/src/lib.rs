//! A chunked 2D pixel canvas.
//!
//! The canvas is a toroidal pixel grid split into a grid of chunks, each
//! backed by its own packed-colour buffer and its own destination texture.
//! Drawing requests (clear, pixel, pixel list, rectangle, span) are turned
//! into byte-exact buffer writes and per-chunk dirty rectangles; the dirty
//! rectangles are then drained into alignment-correct upload descriptors,
//! one per dirtied chunk per frame.

pub mod config;
pub mod draw;
pub mod messages;
pub mod resources;
pub mod types;
pub mod upload;
pub mod utils;
