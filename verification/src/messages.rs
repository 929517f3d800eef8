//! Drawing request types.
//!
//! One batch of requests is consumed per frame, in the fixed kind order
//! clear, single pixel, pixel list, rectangle, span; they are translated
//! into chunk-buffer writes and dirty-rectangle marks, and finally into GPU
//! upload operations.

use vstd::prelude::*;
use crate::types::Vec2u;

verus! {

/// Set all canvas pixels to a single colour.
#[derive(Clone, Copy, PartialEq, Eq, Structural, Debug)]
pub struct ClearCanvas {
    /// Colour to clear with.
    pub rgba_u32: u32,
}

/// Draw a single pixel to the canvas.
#[derive(Clone, Copy, PartialEq, Eq, Structural, Debug)]
pub struct DrawPixel {
    /// Canvas coords, bottom-left origin.
    pub pos: Vec2u,
    /// Pixel colour.
    pub rgba_u32: u32,
}

/// Draw many independent pixels to the canvas.
///
/// `positions.len()` must equal `rgba_u32.len()`, or the request is
/// rejected as a whole.
#[derive(Clone, Debug)]
pub struct DrawPixels {
    pub positions: Vec<Vec2u>,
    pub rgba_u32: Vec<u32>,
}

/// Draw a rectangular region to the canvas.
///
/// The region wraps toroidally if it exceeds canvas bounds. `rgba_u32` is
/// row-major: index = y * width + x; its length must equal
/// `size.x * size.y`, or the request is rejected as a whole.
#[derive(Clone, Debug)]
pub struct DrawRect {
    pub start: Vec2u,
    pub size: Vec2u,
    pub rgba_u32: Vec<u32>,
}

/// Draw a contiguous row-major stream to the canvas.
///
/// It advances across X, then moves to the next row, wrapping at both
/// canvas edges. An empty stream is a no-op.
#[derive(Clone, Debug)]
pub struct DrawSpan {
    pub start: Vec2u,
    pub rgba_u32: Vec<u32>,
}

} // verus!
