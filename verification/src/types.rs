//! Core value types and the pure canvas geometry.
//!
//! `CanvasLayout` owns every coordinate-space conversion: toroidal wrapping
//! of global pixel coordinates, locating the owning chunk, chunk-local
//! coordinates, and the safe contiguous run length that keeps every write
//! primitive inside one chunk row.

use vstd::prelude::*;
use vstd::arithmetic::div_mod::{
    lemma_fundamental_div_mod, lemma_fundamental_div_mod_converse, lemma_mod_division_less_than_divisor,
    lemma_mod_multiples_vanish, lemma_mod_twice, lemma_multiply_divide_lt,
};
use vstd::arithmetic::mul::lemma_mul_inequality;

verus! {

/// A pair of unsigned 32-bit values: a pixel position or an extent.
#[derive(Clone, Copy, PartialEq, Eq, Structural, Debug)]
pub struct Vec2u {
    pub x: u32,
    pub y: u32,
}

/// A compact chunk-grid coordinate; the chunk grid fits 8 bits per axis.
#[derive(Clone, Copy, PartialEq, Eq, Structural, Debug)]
pub struct ChunkKey {
    pub x: u8,
    pub y: u8,
}

/// Canvas geometry helper; encapsulates the coordinate transforms shared by
/// the draw-op processor and the upload batch builder.
#[derive(Clone, Copy, PartialEq, Eq, Structural, Debug)]
pub struct CanvasLayout {
    /// Full canvas size in pixels.
    pub canvas_size: Vec2u,
    /// Chunk size in pixels.
    pub chunk_size: Vec2u,
}

impl CanvasLayout {
    /// Validity of a layout: positive sizes, each canvas axis an exact
    /// multiple of the chunk axis, and at most 255 chunks per axis.
    pub open spec fn wf(self) -> bool {
        &&& self.canvas_size.x > 0
        &&& self.canvas_size.y > 0
        &&& self.chunk_size.x > 0
        &&& self.chunk_size.y > 0
        &&& self.canvas_size.x % self.chunk_size.x == 0
        &&& self.canvas_size.y % self.chunk_size.y == 0
        &&& self.canvas_size.x / self.chunk_size.x <= 255
        &&& self.canvas_size.y / self.chunk_size.y <= 255
    }

    /// Number of chunks along the x axis.
    pub open spec fn ncx(self) -> int {
        self.canvas_size.x as int / self.chunk_size.x as int
    }

    /// Number of chunks along the y axis.
    pub open spec fn ncy(self) -> int {
        self.canvas_size.y as int / self.chunk_size.y as int
    }

    /// Total number of chunks.
    pub open spec fn total_chunks(self) -> int {
        self.ncx() * self.ncy()
    }

    /// Pixels per chunk.
    pub open spec fn pixels_per_chunk(self) -> int {
        self.chunk_size.x as int * self.chunk_size.y as int
    }

    /// Total pixels on the canvas.
    pub open spec fn total_pixels(self) -> nat {
        self.canvas_size.x as nat * self.canvas_size.y as nat
    }

    /// Linear index of the chunk owning the wrapped position `(x, y)`:
    /// row-major over the chunk grid.
    pub open spec fn chunk_index_of(self, x: int, y: int) -> int {
        (y / self.chunk_size.y as int) * self.ncx() + x / self.chunk_size.x as int
    }

    /// Linear offset of the wrapped position `(x, y)` within its owning
    /// chunk's buffer: row-major over chunk-local coordinates.
    pub open spec fn local_offset_of(self, x: int, y: int) -> int {
        (y % self.chunk_size.y as int) * self.chunk_size.x as int + x % self.chunk_size.x as int
    }

    /// Global flat pixel index of the wrapped position `(x, y)`: row-major
    /// over the whole canvas.
    pub open spec fn flat_index_of(self, x: int, y: int) -> int {
        y * self.canvas_size.x as int + x
    }

    /// The largest contiguous run starting at wrapped column `x` that stays
    /// inside both the canvas row and the owning chunk's row.
    pub open spec fn max_run_spec(self, x: int) -> int {
        let until_canvas = self.canvas_size.x as int - x;
        let until_chunk = self.chunk_size.x as int - x % self.chunk_size.x as int;
        if until_canvas <= until_chunk {
            until_canvas
        } else {
            until_chunk
        }
    }

    /// Create a new layout.
    pub fn new(canvas_size: Vec2u, chunk_size: Vec2u) -> (layout: Self)
        requires
            (CanvasLayout { canvas_size, chunk_size }).wf(),
        ensures
            layout == (CanvasLayout { canvas_size, chunk_size }),
            layout.wf(),
    {
        Self { canvas_size, chunk_size }
    }

    /// Number of chunks in each axis.
    pub fn num_chunks(self) -> (nc: ChunkKey)
        requires
            self.wf(),
        ensures
            nc.x == self.ncx(),
            nc.y == self.ncy(),
            nc.x >= 1,
            nc.y >= 1,
    {
        proof {
            self.lemma_products();
        }
        ChunkKey {
            x: (self.canvas_size.x / self.chunk_size.x) as u8,
            y: (self.canvas_size.y / self.chunk_size.y) as u8,
        }
    }

    /// Toroidal wrap within canvas bounds.
    pub fn wrap(self, pos: Vec2u) -> (w: Vec2u)
        requires
            self.wf(),
        ensures
            w.x == pos.x as int % self.canvas_size.x as int,
            w.y == pos.y as int % self.canvas_size.y as int,
            w.x < self.canvas_size.x,
            w.y < self.canvas_size.y,
    {
        Vec2u { x: pos.x % self.canvas_size.x, y: pos.y % self.canvas_size.y }
    }

    /// Chunk coordinate (in chunk grid space) for a wrapped pixel.
    pub fn chunk_xy(self, wrapped_pos: Vec2u) -> (c: Vec2u)
        requires
            self.wf(),
            wrapped_pos.x < self.canvas_size.x,
            wrapped_pos.y < self.canvas_size.y,
        ensures
            c.x == wrapped_pos.x as int / self.chunk_size.x as int,
            c.y == wrapped_pos.y as int / self.chunk_size.y as int,
            c.x < self.ncx(),
            c.y < self.ncy(),
    {
        proof {
            self.lemma_products();
            lemma_multiply_divide_lt(
                wrapped_pos.x as int,
                self.chunk_size.x as int,
                self.ncx(),
            );
            lemma_multiply_divide_lt(
                wrapped_pos.y as int,
                self.chunk_size.y as int,
                self.ncy(),
            );
        }
        Vec2u { x: wrapped_pos.x / self.chunk_size.x, y: wrapped_pos.y / self.chunk_size.y }
    }

    /// Convert a chunk coordinate into a compact `ChunkKey`.
    /// The chunk grid must fit within 8 bits per axis.
    pub fn chunk_key(self, chunk_xy: Vec2u) -> (key: ChunkKey)
        requires
            chunk_xy.x < 256,
            chunk_xy.y < 256,
        ensures
            key.x == chunk_xy.x,
            key.y == chunk_xy.y,
    {
        ChunkKey { x: chunk_xy.x as u8, y: chunk_xy.y as u8 }
    }

    /// Convert a wrapped pixel to chunk-local pixel coordinates:
    /// the wrapped position minus its chunk's origin.
    pub fn local_xy(self, wrapped_pos: Vec2u) -> (local: Vec2u)
        requires
            self.wf(),
            wrapped_pos.x < self.canvas_size.x,
            wrapped_pos.y < self.canvas_size.y,
        ensures
            local.x == wrapped_pos.x as int % self.chunk_size.x as int,
            local.y == wrapped_pos.y as int % self.chunk_size.y as int,
            local.x == wrapped_pos.x - self.chunk_size.x * (wrapped_pos.x as int / self.chunk_size.x as int),
            local.y == wrapped_pos.y - self.chunk_size.y * (wrapped_pos.y as int / self.chunk_size.y as int),
            local.x < self.chunk_size.x,
            local.y < self.chunk_size.y,
    {
        proof {
            lemma_fundamental_div_mod(wrapped_pos.x as int, self.chunk_size.x as int);
            lemma_fundamental_div_mod(wrapped_pos.y as int, self.chunk_size.y as int);
        }
        Vec2u { x: wrapped_pos.x % self.chunk_size.x, y: wrapped_pos.y % self.chunk_size.y }
    }

    /// Pixel-space origin (min corner) of a chunk in canvas coordinates.
    pub fn chunk_min(self, chunk_xy: Vec2u) -> (origin: Vec2u)
        requires
            self.wf(),
            chunk_xy.x < self.ncx(),
            chunk_xy.y < self.ncy(),
        ensures
            origin.x == chunk_xy.x * self.chunk_size.x,
            origin.y == chunk_xy.y * self.chunk_size.y,
            origin.x + self.chunk_size.x <= self.canvas_size.x,
            origin.y + self.chunk_size.y <= self.canvas_size.y,
    {
        proof {
            self.lemma_products();
            lemma_mul_inequality(chunk_xy.x + 1, self.ncx(), self.chunk_size.x as int);
            lemma_mul_inequality(chunk_xy.y + 1, self.ncy(), self.chunk_size.y as int);
            assert((chunk_xy.x + 1) * self.chunk_size.x as int
                == chunk_xy.x * self.chunk_size.x as int + self.chunk_size.x) by (nonlinear_arith);
            assert((chunk_xy.y + 1) * self.chunk_size.y as int
                == chunk_xy.y * self.chunk_size.y as int + self.chunk_size.y) by (nonlinear_arith);
        }
        Vec2u { x: chunk_xy.x as u32 * self.chunk_size.x, y: chunk_xy.y as u32 * self.chunk_size.y }
    }

    /// Maximum contiguous pixels that can be written starting at
    /// `wrapped_pos`, without crossing the canvas row end or the chunk row
    /// end. This is the constraint that keeps the write primitive safe.
    pub fn max_run_len(self, wrapped_pos: Vec2u) -> (run: u32)
        requires
            self.wf(),
            wrapped_pos.x < self.canvas_size.x,
            wrapped_pos.y < self.canvas_size.y,
        ensures
            run == self.max_run_spec(wrapped_pos.x as int),
            1 <= run,
            wrapped_pos.x + run <= self.canvas_size.x,
            wrapped_pos.x as int % self.chunk_size.x as int + run <= self.chunk_size.x,
            run <= self.chunk_size.x,
    {
        proof {
            lemma_mod_division_less_than_divisor(wrapped_pos.x as int, self.chunk_size.x as int);
        }
        let local_x = wrapped_pos.x % self.chunk_size.x;
        let until_canvas_row_end = self.canvas_size.x - wrapped_pos.x;
        let until_chunk_row_end = self.chunk_size.x - local_x;
        if until_canvas_row_end <= until_chunk_row_end {
            until_canvas_row_end
        } else {
            until_chunk_row_end
        }
    }

    /// The chunk grid exactly tiles the canvas: the chunk counts times the
    /// chunk sizes give back the canvas sizes, and the chunk count and
    /// per-chunk pixel count multiply out to the total pixel count.
    pub proof fn lemma_products(self)
        requires
            self.wf(),
        ensures
            self.ncx() * self.chunk_size.x as int == self.canvas_size.x as int,
            self.ncy() * self.chunk_size.y as int == self.canvas_size.y as int,
            1 <= self.ncx() <= 255,
            1 <= self.ncy() <= 255,
            self.total_chunks() * self.pixels_per_chunk() == self.total_pixels(),
            self.total_pixels() >= 1,
    {
        lemma_fundamental_div_mod(self.canvas_size.x as int, self.chunk_size.x as int);
        lemma_fundamental_div_mod(self.canvas_size.y as int, self.chunk_size.y as int);
        assert(self.ncx() * self.chunk_size.x as int == self.chunk_size.x as int * self.ncx())
            by (nonlinear_arith);
        assert(self.ncy() * self.chunk_size.y as int == self.chunk_size.y as int * self.ncy())
            by (nonlinear_arith);
        assert(self.ncx() >= 1 && self.ncy() >= 1) by (nonlinear_arith)
            requires
                self.ncx() * self.chunk_size.x as int == self.canvas_size.x as int,
                self.ncy() * self.chunk_size.y as int == self.canvas_size.y as int,
                self.canvas_size.x > 0,
                self.canvas_size.y > 0,
                self.chunk_size.x > 0,
                self.chunk_size.y > 0,
                self.ncx() >= 0,
                self.ncy() >= 0,
        ;
        assert((self.ncx() * self.ncy()) * (self.chunk_size.x as int * self.chunk_size.y as int)
            == (self.ncx() * self.chunk_size.x as int) * (self.ncy() * self.chunk_size.y as int))
            by (nonlinear_arith);
        assert(self.canvas_size.x as int * self.canvas_size.y as int >= 1) by (nonlinear_arith)
            requires
                self.canvas_size.x >= 1,
                self.canvas_size.y >= 1,
        ;
    }

    /// From a wrapped position `(x, y)`, the owning chunk index and local
    /// offset are in range, and they determine `x` and `y` again: the pair
    /// `(chunk index, local offset)` is a faithful address for the pixel.
    pub proof fn lemma_addr_inverse(self, x: int, y: int)
        requires
            self.wf(),
            0 <= x < self.canvas_size.x,
            0 <= y < self.canvas_size.y,
        ensures
            0 <= self.chunk_index_of(x, y) < self.total_chunks(),
            0 <= self.local_offset_of(x, y) < self.pixels_per_chunk(),
            self.chunk_index_of(x, y) % self.ncx() == x / self.chunk_size.x as int,
            self.chunk_index_of(x, y) / self.ncx() == y / self.chunk_size.y as int,
            self.local_offset_of(x, y) % self.chunk_size.x as int == x % self.chunk_size.x as int,
            self.local_offset_of(x, y) / self.chunk_size.x as int == y % self.chunk_size.y as int,
    {
        self.lemma_products();
        let csx = self.chunk_size.x as int;
        let csy = self.chunk_size.y as int;
        let cx = x / csx;
        let cy = y / csy;
        let lx = x % csx;
        let ly = y % csy;
        lemma_fundamental_div_mod(x, csx);
        lemma_fundamental_div_mod(y, csy);
        lemma_mod_division_less_than_divisor(x, csx);
        lemma_mod_division_less_than_divisor(y, csy);
        assert(csx * self.ncx() == self.ncx() * csx) by (nonlinear_arith);
        assert(csy * self.ncy() == self.ncy() * csy) by (nonlinear_arith);
        lemma_multiply_divide_lt(x, csx, self.ncx());
        lemma_multiply_divide_lt(y, csy, self.ncy());
        // chunk_index_of(x, y) == cy * ncx + cx with 0 <= cx < ncx
        lemma_fundamental_div_mod_converse(self.chunk_index_of(x, y), self.ncx(), cy, cx);
        // local_offset_of(x, y) == ly * csx + lx with 0 <= lx < csx
        lemma_fundamental_div_mod_converse(self.local_offset_of(x, y), csx, ly, lx);
        // range bounds for the composed indices
        lemma_mul_inequality(cy + 1, self.ncy(), self.ncx());
        assert((cy + 1) * self.ncx() == cy * self.ncx() + self.ncx()) by (nonlinear_arith);
        assert(self.ncy() * self.ncx() == self.ncx() * self.ncy()) by (nonlinear_arith);
        lemma_mul_inequality(ly + 1, csy, csx);
        assert((ly + 1) * csx == ly * csx + csx) by (nonlinear_arith);
        assert(csy * csx == csx * csy) by (nonlinear_arith);
    }

    /// Toroidal wrapping is idempotent and periodic: wrapping an already
    /// wrapped coordinate is a no-op, and adding any whole number of canvas
    /// periods to a coordinate wraps to the same position, on each axis
    /// independently.
    pub proof fn lemma_wrap_idempotent_periodic(self, x: int, y: int, kx: int, ky: int)
        requires
            self.wf(),
        ensures
            (x % self.canvas_size.x as int) % self.canvas_size.x as int == x % self.canvas_size.x as int,
            (y % self.canvas_size.y as int) % self.canvas_size.y as int == y % self.canvas_size.y as int,
            (x + kx * self.canvas_size.x as int) % self.canvas_size.x as int == x % self.canvas_size.x as int,
            (y + ky * self.canvas_size.y as int) % self.canvas_size.y as int == y % self.canvas_size.y as int,
    {
        let cw = self.canvas_size.x as int;
        let ch = self.canvas_size.y as int;
        lemma_mod_twice(x, cw);
        lemma_mod_twice(y, ch);
        lemma_mod_multiples_vanish(kx, x, cw);
        lemma_mod_multiples_vanish(ky, y, ch);
        assert(cw * kx == kx * cw) by (nonlinear_arith);
        assert(ch * ky == ky * ch) by (nonlinear_arith);
    }

    /// Distinct wrapped positions have distinct chunk-and-offset addresses.
    pub proof fn lemma_addr_injective(self, x1: int, y1: int, x2: int, y2: int)
        requires
            self.wf(),
            0 <= x1 < self.canvas_size.x,
            0 <= y1 < self.canvas_size.y,
            0 <= x2 < self.canvas_size.x,
            0 <= y2 < self.canvas_size.y,
            self.chunk_index_of(x1, y1) == self.chunk_index_of(x2, y2),
            self.local_offset_of(x1, y1) == self.local_offset_of(x2, y2),
        ensures
            x1 == x2,
            y1 == y2,
    {
        let csx = self.chunk_size.x as int;
        let csy = self.chunk_size.y as int;
        self.lemma_addr_inverse(x1, y1);
        self.lemma_addr_inverse(x2, y2);
        lemma_fundamental_div_mod(x1, csx);
        lemma_fundamental_div_mod(x2, csx);
        lemma_fundamental_div_mod(y1, csy);
        lemma_fundamental_div_mod(y2, csy);
    }
}

/// Dirty rectangle for one chunk (chunk-local pixel space), stored as
/// inclusive min/max. When `dirty` is false the bounds are meaningless.
#[derive(Clone, Copy, PartialEq, Eq, Structural, Debug)]
pub struct DirtyRect {
    pub min: Vec2u,
    pub max: Vec2u,
    pub dirty: bool,
}

impl Default for DirtyRect {
    /// A clean entry: no pixels written since the last drain.
    fn default() -> (r: Self)
        ensures
            r == (DirtyRect { min: Vec2u { x: 0, y: 0 }, max: Vec2u { x: 0, y: 0 }, dirty: false }),
    {
        DirtyRect { min: Vec2u { x: 0, y: 0 }, max: Vec2u { x: 0, y: 0 }, dirty: false }
    }
}

/// A single GPU upload operation for one chunk texture: `bytes` contains
/// packed rows with `bytes_per_row` stride (aligned as the transfer API
/// requires).
#[derive(Clone, Debug)]
pub struct CanvasUploadOp {
    /// Linear index of the destination chunk.
    pub chunk_index: usize,
    /// Start (x, y) in the chunk texture (pixels).
    pub start: Vec2u,
    /// Size (width, height) in pixels.
    pub size: Vec2u,
    /// Row stride in bytes.
    pub bytes_per_row: u32,
    /// Raw bytes sent to the GPU (little-endian RGBA8).
    pub bytes: Vec<u8>,
}

} // verus!
