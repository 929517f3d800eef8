//! Canvas configuration.
//!
//! The canvas is split into a grid of chunks. Each chunk is backed by a CPU
//! buffer of packed colour words and one GPU texture; the textures receive
//! partial uploads driven by per-chunk dirty rectangles.

use vstd::prelude::*;
use vstd::arithmetic::div_mod::{lemma_div_pos_is_pos, lemma_fundamental_div_mod, lemma_fundamental_div_mod_converse};
use crate::types::{CanvasLayout, ChunkKey, Vec2u};

verus! {

/// Clear colour used when a configuration gives none: opaque white.
pub const DEFAULT_CLEAR_COLOUR: u32 = 0xffffffff;

/// Runtime configuration for the canvas: immutable per-session values.
#[derive(Clone, Copy, PartialEq, Eq, Structural, Debug)]
pub struct CanvasConfig {
    /// Clear colour used to initialise the CPU buffers and GPU textures.
    pub clear_colour: u32,
    /// Total canvas pixel resolution.
    pub canvas_size: Vec2u,
    /// Number of chunks in (x, y); each axis must evenly divide `canvas_size`.
    pub num_chunks: ChunkKey,
}

/// For a positive exact divisor `d` of `n`, the quotient `n / d` is itself a
/// positive exact divisor of `n`, and dividing by it gives back `d`.
pub proof fn lemma_exact_division(n: int, d: int)
    requires
        n > 0,
        d > 0,
        n % d == 0,
    ensures
        n / d >= 1,
        d * (n / d) == n,
        n % (n / d) == 0,
        n / (n / d) == d,
{
    let q = n / d;
    lemma_fundamental_div_mod(n, d);
    lemma_div_pos_is_pos(n, d);
    assert(q >= 1) by (nonlinear_arith)
        requires
            d > 0,
            n > 0,
            d * q == n,
            q >= 0,
    ;
    lemma_fundamental_div_mod_converse(n, q, d, 0);
}

impl CanvasConfig {
    /// Validity of a configuration: positive sizes, a positive chunk grid,
    /// and each canvas axis an exact multiple of the chunk count.
    pub open spec fn wf(self) -> bool {
        &&& self.canvas_size.x > 0
        &&& self.canvas_size.y > 0
        &&& self.num_chunks.x > 0
        &&& self.num_chunks.y > 0
        &&& self.canvas_size.x as int % self.num_chunks.x as int == 0
        &&& self.canvas_size.y as int % self.num_chunks.y as int == 0
    }

    /// Width of one chunk in pixels.
    pub open spec fn chunk_w(self) -> int {
        self.canvas_size.x as int / self.num_chunks.x as int
    }

    /// Height of one chunk in pixels.
    pub open spec fn chunk_h(self) -> int {
        self.canvas_size.y as int / self.num_chunks.y as int
    }

    /// Construct a new configuration.
    pub fn new(clear_colour: u32, canvas_size: Vec2u, chunks: ChunkKey) -> (config: Self)
        requires
            canvas_size.x > 0,
            canvas_size.y > 0,
            chunks.x > 0,
            chunks.y > 0,
            canvas_size.x as int % chunks.x as int == 0,
            canvas_size.y as int % chunks.y as int == 0,
        ensures
            config == (CanvasConfig { clear_colour, canvas_size, num_chunks: chunks }),
            config.wf(),
    {
        Self { clear_colour, canvas_size, num_chunks: chunks }
    }

    /// Clear colour (packed RGBA8).
    pub fn clear_colour(&self) -> (colour: u32)
        ensures
            colour == self.clear_colour,
    {
        self.clear_colour
    }

    /// Total canvas size in pixels.
    pub fn canvas_size(&self) -> (size: Vec2u)
        ensures
            size == self.canvas_size,
    {
        self.canvas_size
    }

    /// Chunk grid resolution.
    pub fn num_chunks(&self) -> (chunks: ChunkKey)
        ensures
            chunks == self.num_chunks,
    {
        self.num_chunks
    }

    /// Size of one chunk in pixels.
    pub fn chunk_size(&self) -> (size: Vec2u)
        requires
            self.wf(),
        ensures
            size.x == self.chunk_w(),
            size.y == self.chunk_h(),
            size.x >= 1,
            size.y >= 1,
    {
        proof {
            lemma_exact_division(self.canvas_size.x as int, self.num_chunks.x as int);
            lemma_exact_division(self.canvas_size.y as int, self.num_chunks.y as int);
        }
        Vec2u {
            x: self.canvas_size.x / self.num_chunks.x as u32,
            y: self.canvas_size.y / self.num_chunks.y as u32,
        }
    }

    /// Pixels per chunk.
    pub fn pixels_per_chunk(&self) -> (pixels: usize)
        requires
            self.wf(),
            self.chunk_w() * self.chunk_h() <= usize::MAX,
        ensures
            pixels == self.chunk_w() * self.chunk_h(),
    {
        let chunk_size = self.chunk_size();
        (chunk_size.x as usize) * (chunk_size.y as usize)
    }

    /// Total number of chunks.
    pub fn total_chunks(&self) -> (total: usize)
        ensures
            total == self.num_chunks.x as int * self.num_chunks.y as int,
    {
        proof {
            assert(self.num_chunks.x as int * self.num_chunks.y as int <= 255 * 255)
                by (nonlinear_arith)
                requires
                    self.num_chunks.x <= 255,
                    self.num_chunks.y <= 255,
            ;
        }
        (self.num_chunks.x as usize) * (self.num_chunks.y as usize)
    }

    /// The geometry helper for this configuration. The resulting layout is
    /// well formed: chunk sizes are positive, exactly tile the canvas, and
    /// the chunk counts fit 8 bits per axis.
    pub fn layout(&self) -> (layout: CanvasLayout)
        requires
            self.wf(),
        ensures
            layout.canvas_size == self.canvas_size,
            layout.chunk_size.x == self.chunk_w(),
            layout.chunk_size.y == self.chunk_h(),
            layout.wf(),
            layout.ncx() == self.num_chunks.x,
            layout.ncy() == self.num_chunks.y,
    {
        proof {
            lemma_exact_division(self.canvas_size.x as int, self.num_chunks.x as int);
            lemma_exact_division(self.canvas_size.y as int, self.num_chunks.y as int);
        }
        CanvasLayout { canvas_size: self.canvas_size, chunk_size: self.chunk_size() }
    }
}

impl Default for CanvasConfig {
    /// The default configuration: an opaque-white 1024 by 1024 canvas split
    /// into a 4 by 4 chunk grid.
    fn default() -> (config: Self)
        ensures
            config == (CanvasConfig {
                clear_colour: DEFAULT_CLEAR_COLOUR,
                canvas_size: Vec2u { x: 1024, y: 1024 },
                num_chunks: ChunkKey { x: 4, y: 4 },
            }),
            config.wf(),
    {
        CanvasConfig {
            clear_colour: DEFAULT_CLEAR_COLOUR,
            canvas_size: Vec2u { x: 1024, y: 1024 },
            num_chunks: ChunkKey { x: 4, y: 4 },
        }
    }
}

} // verus!
