//! Frame-pipeline state: the CPU chunk store, the per-chunk dirty-rectangle
//! tracker, and the per-frame upload-descriptor buffer.

use vstd::prelude::*;
use vstd::math::{max, min};
use vstd::arithmetic::mul::lemma_mul_inequality;
use crate::types::{CanvasUploadOp, ChunkKey, DirtyRect, Vec2u};

verus! {

/// The `i`-th chunk-sized slice of a flat buffer of `ppc`-pixel chunks.
pub open spec fn chunk_slice(data: Seq<u32>, ppc: int, i: int) -> Seq<u32> {
    data.subrange(i * ppc, i * ppc + ppc)
}

/// A flat slot `i * ppc + j` is in range of a buffer of `total` chunks of
/// `ppc` pixels each, and chunk slices are monotone in the chunk index.
proof fn lemma_flat_slot(total: int, ppc: int, i: int, j: int)
    by (nonlinear_arith)
    requires
        0 <= i < total,
        0 <= j < ppc,
    ensures
        0 <= i * ppc + j < total * ppc,
        i * ppc + ppc <= total * ppc,
{
}

/// A vector of `n` copies of `colour`.
fn fill_vec(n: usize, colour: u32) -> (v: Vec<u32>)
    ensures
        v@.len() == n,
        forall|k: int| 0 <= k < n ==> v@[k] == colour,
{
    let mut v: Vec<u32> = Vec::new();
    let mut i: usize = 0;
    while i < n
        invariant
            i <= n,
            v@.len() == i,
            forall|k: int| 0 <= k < i ==> v@[k] == colour,
        decreases n - i,
    {
        v.push(colour);
        i = i + 1;
    }
    v
}

/// CPU backing store: row-major packed `u32` pixels per chunk, all chunks
/// held in one flat buffer in linear chunk order. Viewed abstractly as the
/// sequence of per-chunk pixel buffers.
pub struct CanvasCpuChunks {
    num_chunks: ChunkKey,
    chunk_size: Vec2u,
    data: Vec<u32>,
}

impl View for CanvasCpuChunks {
    type V = Seq<Seq<u32>>;

    closed spec fn view(&self) -> Seq<Seq<u32>> {
        Seq::new(self.total_spec(), |i: int| chunk_slice(self.data@, self.ppc_spec() as int, i))
    }
}

impl CanvasCpuChunks {
    /// The chunk grid resolution the store was created with.
    pub closed spec fn num_chunks_spec(&self) -> ChunkKey {
        self.num_chunks
    }

    /// The chunk size the store was created with.
    pub closed spec fn chunk_size_spec(&self) -> Vec2u {
        self.chunk_size
    }

    /// Total number of chunks.
    pub open spec fn total_spec(&self) -> nat {
        self.num_chunks_spec().x as nat * self.num_chunks_spec().y as nat
    }

    /// Pixels per chunk.
    pub open spec fn ppc_spec(&self) -> nat {
        self.chunk_size_spec().x as nat * self.chunk_size_spec().y as nat
    }

    /// Validity: positive dimensions and a buffer of exactly one pixel word
    /// per canvas pixel. The buffer length never changes after creation.
    pub closed spec fn wf(&self) -> bool {
        &&& self.num_chunks.x > 0
        &&& self.num_chunks.y > 0
        &&& self.chunk_size.x > 0
        &&& self.chunk_size.y > 0
        &&& self.data@.len() == self.total_spec() * self.ppc_spec()
        &&& self.total_spec() * self.ppc_spec() <= usize::MAX
    }

    /// Shape of the abstract view of a valid store: one buffer per chunk,
    /// each of exactly `ppc_spec()` pixels, and the machine-size bounds that
    /// follow from the flat buffer being addressable.
    pub proof fn lemma_view_shape(&self)
        requires
            self.wf(),
        ensures
            self@.len() == self.total_spec(),
            forall|i: int| 0 <= i < self.total_spec() ==> (#[trigger] self@[i]).len() == self.ppc_spec(),
            1 <= self.total_spec() <= usize::MAX,
            1 <= self.ppc_spec(),
            self.total_spec() * self.ppc_spec() <= usize::MAX,
            self.ppc_spec() <= usize::MAX,
    {
        let total = self.total_spec() as int;
        let ppc = self.ppc_spec() as int;
        assert(total >= 1 && ppc >= 1) by (nonlinear_arith)
            requires
                total == self.num_chunks.x as int * self.num_chunks.y as int,
                ppc == self.chunk_size.x as int * self.chunk_size.y as int,
                self.num_chunks.x >= 1,
                self.num_chunks.y >= 1,
                self.chunk_size.x >= 1,
                self.chunk_size.y >= 1,
        ;
        assert(total <= total * ppc && ppc <= total * ppc) by (nonlinear_arith)
            requires
                total >= 1,
                ppc >= 1,
        ;
        assert forall|i: int| 0 <= i < self.total_spec() implies (#[trigger] self@[i]).len()
            == self.ppc_spec() by {
            lemma_flat_slot(total, ppc, i, 0);
        }
    }

    /// Create CPU chunks, filling all pixels with `default_colour`.
    pub fn new(num_chunks: ChunkKey, chunk_size: Vec2u, default_colour: u32) -> (store: Self)
        requires
            num_chunks.x > 0,
            num_chunks.y > 0,
            chunk_size.x > 0,
            chunk_size.y > 0,
            (num_chunks.x as nat * num_chunks.y as nat) * (chunk_size.x as nat * chunk_size.y as nat)
                <= usize::MAX,
        ensures
            store.wf(),
            store.num_chunks_spec() == num_chunks,
            store.chunk_size_spec() == chunk_size,
            forall|i: int, j: int|
                0 <= i < store.total_spec() && 0 <= j < store.ppc_spec()
                    ==> #[trigger] store@[i][j] == default_colour,
    {
        proof {
            assert(num_chunks.x as int * num_chunks.y as int <= 255 * 255) by (nonlinear_arith)
                requires
                    num_chunks.x <= 255,
                    num_chunks.y <= 255,
            ;
            assert(num_chunks.x as int * num_chunks.y as int >= 1
                && chunk_size.x as int * chunk_size.y as int >= 1) by (nonlinear_arith)
                requires
                    num_chunks.x >= 1,
                    num_chunks.y >= 1,
                    chunk_size.x >= 1,
                    chunk_size.y >= 1,
            ;
            assert(chunk_size.x as int * chunk_size.y as int
                <= (num_chunks.x as int * num_chunks.y as int)
                    * (chunk_size.x as int * chunk_size.y as int)) by (nonlinear_arith)
                requires
                    num_chunks.x as int * num_chunks.y as int >= 1,
                    chunk_size.x as int * chunk_size.y as int >= 0,
            ;
        }
        let total_chunks: usize = (num_chunks.x as usize) * (num_chunks.y as usize);
        let pixels_per_chunk: usize = (chunk_size.x as usize) * (chunk_size.y as usize);
        let data = fill_vec(total_chunks * pixels_per_chunk, default_colour);
        let store = Self { num_chunks, chunk_size, data };
        proof {
            store.lemma_view_shape();
            assert forall|i: int, j: int|
                0 <= i < store.total_spec() && 0 <= j < store.ppc_spec()
                    implies #[trigger] store@[i][j] == default_colour by {
                lemma_flat_slot(store.total_spec() as int, store.ppc_spec() as int, i, j);
            }
        }
        store
    }

    /// Chunk row stride in pixels.
    pub fn stride(&self) -> (w: usize)
        ensures
            w == self.chunk_size_spec().x,
    {
        self.chunk_size.x as usize
    }

    /// Number of chunk buffers.
    pub fn total_chunks(&self) -> (total: usize)
        requires
            self.wf(),
        ensures
            total == self.total_spec(),
    {
        proof {
            self.lemma_view_shape();
            assert(self.num_chunks.x as int * self.num_chunks.y as int <= 255 * 255)
                by (nonlinear_arith)
                requires
                    self.num_chunks.x <= 255,
                    self.num_chunks.y <= 255,
            ;
        }
        (self.num_chunks.x as usize) * (self.num_chunks.y as usize)
    }

    /// Read one pixel word of one chunk.
    pub fn read(&self, chunk_index: usize, offset: usize) -> (px: u32)
        requires
            self.wf(),
            chunk_index < self.total_spec(),
            offset < self.ppc_spec(),
        ensures
            px == self@[chunk_index as int][offset as int],
    {
        proof {
            self.lemma_view_shape();
            lemma_flat_slot(self.total_spec() as int, self.ppc_spec() as int, chunk_index as int, offset as int);
        }
        let pixels_per_chunk: usize = (self.chunk_size.x as usize) * (self.chunk_size.y as usize);
        self.data[chunk_index * pixels_per_chunk + offset]
    }

    /// Copy of one chunk's buffer, by linear chunk index.
    pub fn chunk(&self, index: usize) -> (buffer: Vec<u32>)
        requires
            self.wf(),
            index < self.total_spec(),
        ensures
            buffer@ == self@[index as int],
    {
        proof {
            self.lemma_view_shape();
        }
        let pixels_per_chunk: usize = (self.chunk_size.x as usize) * (self.chunk_size.y as usize);
        let mut buffer: Vec<u32> = Vec::new();
        let mut j: usize = 0;
        while j < pixels_per_chunk
            invariant
                self.wf(),
                index < self.total_spec(),
                pixels_per_chunk == self.ppc_spec(),
                j <= pixels_per_chunk,
                buffer@.len() == j,
                forall|k: int| 0 <= k < j ==> buffer@[k] == self@[index as int][k],
            decreases pixels_per_chunk - j,
        {
            let px = self.read(index, j);
            buffer.push(px);
            j = j + 1;
        }
        proof {
            self.lemma_view_shape();
            assert(buffer@ =~= self@[index as int]);
        }
        buffer
    }

    /// Write one pixel word of one chunk. The view changes by exactly one
    /// element of one chunk buffer; everything else is untouched.
    pub fn write_px(&mut self, chunk_index: usize, offset: usize, colour: u32)
        requires
            old(self).wf(),
            chunk_index < old(self).total_spec(),
            offset < old(self).ppc_spec(),
        ensures
            final(self).wf(),
            final(self).num_chunks_spec() == old(self).num_chunks_spec(),
            final(self).chunk_size_spec() == old(self).chunk_size_spec(),
            final(self)@ == old(self)@.update(
                chunk_index as int,
                old(self)@[chunk_index as int].update(offset as int, colour),
            ),
    {
        proof {
            self.lemma_view_shape();
            lemma_flat_slot(self.total_spec() as int, self.ppc_spec() as int, chunk_index as int, offset as int);
        }
        let pixels_per_chunk: usize = (self.chunk_size.x as usize) * (self.chunk_size.y as usize);
        let flat = chunk_index * pixels_per_chunk + offset;
        self.data.set(flat, colour);
        proof {
            let total = self.total_spec() as int;
            let ppc = self.ppc_spec() as int;
            let ci = chunk_index as int;
            let off = offset as int;
            let prev = old(self)@;
            assert forall|k: int| 0 <= k < total && k != ci implies self@[k] == prev[k] by {
                lemma_flat_slot(total, ppc, k, 0);
                lemma_flat_slot(total, ppc, ci, off);
                if k < ci {
                    lemma_mul_inequality(k + 1, ci, ppc);
                }
                if k > ci {
                    lemma_mul_inequality(ci + 1, k, ppc);
                }
                assert((k + 1) * ppc == k * ppc + ppc) by (nonlinear_arith);
                assert((ci + 1) * ppc == ci * ppc + ppc) by (nonlinear_arith);
                assert(self@[k] =~= prev[k]);
            }
            lemma_flat_slot(total, ppc, ci, off);
            assert(self@[ci] =~= prev[ci].update(off, colour));
            assert(self@ =~= prev.update(ci, prev[ci].update(off, colour)));
        }
    }

    /// Fill every pixel of every chunk with one colour.
    pub fn fill_all(&mut self, colour: u32)
        requires
            old(self).wf(),
        ensures
            final(self).wf(),
            final(self).num_chunks_spec() == old(self).num_chunks_spec(),
            final(self).chunk_size_spec() == old(self).chunk_size_spec(),
            forall|i: int, j: int|
                0 <= i < final(self).total_spec() && 0 <= j < final(self).ppc_spec()
                    ==> #[trigger] final(self)@[i][j] == colour,
    {
        proof {
            self.lemma_view_shape();
        }
        let n = self.data.len();
        self.data = fill_vec(n, colour);
        proof {
            self.lemma_view_shape();
            assert forall|i: int, j: int|
                0 <= i < self.total_spec() && 0 <= j < self.ppc_spec()
                    implies #[trigger] self@[i][j] == colour by {
                lemma_flat_slot(self.total_spec() as int, self.ppc_spec() as int, i, j);
            }
        }
    }
}

/// Linear index of a chunk key in row-major chunk-grid order.
pub open spec fn key_index(num_chunks: ChunkKey, key: ChunkKey) -> int {
    key.y as int * num_chunks.x as int + key.x as int
}

/// The clamped inclusive min corner recorded for a mark request with min
/// corner `lo` in a chunk of size `chunk_size`.
pub open spec fn clamped_min(lo: Vec2u, chunk_size: Vec2u) -> (int, int) {
    (min(lo.x as int, chunk_size.x - 1), min(lo.y as int, chunk_size.y - 1))
}

/// The clamped inclusive max corner recorded for a mark request with min
/// corner `lo` and extent `size` in a chunk of size `chunk_size`.
pub open spec fn clamped_max(lo: Vec2u, size: Vec2u, chunk_size: Vec2u) -> (int, int) {
    (
        min(clamped_min(lo, chunk_size).0 + size.x - 1, chunk_size.x - 1),
        min(clamped_min(lo, chunk_size).1 + size.y - 1, chunk_size.y - 1),
    )
}

/// The dirty entry for one chunk after unioning a mark request into it:
/// the clamped request rectangle itself if the chunk was clean, otherwise
/// the axis-aligned bounding box of the old rectangle and the request.
pub open spec fn marked_rect(prev: DirtyRect, chunk_size: Vec2u, lo: Vec2u, size: Vec2u) -> DirtyRect {
    let mn = clamped_min(lo, chunk_size);
    let mx = clamped_max(lo, size, chunk_size);
    if !prev.dirty {
        DirtyRect {
            min: Vec2u { x: mn.0 as u32, y: mn.1 as u32 },
            max: Vec2u { x: mx.0 as u32, y: mx.1 as u32 },
            dirty: true,
        }
    } else {
        DirtyRect {
            min: Vec2u {
                x: min(prev.min.x as int, mn.0) as u32,
                y: min(prev.min.y as int, mn.1) as u32,
            },
            max: Vec2u {
                x: max(prev.max.x as int, mx.0) as u32,
                y: max(prev.max.y as int, mx.1) as u32,
            },
            dirty: true,
        }
    }
}

/// The whole tracker state after one mark request: a zero-sized request
/// changes nothing, any other unions into the addressed chunk's entry.
pub open spec fn mark_rect_spec(
    rects: Seq<DirtyRect>,
    chunk_size: Vec2u,
    index: int,
    lo: Vec2u,
    size: Vec2u,
) -> Seq<DirtyRect> {
    if size.x == 0 || size.y == 0 {
        rects
    } else {
        rects.update(index, marked_rect(rects[index], chunk_size, lo, size))
    }
}

/// What draining one chunk returns: its inclusive rectangle if dirty.
pub open spec fn take_result_spec(rects: Seq<DirtyRect>, index: int) -> Option<(Vec2u, Vec2u)> {
    if rects[index].dirty {
        Some((rects[index].min, rects[index].max))
    } else {
        None
    }
}

/// The tracker state after draining one chunk: its entry reset to clean.
pub open spec fn take_rects_spec(rects: Seq<DirtyRect>, index: int) -> Seq<DirtyRect> {
    if rects[index].dirty {
        rects.update(
            index,
            DirtyRect { min: rects[index].min, max: rects[index].max, dirty: false },
        )
    } else {
        rects
    }
}

/// Dirty tracking per chunk: the union of all writes since the last drain,
/// one axis-aligned inclusive rectangle in chunk-local pixel coordinates per
/// chunk. Viewed abstractly as the sequence of per-chunk entries.
pub struct CanvasDirtyRects {
    num_chunks: ChunkKey,
    chunk_size: Vec2u,
    rects: Vec<DirtyRect>,
}

impl View for CanvasDirtyRects {
    type V = Seq<DirtyRect>;

    closed spec fn view(&self) -> Seq<DirtyRect> {
        self.rects@
    }
}

impl CanvasDirtyRects {
    /// The chunk grid resolution the tracker was created with.
    pub closed spec fn num_chunks_spec(&self) -> ChunkKey {
        self.num_chunks
    }

    /// The chunk size the tracker was created with.
    pub closed spec fn chunk_size_spec(&self) -> Vec2u {
        self.chunk_size
    }

    /// Total number of tracked chunks.
    pub open spec fn total_spec(&self) -> nat {
        self.num_chunks_spec().x as nat * self.num_chunks_spec().y as nat
    }

    /// Validity: positive dimensions, one entry per chunk, and every entry's
    /// rectangle within chunk bounds with min at most max.
    pub closed spec fn wf(&self) -> bool {
        &&& self.num_chunks.x > 0
        &&& self.num_chunks.y > 0
        &&& self.chunk_size.x > 0
        &&& self.chunk_size.y > 0
        &&& self.rects@.len() == self.total_spec()
        &&& forall|i: int|
            0 <= i < self.rects@.len() ==> rect_in_bounds(#[trigger] self.rects@[i], self.chunk_size)
    }

    /// What validity guarantees about the view: one in-bounds entry per chunk.
    pub proof fn lemma_wf_bounds(&self)
        requires
            self.wf(),
        ensures
            self@.len() == self.total_spec(),
            1 <= self.total_spec() <= 255 * 255,
            forall|i: int|
                0 <= i < self@.len() ==> rect_in_bounds(#[trigger] self@[i], self.chunk_size_spec()),
    {
        assert(1 <= self.total_spec() <= 255 * 255) by (nonlinear_arith)
            requires
                1 <= self.num_chunks.x <= 255,
                1 <= self.num_chunks.y <= 255,
                self.total_spec() == self.num_chunks.x as nat * self.num_chunks.y as nat,
        ;
    }

    /// Create dirty rect tracking with all chunks initially clean.
    pub fn new(num_chunks: ChunkKey, chunk_size: Vec2u) -> (tracker: Self)
        requires
            num_chunks.x > 0,
            num_chunks.y > 0,
            chunk_size.x > 0,
            chunk_size.y > 0,
        ensures
            tracker.wf(),
            tracker.num_chunks_spec() == num_chunks,
            tracker.chunk_size_spec() == chunk_size,
            forall|i: int|
                0 <= i < tracker.total_spec() ==> !(#[trigger] tracker@[i]).dirty,
    {
        proof {
            assert(num_chunks.x as int * num_chunks.y as int <= 255 * 255) by (nonlinear_arith)
                requires
                    num_chunks.x <= 255,
                    num_chunks.y <= 255,
            ;
        }
        let total: usize = (num_chunks.x as usize) * (num_chunks.y as usize);
        let mut rects: Vec<DirtyRect> = Vec::new();
        let mut i: usize = 0;
        while i < total
            invariant
                i <= total,
                rects@.len() == i,
                chunk_size.x > 0,
                chunk_size.y > 0,
                forall|k: int|
                    0 <= k < i ==> #[trigger] rects@[k]
                        == (DirtyRect { min: Vec2u { x: 0, y: 0 }, max: Vec2u { x: 0, y: 0 }, dirty: false }),
            decreases total - i,
        {
            rects.push(DirtyRect { min: Vec2u { x: 0, y: 0 }, max: Vec2u { x: 0, y: 0 }, dirty: false });
            i = i + 1;
        }
        Self { num_chunks, chunk_size, rects }
    }

    /// Mark a rectangle in chunk-local pixel coordinates as dirty, unioning
    /// with any existing dirty rectangle for the same chunk. `min` is the
    /// inclusive corner, `size` the extent; both are clamped to chunk bounds
    /// and a zero-sized request is ignored.
    pub fn mark_rect(&mut self, chunk_key: &ChunkKey, min: Vec2u, size: Vec2u)
        requires
            old(self).wf(),
            chunk_key.x < old(self).num_chunks_spec().x,
            chunk_key.y < old(self).num_chunks_spec().y,
        ensures
            final(self).wf(),
            final(self).num_chunks_spec() == old(self).num_chunks_spec(),
            final(self).chunk_size_spec() == old(self).chunk_size_spec(),
            final(self)@ == mark_rect_spec(
                old(self)@,
                old(self).chunk_size_spec(),
                key_index(old(self).num_chunks_spec(), *chunk_key),
                min,
                size,
            ),
    {
        if size.x == 0 || size.y == 0 {
            return;
        }
        proof {
            assert(chunk_key.y as int * self.num_chunks.x as int + chunk_key.x
                < self.num_chunks.x as int * self.num_chunks.y as int) by (nonlinear_arith)
                requires
                    chunk_key.x < self.num_chunks.x,
                    chunk_key.y < self.num_chunks.y,
            ;
            assert(chunk_key.y as int * self.num_chunks.x as int <= 255 * 255) by (nonlinear_arith)
                requires
                    chunk_key.y <= 255,
                    self.num_chunks.x <= 255,
            ;
        }
        let index: usize = (chunk_key.y as usize) * (self.num_chunks.x as usize)
            + (chunk_key.x as usize);

        // Clamp the request to chunk bounds.
        let x_bound = self.chunk_size.x - 1;
        let y_bound = self.chunk_size.y - 1;
        let mnx = if min.x <= x_bound { min.x } else { x_bound };
        let mny = if min.y <= y_bound { min.y } else { y_bound };
        let mxx = if size.x - 1 <= x_bound - mnx { mnx + (size.x - 1) } else { x_bound };
        let mxy = if size.y - 1 <= y_bound - mny { mny + (size.y - 1) } else { y_bound };

        let prev = self.rects[index];
        let entry = if !prev.dirty {
            DirtyRect { min: Vec2u { x: mnx, y: mny }, max: Vec2u { x: mxx, y: mxy }, dirty: true }
        } else {
            DirtyRect {
                min: Vec2u {
                    x: if prev.min.x <= mnx { prev.min.x } else { mnx },
                    y: if prev.min.y <= mny { prev.min.y } else { mny },
                },
                max: Vec2u {
                    x: if prev.max.x >= mxx { prev.max.x } else { mxx },
                    y: if prev.max.y >= mxy { prev.max.y } else { mxy },
                },
                dirty: true,
            }
        };
        self.rects.set(index, entry);
        proof {
            assert(self@ =~= mark_rect_spec(
                old(self)@,
                old(self).chunk_size_spec(),
                key_index(old(self).num_chunks_spec(), *chunk_key),
                min,
                size,
            ));
        }
    }

    /// Take and clear the dirty rectangle for a given chunk index, returning
    /// `(min, max)` inclusive if that chunk was dirty.
    pub fn take(&mut self, chunk_index: usize) -> (taken: Option<(Vec2u, Vec2u)>)
        requires
            old(self).wf(),
            chunk_index < old(self)@.len(),
        ensures
            final(self).wf(),
            final(self).num_chunks_spec() == old(self).num_chunks_spec(),
            final(self).chunk_size_spec() == old(self).chunk_size_spec(),
            taken == take_result_spec(old(self)@, chunk_index as int),
            final(self)@ == take_rects_spec(old(self)@, chunk_index as int),
            !final(self)@[chunk_index as int].dirty,
    {
        let rect = self.rects[chunk_index];
        if !rect.dirty {
            return None;
        }
        self.rects.set(
            chunk_index,
            DirtyRect { min: rect.min, max: rect.max, dirty: false },
        );
        proof {
            assert(self@ =~= take_rects_spec(old(self)@, chunk_index as int));
        }
        Some((rect.min, rect.max))
    }

    /// Number of tracked chunks.
    pub fn len(&self) -> (n: usize)
        ensures
            n == self@.len(),
    {
        self.rects.len()
    }
}

/// Pending canvas upload operations for one frame. The producer stage
/// fills it once per frame; the consumer stage receives a cloned snapshot
/// of the complete batch and drains it on submission.
#[derive(Clone)]
pub struct CanvasUploadOps {
    pub ops: Vec<CanvasUploadOp>,
}

impl Default for CanvasUploadOps {
    /// No uploads pending.
    fn default() -> (empty: Self)
        ensures
            empty.ops@.len() == 0,
    {
        CanvasUploadOps { ops: Vec::new() }
    }
}

impl CanvasUploadOps {
    /// Drain the frame's operations: returns the complete batch and leaves
    /// none pending. Descriptors are single-use.
    pub fn take_ops(&mut self) -> (ops: Vec<CanvasUploadOp>)
        ensures
            ops@ == old(self).ops@,
            final(self).ops@.len() == 0,
    {
        let mut out: Vec<CanvasUploadOp> = Vec::new();
        core::mem::swap(&mut out, &mut self.ops);
        out
    }
}

/// A dirty entry is within the bounds of its chunk.
pub open spec fn rect_in_bounds(rect: DirtyRect, chunk_size: Vec2u) -> bool {
    &&& rect.min.x <= rect.max.x < chunk_size.x
    &&& rect.min.y <= rect.max.y < chunk_size.y
}

/// The dirty entry that covers a whole chunk.
pub open spec fn full_rect(chunk_size: Vec2u) -> DirtyRect {
    DirtyRect {
        min: Vec2u { x: 0, y: 0 },
        max: Vec2u { x: (chunk_size.x - 1) as u32, y: (chunk_size.y - 1) as u32 },
        dirty: true,
    }
}

/// The dirty entry `rect` covers the chunk-local pixel `(lx, ly)`.
pub open spec fn covers(rect: DirtyRect, lx: int, ly: int) -> bool {
    &&& rect.dirty
    &&& rect.min.x <= lx <= rect.max.x
    &&& rect.min.y <= ly <= rect.max.y
}

/// After an in-bounds mark, the addressed chunk's entry covers every pixel
/// of the marked rectangle and everything it covered before, and every
/// other chunk's entry is untouched.
pub proof fn lemma_mark_coverage(
    rects: Seq<DirtyRect>,
    chunk_size: Vec2u,
    index: int,
    lo: Vec2u,
    size: Vec2u,
)
    requires
        0 <= index < rects.len(),
        1 <= size.x && lo.x + size.x <= chunk_size.x,
        1 <= size.y && lo.y + size.y <= chunk_size.y,
    ensures
        mark_rect_spec(rects, chunk_size, index, lo, size).len() == rects.len(),
        forall|px: int, py: int|
            lo.x <= px < lo.x + size.x && lo.y <= py < lo.y + size.y
                ==> covers(mark_rect_spec(rects, chunk_size, index, lo, size)[index], px, py),
        forall|j: int|
            0 <= j < rects.len() && j != index
                ==> mark_rect_spec(rects, chunk_size, index, lo, size)[j] == rects[j],
        forall|px: int, py: int|
            covers(rects[index], px, py)
                ==> covers(mark_rect_spec(rects, chunk_size, index, lo, size)[index], px, py),
        rects[index].dirty ==> mark_rect_spec(rects, chunk_size, index, lo, size)[index].dirty,
        mark_rect_spec(rects, chunk_size, index, lo, size)[index].dirty,
{
}

/// Marking two rectangles into the same clean chunk accumulates exactly the
/// axis-aligned bounding box of their union: draining that chunk afterwards
/// returns the box, and leaves the chunk clean.
pub proof fn lemma_dirty_union(
    rects: Seq<DirtyRect>,
    chunk_size: Vec2u,
    i: int,
    lo1: Vec2u,
    size1: Vec2u,
    lo2: Vec2u,
    size2: Vec2u,
)
    requires
        0 <= i < rects.len(),
        !rects[i].dirty,
        1 <= size1.x && lo1.x + size1.x <= chunk_size.x,
        1 <= size1.y && lo1.y + size1.y <= chunk_size.y,
        1 <= size2.x && lo2.x + size2.x <= chunk_size.x,
        1 <= size2.y && lo2.y + size2.y <= chunk_size.y,
    ensures
        take_result_spec(
            mark_rect_spec(mark_rect_spec(rects, chunk_size, i, lo1, size1), chunk_size, i, lo2, size2),
            i,
        ) == Some((
            Vec2u { x: min(lo1.x as int, lo2.x as int) as u32, y: min(lo1.y as int, lo2.y as int) as u32 },
            Vec2u {
                x: max(lo1.x + size1.x - 1, lo2.x + size2.x - 1) as u32,
                y: max(lo1.y + size1.y - 1, lo2.y + size2.y - 1) as u32,
            },
        )),
        !take_rects_spec(
            mark_rect_spec(mark_rect_spec(rects, chunk_size, i, lo1, size1), chunk_size, i, lo2, size2),
            i,
        )[i].dirty,
{
}

} // verus!
