//! The draw-op processor.
//!
//! Drawing requests are reduced to sequences of single-pixel writes in
//! source order; every write lands at a wrapped global position. The
//! processor splits each request into contiguous runs that never cross a
//! canvas-row or chunk-row boundary, copies them into the chunk store
//! through one shared primitive, and records the touched rectangle of each
//! run in the dirty tracker.

use vstd::prelude::*;
use vstd::arithmetic::div_mod::{
    lemma_add_mod_noop, lemma_fundamental_div_mod, lemma_fundamental_div_mod_converse,
    lemma_mod_bound, lemma_mod_self_0, lemma_multiply_divide_lt, lemma_small_mod,
};
use vstd::arithmetic::mul::lemma_mul_inequality;
use crate::messages::{ClearCanvas, DrawPixel, DrawPixels, DrawRect, DrawSpan};
use crate::resources::{
    covers, full_rect, key_index, lemma_mark_coverage, mark_rect_spec, CanvasCpuChunks,
    CanvasDirtyRects,
};
use crate::types::{CanvasLayout, ChunkKey, DirtyRect, Vec2u};

verus! {

/// The shape that the chunk store's view has under a given layout: one
/// buffer per chunk, each holding exactly one word per chunk pixel.
pub open spec fn store_shaped(layout: CanvasLayout, chunks: Seq<Seq<u32>>) -> bool {
    &&& chunks.len() == layout.total_chunks()
    &&& forall|i: int|
        0 <= i < chunks.len() ==> (#[trigger] chunks[i]).len() == layout.pixels_per_chunk()
}

/// Agreement between the geometry and the mutable frame state: the store
/// and the tracker were created for exactly this layout's chunk grid.
pub open spec fn consistent(
    layout: CanvasLayout,
    store: CanvasCpuChunks,
    dirty: CanvasDirtyRects,
) -> bool {
    &&& layout.wf()
    &&& store.wf()
    &&& dirty.wf()
    &&& store.chunk_size_spec() == layout.chunk_size
    &&& store.num_chunks_spec().x == layout.ncx()
    &&& store.num_chunks_spec().y == layout.ncy()
    &&& dirty.chunk_size_spec() == layout.chunk_size
    &&& dirty.num_chunks_spec() == store.num_chunks_spec()
}

/// A consistent store is shaped for its layout, and the store's own counts
/// coincide with the layout's.
pub proof fn lemma_consistent_shape(layout: CanvasLayout, store: CanvasCpuChunks)
    requires
        layout.wf(),
        store.wf(),
        store.chunk_size_spec() == layout.chunk_size,
        store.num_chunks_spec().x == layout.ncx(),
        store.num_chunks_spec().y == layout.ncy(),
    ensures
        store_shaped(layout, store@),
        store.total_spec() == layout.total_chunks(),
        store.ppc_spec() == layout.pixels_per_chunk(),
        1 <= store.total_spec() <= usize::MAX,
        1 <= store.ppc_spec() <= usize::MAX,
{
    store.lemma_view_shape();
}

/// The whole canvas as one flat sequence of packed colour words, row-major
/// in global wrapped coordinates: entry `y * width + x` is the word stored
/// for the wrapped position `(x, y)`.
pub open spec fn canvas_flat(layout: CanvasLayout, chunks: Seq<Seq<u32>>) -> Seq<u32> {
    Seq::new(
        layout.total_pixels(),
        |g: int|
            chunks[layout.chunk_index_of(
                g % layout.canvas_size.x as int,
                g / layout.canvas_size.x as int,
            )][layout.local_offset_of(
                g % layout.canvas_size.x as int,
                g / layout.canvas_size.x as int,
            )],
    )
}

/// A batch of single-pixel writes, applied strictly in order: each entry is
/// a flat canvas position paired with the colour written there.
pub open spec fn write_seq(f: Seq<u32>, ws: Seq<(int, u32)>) -> Seq<u32>
    decreases ws.len(),
{
    if ws.len() == 0 {
        f
    } else {
        write_seq(f.update(ws[0].0, ws[0].1), ws.drop_first())
    }
}

/// Every write of a batch targets a position inside a canvas of `n` pixels.
pub open spec fn writes_in_range(ws: Seq<(int, u32)>, n: int) -> bool {
    forall|k: int| 0 <= k < ws.len() ==> 0 <= (#[trigger] ws[k]).0 < n
}

/// Applying a concatenation of two batches equals applying them in turn.
proof fn lemma_write_seq_app(f: Seq<u32>, a: Seq<(int, u32)>, b: Seq<(int, u32)>)
    ensures
        write_seq(f, a + b) == write_seq(write_seq(f, a), b),
    decreases a.len(),
{
    if a.len() == 0 {
        assert(a + b =~= b);
    } else {
        assert((a + b).drop_first() =~= a.drop_first() + b);
        assert((a + b)[0] == a[0]);
        lemma_write_seq_app(f.update(a[0].0, a[0].1), a.drop_first(), b);
    }
}

/// Extending the applied prefix of a batch by one write updates exactly
/// that write's position.
proof fn lemma_write_seq_take_step(f: Seq<u32>, ws: Seq<(int, u32)>, k: int)
    requires
        0 <= k < ws.len(),
    ensures
        write_seq(f, ws.take(k + 1)) == write_seq(f, ws.take(k)).update(ws[k].0, ws[k].1),
{
    let single = seq![ws[k]];
    assert(ws.take(k + 1) =~= ws.take(k) + single);
    lemma_write_seq_app(f, ws.take(k), single);
    let g = write_seq(f, ws.take(k));
    let h = g.update(ws[k].0, ws[k].1);
    assert(single.drop_first() =~= Seq::<(int, u32)>::empty());
    assert(write_seq(g, single) == write_seq(h, single.drop_first()));
    assert(write_seq(h, Seq::<(int, u32)>::empty()) == h);
}

/// Writing one word into one chunk buffer changes the flat canvas at
/// exactly the corresponding flat position.
pub proof fn lemma_canvas_flat_update(layout: CanvasLayout, chunks: Seq<Seq<u32>>, x: int, y: int, v: u32)
    requires
        layout.wf(),
        store_shaped(layout, chunks),
        0 <= x < layout.canvas_size.x,
        0 <= y < layout.canvas_size.y,
    ensures
        canvas_flat(
            layout,
            chunks.update(
                layout.chunk_index_of(x, y),
                chunks[layout.chunk_index_of(x, y)].update(layout.local_offset_of(x, y), v),
            ),
        ) == canvas_flat(layout, chunks).update(layout.flat_index_of(x, y), v),
{
    let cw = layout.canvas_size.x as int;
    let ch = layout.canvas_size.y as int;
    let ci = layout.chunk_index_of(x, y);
    let off = layout.local_offset_of(x, y);
    let g0 = layout.flat_index_of(x, y);
    layout.lemma_products();
    layout.lemma_addr_inverse(x, y);
    assert(0 <= g0 < cw * ch) by (nonlinear_arith)
        requires
            0 <= x < cw,
            0 <= y < ch,
            g0 == y * cw + x,
    ;
    assert(cw * ch == layout.total_pixels()) by (nonlinear_arith)
        requires
            layout.total_pixels() == layout.canvas_size.x as nat * layout.canvas_size.y as nat,
            cw == layout.canvas_size.x as int,
            ch == layout.canvas_size.y as int,
    ;
    let updated = chunks.update(ci, chunks[ci].update(off, v));
    let lhs = canvas_flat(layout, updated);
    let rhs = canvas_flat(layout, chunks).update(g0, v);
    assert forall|g: int| 0 <= g < layout.total_pixels() implies lhs[g] == rhs[g] by {
        let gx = g % cw;
        let gy = g / cw;
        lemma_mod_bound(g, cw);
        lemma_fundamental_div_mod(g, cw);
        assert(gy < ch) by {
            assert(ch * cw == cw * ch) by (nonlinear_arith);
            lemma_multiply_divide_lt(g, cw, ch);
        }
        assert(0 <= gy);
        layout.lemma_addr_inverse(gx, gy);
        let gci = layout.chunk_index_of(gx, gy);
        let goff = layout.local_offset_of(gx, gy);
        if g == g0 {
            lemma_fundamental_div_mod_converse(g0, cw, y, x);
            assert(gx == x && gy == y);
            assert(lhs[g] == updated[ci][off]);
            assert(updated[ci][off] == v);
        } else {
            if gci == ci && goff == off {
                layout.lemma_addr_injective(gx, gy, x, y);
                assert(g == gy * cw + gx);
                assert(false);
            }
            assert(lhs[g] == updated[gci][goff]);
            if gci == ci {
                assert(updated[gci][goff] == chunks[gci][goff]);
            }
            assert(lhs[g] == chunks[gci][goff]);
        }
    }
    assert(lhs =~= rhs);
}

/// The single-pixel writes performed by one contiguous run: `len` colours
/// taken from `colours` starting at `src`, landing at consecutive flat
/// canvas positions starting at the wrapped position `(x, y)`.
pub open spec fn run_writes(
    layout: CanvasLayout,
    x: int,
    y: int,
    colours: Seq<u32>,
    src: int,
    len: nat,
) -> Seq<(int, u32)> {
    Seq::new(len, |j: int| (y * layout.canvas_size.x as int + x + j, colours[src + j]))
}

/// Within a run that respects `max_run_spec`, every pixel shares the start
/// pixel's chunk, at consecutive local offsets and flat positions.
proof fn lemma_run_step(layout: CanvasLayout, x: int, y: int, j: int, len: int)
    requires
        layout.wf(),
        0 <= x < layout.canvas_size.x,
        0 <= y < layout.canvas_size.y,
        0 <= j < len,
        len <= layout.max_run_spec(x),
    ensures
        0 <= x + j < layout.canvas_size.x,
        layout.chunk_index_of(x + j, y) == layout.chunk_index_of(x, y),
        layout.local_offset_of(x + j, y) == layout.local_offset_of(x, y) + j,
        layout.flat_index_of(x + j, y) == layout.flat_index_of(x, y) + j,
{
    let csx = layout.chunk_size.x as int;
    let cx = x / csx;
    let lx = x % csx;
    lemma_fundamental_div_mod(x, csx);
    lemma_mod_bound(x, csx);
    lemma_fundamental_div_mod_converse(x + j, csx, cx, lx + j);
}

/// The shared write primitive: copy a pre-split colour run into its owning
/// chunk's buffer and mark the run's one-row rectangle dirty. The run must
/// be no longer than `max_run_len` at its start position, so it never
/// crosses the canvas row end or the chunk row end; wrapping is exclusively
/// the caller's responsibility.
pub fn write_run(
    layout: CanvasLayout,
    store: &mut CanvasCpuChunks,
    dirty: &mut CanvasDirtyRects,
    pos: Vec2u,
    colours: &Vec<u32>,
    src: usize,
    len: usize,
)
    requires
        consistent(layout, *old(store), *old(dirty)),
        pos.x < layout.canvas_size.x,
        pos.y < layout.canvas_size.y,
        1 <= len,
        len <= layout.max_run_spec(pos.x as int),
        src + len <= colours.len(),
    ensures
        consistent(layout, *final(store), *final(dirty)),
        final(store).num_chunks_spec() == old(store).num_chunks_spec(),
        final(store).chunk_size_spec() == old(store).chunk_size_spec(),
        final(dirty).num_chunks_spec() == old(dirty).num_chunks_spec(),
        final(dirty).chunk_size_spec() == old(dirty).chunk_size_spec(),
        canvas_flat(layout, final(store)@) == write_seq(
            canvas_flat(layout, old(store)@),
            run_writes(layout, pos.x as int, pos.y as int, colours@, src as int, len as nat),
        ),
        final(dirty)@ == mark_rect_spec(
            old(dirty)@,
            layout.chunk_size,
            layout.chunk_index_of(pos.x as int, pos.y as int),
            (Vec2u {
                x: (pos.x as int % layout.chunk_size.x as int) as u32,
                y: (pos.y as int % layout.chunk_size.y as int) as u32,
            }),
            (Vec2u { x: len as u32, y: 1 }),
        ),
{
    proof {
        lemma_consistent_shape(layout, *store);
        layout.lemma_addr_inverse(pos.x as int, pos.y as int);
        layout.lemma_products();
    }
    let ghost orig_store = *store;
    let ghost rw = run_writes(layout, pos.x as int, pos.y as int, colours@, src as int, len as nat);

    let chunk_xy = layout.chunk_xy(pos);
    let key = layout.chunk_key(chunk_xy);
    let local = layout.local_xy(pos);
    let nc = layout.num_chunks();
    let stride = store.stride();
    proof {
        assert(key.y as int * nc.x as int <= 255 * 255) by (nonlinear_arith)
            requires
                key.y <= 255,
                nc.x <= 255,
        ;
        let csx = layout.chunk_size.x as int;
        let csy = layout.chunk_size.y as int;
        let ly = pos.y as int % csy;
        lemma_mul_inequality(ly + 1, csy, csx);
        assert((ly + 1) * csx == ly * csx + csx) by (nonlinear_arith);
        assert(csy * csx == csx * csy) by (nonlinear_arith);
    }
    let chunk_index: usize = (key.y as usize) * (nc.x as usize) + (key.x as usize);
    let offset: usize = (local.y as usize) * stride + (local.x as usize);
    proof {
        assert(chunk_index == layout.chunk_index_of(pos.x as int, pos.y as int));
        assert(offset == layout.local_offset_of(pos.x as int, pos.y as int));
        assert(offset + len <= store.ppc_spec());
    }

    let mut j: usize = 0;
    while j < len
        invariant
            consistent(layout, *store, *dirty),
            store.num_chunks_spec() == orig_store.num_chunks_spec(),
            store.chunk_size_spec() == orig_store.chunk_size_spec(),
            store_shaped(layout, orig_store@),
            j <= len,
            1 <= len,
            pos.x < layout.canvas_size.x,
            pos.y < layout.canvas_size.y,
            len <= layout.max_run_spec(pos.x as int),
            src + len <= colours.len(),
            chunk_index == layout.chunk_index_of(pos.x as int, pos.y as int),
            offset == layout.local_offset_of(pos.x as int, pos.y as int),
            offset + len <= store.ppc_spec(),
            chunk_index < store.total_spec(),
            rw == run_writes(layout, pos.x as int, pos.y as int, colours@, src as int, len as nat),
            canvas_flat(layout, store@) == write_seq(canvas_flat(layout, orig_store@), rw.take(j as int)),
        decreases len - j,
    {
        let ghost before = store@;
        proof {
            lemma_consistent_shape(layout, *store);
            lemma_run_step(layout, pos.x as int, pos.y as int, j as int, len as int);
            layout.lemma_addr_inverse(pos.x as int + j, pos.y as int);
        }
        let colour = colours[src + j];
        store.write_px(chunk_index, offset + j, colour);
        proof {
            lemma_canvas_flat_update(layout, before, pos.x as int + j, pos.y as int, colour);
            lemma_write_seq_take_step(canvas_flat(layout, orig_store@), rw, j as int);
            assert(rw[j as int].0 == layout.flat_index_of(pos.x as int + j, pos.y as int));
            assert(rw[j as int].1 == colour);
        }
        j = j + 1;
    }
    proof {
        assert(rw.take(len as int) =~= rw);
    }
    dirty.mark_rect(&key, Vec2u { x: local.x, y: local.y }, Vec2u { x: len as u32, y: 1 });
    proof {
        assert(key_index(dirty.num_chunks_spec(), key)
            == layout.chunk_index_of(pos.x as int, pos.y as int));
    }
}

/// Why a drawing request is rejected: its parallel arrays disagree in
/// length, or a rectangle has a zero-sized extent.
#[derive(Clone, Copy, PartialEq, Eq, Structural, Debug)]
pub enum DrawError {
    LengthMismatch,
    ZeroSize,
}

/// Wrapped x coordinate of a request position.
pub open spec fn wrapped_x(layout: CanvasLayout, p: Vec2u) -> int {
    p.x as int % layout.canvas_size.x as int
}

/// Wrapped y coordinate of a request position.
pub open spec fn wrapped_y(layout: CanvasLayout, p: Vec2u) -> int {
    p.y as int % layout.canvas_size.y as int
}

/// Flat canvas position of a request position, after wrapping.
pub open spec fn pixel_flat(layout: CanvasLayout, p: Vec2u) -> int {
    layout.flat_index_of(wrapped_x(layout, p), wrapped_y(layout, p))
}

/// Chunk owning a request position, after wrapping.
pub open spec fn pixel_chunk(layout: CanvasLayout, p: Vec2u) -> int {
    layout.chunk_index_of(wrapped_x(layout, p), wrapped_y(layout, p))
}

/// Chunk-local x coordinate of a request position, after wrapping.
pub open spec fn pixel_lx(layout: CanvasLayout, p: Vec2u) -> int {
    wrapped_x(layout, p) % layout.chunk_size.x as int
}

/// Chunk-local y coordinate of a request position, after wrapping.
pub open spec fn pixel_ly(layout: CanvasLayout, p: Vec2u) -> int {
    wrapped_y(layout, p) % layout.chunk_size.y as int
}

/// Chunk owning the flat canvas position `g`.
pub open spec fn write_chunk(layout: CanvasLayout, g: int) -> int {
    layout.chunk_index_of(g % layout.canvas_size.x as int, g / layout.canvas_size.x as int)
}

/// The dirty tracker entry for the chunk owning flat position `g` covers
/// the chunk-local pixel that `g` resolves to.
pub open spec fn write_covered(layout: CanvasLayout, rects: Seq<DirtyRect>, g: int) -> bool {
    covers(
        rects[write_chunk(layout, g)],
        (g % layout.canvas_size.x as int) % layout.chunk_size.x as int,
        (g / layout.canvas_size.x as int) % layout.chunk_size.y as int,
    )
}

/// Some write of the batch lands in chunk `i`.
pub open spec fn touches_chunk(layout: CanvasLayout, ws: Seq<(int, u32)>, i: int) -> bool {
    exists|k: int| 0 <= k < ws.len() && write_chunk(layout, (#[trigger] ws[k]).0) == i
}

/// Some position of the list lands in chunk `i` after wrapping.
pub open spec fn chunk_targeted(layout: CanvasLayout, positions: Seq<Vec2u>, i: int) -> bool {
    exists|k: int| 0 <= k < positions.len() && pixel_chunk(layout, #[trigger] positions[k]) == i
}

/// The flat canvas filled with one colour everywhere.
pub open spec fn fill_flat(layout: CanvasLayout, colour: u32) -> Seq<u32> {
    Seq::new(layout.total_pixels(), |g: int| colour)
}

/// The single-pixel writes of a pixel-list request, in source order: each
/// position wrapped and paired with its colour.
pub open spec fn pixel_writes(
    layout: CanvasLayout,
    positions: Seq<Vec2u>,
    colours: Seq<u32>,
) -> Seq<(int, u32)> {
    Seq::new(positions.len(), |k: int| (pixel_flat(layout, positions[k]), colours[k]))
}

/// The single-pixel writes of a rectangle request, row-major in source
/// order: source index `k` lands at column `start.x + k % size.x` and row
/// `start.y + k / size.x`, each wrapped toroidally.
pub open spec fn rect_writes(
    layout: CanvasLayout,
    start: Vec2u,
    size: Vec2u,
    colours: Seq<u32>,
) -> Seq<(int, u32)> {
    Seq::new(
        size.x as nat * size.y as nat,
        |k: int|
            (
                layout.flat_index_of(
                    (start.x as int + k % size.x as int) % layout.canvas_size.x as int,
                    (start.y as int + k / size.x as int) % layout.canvas_size.y as int,
                ),
                colours[k],
            ),
    )
}

/// The single-pixel writes of a span request: source index `k` lands at
/// the `k`-th flat canvas position after the wrapped start, advancing
/// across X, then to the next row, and wrapping from the canvas's last
/// pixel back to its first.
pub open spec fn span_writes(layout: CanvasLayout, start: Vec2u, colours: Seq<u32>) -> Seq<(int, u32)> {
    Seq::new(
        colours.len(),
        |k: int| ((pixel_flat(layout, start) + k) % layout.total_pixels() as int, colours[k]),
    )
}

/// Applying a one-write batch is one update.
proof fn lemma_write_seq_single(f: Seq<u32>, w: (int, u32))
    ensures
        write_seq(f, seq![w]) == f.update(w.0, w.1),
{
    let single = seq![w];
    assert(single.drop_first() =~= Seq::<(int, u32)>::empty());
    assert(write_seq(f, single) == write_seq(f.update(w.0, w.1), single.drop_first()));
    assert(write_seq(f.update(w.0, w.1), Seq::<(int, u32)>::empty()) == f.update(w.0, w.1));
}

/// Reading back through the layout: entry `y * width + x` of the flat
/// canvas is exactly the word at the chunk and offset that the layout
/// resolves for the wrapped position `(x, y)`.
pub proof fn lemma_flat_read(layout: CanvasLayout, chunks: Seq<Seq<u32>>, x: int, y: int)
    requires
        layout.wf(),
        store_shaped(layout, chunks),
        0 <= x < layout.canvas_size.x,
        0 <= y < layout.canvas_size.y,
    ensures
        0 <= layout.flat_index_of(x, y) < layout.total_pixels(),
        canvas_flat(layout, chunks)[layout.flat_index_of(x, y)]
            == chunks[layout.chunk_index_of(x, y)][layout.local_offset_of(x, y)],
{
    let cw = layout.canvas_size.x as int;
    let ch = layout.canvas_size.y as int;
    let g0 = layout.flat_index_of(x, y);
    layout.lemma_products();
    assert(0 <= g0 < cw * ch) by (nonlinear_arith)
        requires
            0 <= x < cw,
            0 <= y < ch,
            g0 == y * cw + x,
    ;
    assert(cw * ch == layout.total_pixels()) by (nonlinear_arith)
        requires
            layout.total_pixels() == layout.canvas_size.x as nat * layout.canvas_size.y as nat,
            cw == layout.canvas_size.x as int,
            ch == layout.canvas_size.y as int,
    ;
    lemma_fundamental_div_mod_converse(g0, cw, y, x);
}

/// Adding to a wrapped coordinate wraps the same way as adding to the
/// coordinate it came from.
proof fn lemma_wrapped_add(base: int, x: int, j: int, m: int)
    requires
        m > 0,
        0 <= base,
        0 <= j,
        x == base % m,
    ensures
        (base + j) % m == (x + j) % m,
{
    lemma_mod_bound(base, m);
    lemma_small_mod(x as nat, m as nat);
    lemma_add_mod_noop(base, j, m);
    lemma_add_mod_noop(x, j, m);
}

/// Decoding a flat canvas position: its coordinates are in canvas range
/// and its owning chunk and local offset are in range.
proof fn lemma_flat_decode(layout: CanvasLayout, g: int)
    requires
        layout.wf(),
        0 <= g < layout.total_pixels(),
    ensures
        0 <= (g % layout.canvas_size.x as int) < layout.canvas_size.x as int,
        0 <= (g / layout.canvas_size.x as int) < layout.canvas_size.y as int,
        0 <= write_chunk(layout, g) < layout.total_chunks(),
        g == layout.flat_index_of(g % layout.canvas_size.x as int, g / layout.canvas_size.x as int),
{
    let cw = layout.canvas_size.x as int;
    let ch = layout.canvas_size.y as int;
    layout.lemma_products();
    assert(layout.total_pixels() == cw * ch) by (nonlinear_arith)
        requires
            layout.total_pixels() == layout.canvas_size.x as nat * layout.canvas_size.y as nat,
            cw == layout.canvas_size.x as int,
            ch == layout.canvas_size.y as int,
    ;
    lemma_mod_bound(g, cw);
    lemma_fundamental_div_mod(g, cw);
    assert((g / cw) < ch) by {
        assert(ch * cw == cw * ch) by (nonlinear_arith);
        lemma_multiply_divide_lt(g, cw, ch);
    }
    assert(0 <= g / cw) by {
        vstd::arithmetic::div_mod::lemma_div_pos_is_pos(g, cw);
    }
    layout.lemma_addr_inverse(g % cw, g / cw);
}

/// A mark whose rectangle lies within chunk bounds never uncovers a
/// covered write target, keeps every other chunk's entry unchanged, and
/// keeps dirty chunks dirty.
proof fn lemma_mark_preserves(
    layout: CanvasLayout,
    before: Seq<DirtyRect>,
    ci: int,
    lo: Vec2u,
    size: Vec2u,
    g: int,
)
    requires
        layout.wf(),
        before.len() == layout.total_chunks(),
        0 <= ci < before.len(),
        1 <= size.x && lo.x + size.x <= layout.chunk_size.x,
        1 <= size.y && lo.y + size.y <= layout.chunk_size.y,
        0 <= g < layout.total_pixels(),
        write_covered(layout, before, g),
    ensures
        write_covered(layout, mark_rect_spec(before, layout.chunk_size, ci, lo, size), g),
{
    lemma_flat_decode(layout, g);
    lemma_mark_coverage(before, layout.chunk_size, ci, lo, size);
    if write_chunk(layout, g) != ci {
        assert(mark_rect_spec(before, layout.chunk_size, ci, lo, size)[write_chunk(layout, g)]
            == before[write_chunk(layout, g)]);
    }
}

/// Every write of a rectangle request targets a flat position inside the
/// canvas, and carries the request's colour for its source index.
proof fn lemma_rect_writes_shape(layout: CanvasLayout, start: Vec2u, size: Vec2u, colours: Seq<u32>)
    requires
        layout.wf(),
    ensures
        writes_in_range(
            rect_writes(layout, start, size, colours),
            layout.total_pixels() as int,
        ),
        forall|k: int|
            0 <= k < size.x as int * size.y as int
                ==> (#[trigger] rect_writes(layout, start, size, colours)[k]).1 == colours[k],
{
    let ws = rect_writes(layout, start, size, colours);
    let cw = layout.canvas_size.x as int;
    let ch = layout.canvas_size.y as int;
    assert forall|k: int| 0 <= k < ws.len() implies 0 <= (#[trigger] ws[k]).0
        < layout.total_pixels() as int by {
        let wx = (start.x as int + k % size.x as int) % cw;
        let wy = (start.y as int + k / size.x as int) % ch;
        lemma_mod_bound(start.x as int + k % size.x as int, cw);
        lemma_mod_bound(start.y as int + k / size.x as int, ch);
        lemma_flat_read_range(layout, wx, wy);
    }
}

/// Every write of a span request targets a flat position inside the
/// canvas, and carries the request's colour for its source index.
proof fn lemma_span_writes_shape(layout: CanvasLayout, start: Vec2u, colours: Seq<u32>)
    requires
        layout.wf(),
    ensures
        writes_in_range(span_writes(layout, start, colours), layout.total_pixels() as int),
        forall|k: int|
            0 <= k < colours.len()
                ==> (#[trigger] span_writes(layout, start, colours)[k]).1 == colours[k],
{
    let ws = span_writes(layout, start, colours);
    assert forall|k: int| 0 <= k < ws.len() implies 0 <= (#[trigger] ws[k]).0
        < layout.total_pixels() as int by {
        layout.lemma_products();
        lemma_mod_bound(pixel_flat(layout, start) + k, layout.total_pixels() as int);
    }
}

/// A wrapped coordinate pair has its flat position in canvas range.
proof fn lemma_flat_read_range(layout: CanvasLayout, x: int, y: int)
    requires
        layout.wf(),
        0 <= x < layout.canvas_size.x,
        0 <= y < layout.canvas_size.y,
    ensures
        0 <= layout.flat_index_of(x, y) < layout.total_pixels(),
{
    let cw = layout.canvas_size.x as int;
    let ch = layout.canvas_size.y as int;
    layout.lemma_products();
    assert(0 <= y * cw + x < cw * ch) by (nonlinear_arith)
        requires
            0 <= x < cw,
            0 <= y < ch,
    ;
    assert(cw * ch == layout.total_pixels()) by (nonlinear_arith)
        requires
            layout.total_pixels() == layout.canvas_size.x as nat * layout.canvas_size.y as nat,
            cw == layout.canvas_size.x as int,
            ch == layout.canvas_size.y as int,
    ;
}

/// Write/read consistency: after writing colour `c` for the wrapped
/// position `(x, y)`, the chunk and offset that the layout resolves for
/// `(x, y)` hold exactly `c`, whatever the buffers held before.
pub proof fn lemma_write_read_consistency(
    layout: CanvasLayout,
    chunks: Seq<Seq<u32>>,
    x: int,
    y: int,
    c: u32,
)
    requires
        layout.wf(),
        store_shaped(layout, chunks),
        0 <= x < layout.canvas_size.x,
        0 <= y < layout.canvas_size.y,
    ensures
        chunks.update(
            layout.chunk_index_of(x, y),
            chunks[layout.chunk_index_of(x, y)].update(layout.local_offset_of(x, y), c),
        )[layout.chunk_index_of(x, y)][layout.local_offset_of(x, y)] == c,
        canvas_flat(
            layout,
            chunks.update(
                layout.chunk_index_of(x, y),
                chunks[layout.chunk_index_of(x, y)].update(layout.local_offset_of(x, y), c),
            ),
        )[layout.flat_index_of(x, y)] == c,
{
    layout.lemma_addr_inverse(x, y);
    let updated = chunks.update(
        layout.chunk_index_of(x, y),
        chunks[layout.chunk_index_of(x, y)].update(layout.local_offset_of(x, y), c),
    );
    assert(store_shaped(layout, updated));
    lemma_flat_read(layout, updated, x, y);
}

/// Process a clear request: fill every chunk buffer with one colour and
/// mark every chunk fully dirty.
pub fn apply_clear(
    layout: CanvasLayout,
    store: &mut CanvasCpuChunks,
    dirty: &mut CanvasDirtyRects,
    msg: &ClearCanvas,
)
    requires
        consistent(layout, *old(store), *old(dirty)),
    ensures
        consistent(layout, *final(store), *final(dirty)),
        final(store).num_chunks_spec() == old(store).num_chunks_spec(),
        final(store).chunk_size_spec() == old(store).chunk_size_spec(),
        final(dirty).num_chunks_spec() == old(dirty).num_chunks_spec(),
        final(dirty).chunk_size_spec() == old(dirty).chunk_size_spec(),
        canvas_flat(layout, final(store)@) == fill_flat(layout, msg.rgba_u32),
        forall|i: int|
            0 <= i < final(dirty)@.len()
                ==> final(dirty)@[i] == full_rect(layout.chunk_size),
{
    proof {
        lemma_consistent_shape(layout, *store);
        layout.lemma_products();
    }
    store.fill_all(msg.rgba_u32);
    proof {
        lemma_consistent_shape(layout, *store);
        let cw = layout.canvas_size.x as int;
        let ch = layout.canvas_size.y as int;
        assert forall|g: int| 0 <= g < layout.total_pixels()
            implies canvas_flat(layout, store@)[g] == msg.rgba_u32 by {
            let gx = g % cw;
            let gy = g / cw;
            lemma_mod_bound(g, cw);
            lemma_fundamental_div_mod(g, cw);
            assert(gy < ch) by {
                assert(ch * cw == cw * ch) by (nonlinear_arith);
                assert(layout.total_pixels() == cw * ch) by (nonlinear_arith)
                    requires
                        layout.total_pixels() == layout.canvas_size.x as nat
                            * layout.canvas_size.y as nat,
                        cw == layout.canvas_size.x as int,
                        ch == layout.canvas_size.y as int,
                ;
                lemma_multiply_divide_lt(g, cw, ch);
            }
            layout.lemma_addr_inverse(gx, gy);
        }
        assert(canvas_flat(layout, store@) =~= fill_flat(layout, msg.rgba_u32));
    }

    let ghost dirty_start = *dirty;
    let nc = layout.num_chunks();
    let total = dirty.len();
    proof {
        dirty.lemma_wf_bounds();
        assert(dirty.total_spec() == nc.x as nat * nc.y as nat);
    }
    let mut i: usize = 0;
    while i < total
        invariant
            consistent(layout, *store, *dirty),
            dirty.num_chunks_spec() == dirty_start.num_chunks_spec(),
            dirty.chunk_size_spec() == dirty_start.chunk_size_spec(),
            dirty_start.wf(),
            nc.x == layout.ncx(),
            nc.y == layout.ncy(),
            nc.x == dirty.num_chunks_spec().x,
            nc.y == dirty.num_chunks_spec().y,
            total == dirty@.len(),
            i <= total,
            forall|j: int| 0 <= j < i ==> dirty@[j] == full_rect(layout.chunk_size),
            forall|j: int| i <= j < total ==> dirty@[j] == dirty_start@[j],
        decreases total - i,
    {
        proof {
            dirty.lemma_wf_bounds();
            lemma_mod_bound(i as int, nc.x as int);
            lemma_fundamental_div_mod(i as int, nc.x as int);
            assert(nc.x as int * nc.y as int == dirty.total_spec()) by (nonlinear_arith)
                requires
                    dirty.total_spec() == dirty.num_chunks_spec().x as nat
                        * dirty.num_chunks_spec().y as nat,
                    nc.x == dirty.num_chunks_spec().x,
                    nc.y == dirty.num_chunks_spec().y,
            ;
            assert((i as int / nc.x as int) < nc.y as int) by {
                assert(nc.y as int * nc.x as int == nc.x as int * nc.y as int)
                    by (nonlinear_arith);
                lemma_multiply_divide_lt(i as int, nc.x as int, nc.y as int);
            }
        }
        let key = ChunkKey { x: (i % (nc.x as usize)) as u8, y: (i / (nc.x as usize)) as u8 };
        proof {
            assert(key.y as int * nc.x as int == nc.x as int * key.y as int)
                by (nonlinear_arith);
            assert(key_index(dirty.num_chunks_spec(), key) == i as int);
        }
        let ghost before = dirty@;
        dirty.mark_rect(&key, Vec2u { x: 0, y: 0 }, layout.chunk_size);
        proof {
            assert(dirty@[i as int] == full_rect(layout.chunk_size));
            assert forall|j: int| 0 <= j < i implies dirty@[j] == full_rect(layout.chunk_size) by {
                assert(dirty@[j] == before[j]);
            }
        }
        i = i + 1;
    }
}

/// Process a single-pixel request: wrap the position, write the colour as
/// a run of length one, and mark that pixel dirty.
pub fn apply_pixel(
    layout: CanvasLayout,
    store: &mut CanvasCpuChunks,
    dirty: &mut CanvasDirtyRects,
    msg: &DrawPixel,
)
    requires
        consistent(layout, *old(store), *old(dirty)),
    ensures
        consistent(layout, *final(store), *final(dirty)),
        final(store).num_chunks_spec() == old(store).num_chunks_spec(),
        final(store).chunk_size_spec() == old(store).chunk_size_spec(),
        final(dirty).num_chunks_spec() == old(dirty).num_chunks_spec(),
        final(dirty).chunk_size_spec() == old(dirty).chunk_size_spec(),
        canvas_flat(layout, final(store)@) == canvas_flat(layout, old(store)@).update(
            pixel_flat(layout, msg.pos),
            msg.rgba_u32,
        ),
        final(dirty)@ == mark_rect_spec(
            old(dirty)@,
            layout.chunk_size,
            pixel_chunk(layout, msg.pos),
            (Vec2u { x: pixel_lx(layout, msg.pos) as u32, y: pixel_ly(layout, msg.pos) as u32 }),
            (Vec2u { x: 1, y: 1 }),
        ),
{
    let wrapped = layout.wrap(msg.pos);
    let mut colours: Vec<u32> = Vec::new();
    colours.push(msg.rgba_u32);
    let ghost before = canvas_flat(layout, store@);
    write_run(layout, store, dirty, wrapped, &colours, 0, 1);
    proof {
        let rw = run_writes(layout, wrapped.x as int, wrapped.y as int, colours@, 0, 1);
        assert(rw =~= seq![(pixel_flat(layout, msg.pos), msg.rgba_u32)]);
        lemma_write_seq_single(before, (pixel_flat(layout, msg.pos), msg.rgba_u32));
    }
}

/// Process a pixel-list request. A request whose position and colour
/// counts differ is rejected whole, leaving the store and the tracker
/// untouched; otherwise every listed pixel is wrapped and written in
/// source order, and its chunk's dirty rectangle grows to cover it.
pub fn apply_pixels(
    layout: CanvasLayout,
    store: &mut CanvasCpuChunks,
    dirty: &mut CanvasDirtyRects,
    msg: &DrawPixels,
) -> (result: Result<(), DrawError>)
    requires
        consistent(layout, *old(store), *old(dirty)),
    ensures
        consistent(layout, *final(store), *final(dirty)),
        final(store).num_chunks_spec() == old(store).num_chunks_spec(),
        final(store).chunk_size_spec() == old(store).chunk_size_spec(),
        final(dirty).num_chunks_spec() == old(dirty).num_chunks_spec(),
        final(dirty).chunk_size_spec() == old(dirty).chunk_size_spec(),
        result is Ok <==> msg.positions@.len() == msg.rgba_u32@.len(),
        result is Err ==> *final(store) == *old(store) && *final(dirty) == *old(dirty),
        result is Ok ==> canvas_flat(layout, final(store)@) == write_seq(
            canvas_flat(layout, old(store)@),
            pixel_writes(layout, msg.positions@, msg.rgba_u32@),
        ),
        result is Ok ==> forall|k: int|
            0 <= k < msg.positions@.len() ==> covers(
                final(dirty)@[pixel_chunk(layout, #[trigger] msg.positions@[k])],
                pixel_lx(layout, msg.positions@[k]),
                pixel_ly(layout, msg.positions@[k]),
            ),
        forall|i: int|
            0 <= i < final(dirty)@.len()
                && !chunk_targeted(layout, msg.positions@, i)
                ==> final(dirty)@[i] == old(dirty)@[i],
        forall|i: int, px: int, py: int|
            0 <= i < final(dirty)@.len() && #[trigger] covers(old(dirty)@[i], px, py)
                ==> covers(final(dirty)@[i], px, py),
        forall|i: int|
            0 <= i < final(dirty)@.len() && old(dirty)@[i].dirty
                ==> (#[trigger] final(dirty)@[i]).dirty,
{
    if msg.positions.len() != msg.rgba_u32.len() {
        return Err(DrawError::LengthMismatch);
    }
    let ghost orig_store = *store;
    let ghost orig_dirty = *dirty;
    let ghost pw = pixel_writes(layout, msg.positions@, msg.rgba_u32@);
    let n = msg.positions.len();
    proof {
        dirty.lemma_wf_bounds();
    }
    let mut k: usize = 0;
    while k < n
        invariant
            consistent(layout, *store, *dirty),
            store.num_chunks_spec() == orig_store.num_chunks_spec(),
            store.chunk_size_spec() == orig_store.chunk_size_spec(),
            dirty.num_chunks_spec() == orig_dirty.num_chunks_spec(),
            dirty.chunk_size_spec() == orig_dirty.chunk_size_spec(),
            orig_dirty.wf(),
            dirty@.len() == orig_dirty@.len(),
            k <= n,
            n == msg.positions@.len(),
            n == msg.rgba_u32@.len(),
            pw == pixel_writes(layout, msg.positions@, msg.rgba_u32@),
            canvas_flat(layout, store@) == write_seq(
                canvas_flat(layout, orig_store@),
                pw.take(k as int),
            ),
            forall|j: int|
                0 <= j < k ==> covers(
                    dirty@[pixel_chunk(layout, #[trigger] msg.positions@[j])],
                    pixel_lx(layout, msg.positions@[j]),
                    pixel_ly(layout, msg.positions@[j]),
                ),
            forall|i: int|
                0 <= i < dirty@.len()
                    && !chunk_targeted(layout, msg.positions@.take(k as int), i)
                    ==> dirty@[i] == orig_dirty@[i],
            forall|i: int, px: int, py: int|
                0 <= i < dirty@.len() && #[trigger] covers(orig_dirty@[i], px, py)
                    ==> covers(dirty@[i], px, py),
            forall|i: int|
                0 <= i < dirty@.len() && orig_dirty@[i].dirty
                    ==> (#[trigger] dirty@[i]).dirty,
        decreases n - k,
    {
        let pos = msg.positions[k];
        let wrapped = layout.wrap(pos);
        let ghost flat_before = canvas_flat(layout, store@);
        let ghost dirty_before = dirty@;
        write_run(layout, store, dirty, wrapped, &msg.rgba_u32, k, 1);
        proof {
            // the flat canvas advances by exactly this pixel's write
            let w = (pixel_flat(layout, pos), msg.rgba_u32@[k as int]);
            let rw = run_writes(layout, wrapped.x as int, wrapped.y as int, msg.rgba_u32@, k as int, 1);
            assert(rw =~= seq![w]);
            lemma_write_seq_single(flat_before, w);
            lemma_write_seq_take_step(canvas_flat(layout, orig_store@), pw, k as int);
            assert(pw[k as int] == w);

            // the dirty tracker grows by exactly this pixel's mark
            let ci = pixel_chunk(layout, pos);
            let lo = Vec2u {
                x: pixel_lx(layout, pos) as u32,
                y: pixel_ly(layout, pos) as u32,
            };
            dirty.lemma_wf_bounds();
            orig_dirty.lemma_wf_bounds();
            layout.lemma_products();
            layout.lemma_addr_inverse(wrapped_x(layout, pos), wrapped_y(layout, pos));
            assert(orig_dirty.total_spec() == layout.total_chunks()) by (nonlinear_arith)
                requires
                    orig_dirty.total_spec() == orig_dirty.num_chunks_spec().x as nat
                        * orig_dirty.num_chunks_spec().y as nat,
                    layout.total_chunks() == layout.ncx() * layout.ncy(),
                    orig_dirty.num_chunks_spec().x as int == layout.ncx(),
                    orig_dirty.num_chunks_spec().y as int == layout.ncy(),
            ;
            assert(dirty_before.len() == layout.total_chunks());
            lemma_mark_coverage(dirty_before, layout.chunk_size, ci, lo, Vec2u { x: 1, y: 1 });
            assert(covers(dirty@[ci], pixel_lx(layout, pos), pixel_ly(layout, pos)));
            assert forall|j: int|
                0 <= j < k + 1 implies covers(
                    dirty@[pixel_chunk(layout, #[trigger] msg.positions@[j])],
                    pixel_lx(layout, msg.positions@[j]),
                    pixel_ly(layout, msg.positions@[j]),
                ) by {
                let pj = msg.positions@[j];
                if j < k {
                    let cj = pixel_chunk(layout, pj);
                    layout.lemma_addr_inverse(wrapped_x(layout, pj), wrapped_y(layout, pj));
                    if cj != ci {
                        assert(dirty@[cj] == dirty_before[cj]);
                    }
                }
            }
            assert forall|i: int, px: int, py: int|
                0 <= i < dirty@.len() && #[trigger] covers(orig_dirty@[i], px, py)
                    implies covers(dirty@[i], px, py) by {
                assert(covers(dirty_before[i], px, py));
                if i != ci {
                    assert(dirty@[i] == dirty_before[i]);
                }
            }
            assert forall|i: int|
                0 <= i < dirty@.len() && orig_dirty@[i].dirty
                    implies (#[trigger] dirty@[i]).dirty by {
                assert(dirty_before[i].dirty);
                if i != ci {
                    assert(dirty@[i] == dirty_before[i]);
                }
            }
            assert forall|i: int|
                0 <= i < dirty@.len()
                    && !chunk_targeted(layout, msg.positions@.take(k as int + 1), i)
                    implies dirty@[i] == orig_dirty@[i] by {
                assert(msg.positions@.take(k as int + 1)[k as int] == pos);
                assert(pixel_chunk(layout, msg.positions@.take(k as int + 1)[k as int]) != i);
                if chunk_targeted(layout, msg.positions@.take(k as int), i) {
                    let j = choose|j: int|
                        0 <= j < k && pixel_chunk(
                            layout,
                            #[trigger] msg.positions@.take(k as int)[j],
                        ) == i;
                    assert(msg.positions@.take(k as int + 1)[j] == msg.positions@.take(k as int)[j]);
                    assert(chunk_targeted(layout, msg.positions@.take(k as int + 1), i));
                }
                assert(dirty@[i] == dirty_before[i]);
            }
        }
        k = k + 1;
    }
    proof {
        assert(pw.take(n as int) =~= pw);
        assert(msg.positions@.take(n as int) =~= msg.positions@);
    }
    Ok(())
}

/// Process a rectangle request. A zero-sized rectangle, or one whose
/// payload length differs from `size.x * size.y`, is rejected whole,
/// leaving the store and the tracker untouched. Otherwise the row-major
/// payload is written pixel for pixel in source order: each destination
/// row is split into the minimal runs that cross neither a canvas-row nor
/// a chunk-row boundary, and rows and columns wrap toroidally.
pub fn apply_rect(
    layout: CanvasLayout,
    store: &mut CanvasCpuChunks,
    dirty: &mut CanvasDirtyRects,
    msg: &DrawRect,
) -> (result: Result<(), DrawError>)
    requires
        consistent(layout, *old(store), *old(dirty)),
    ensures
        consistent(layout, *final(store), *final(dirty)),
        final(store).num_chunks_spec() == old(store).num_chunks_spec(),
        final(store).chunk_size_spec() == old(store).chunk_size_spec(),
        final(dirty).num_chunks_spec() == old(dirty).num_chunks_spec(),
        final(dirty).chunk_size_spec() == old(dirty).chunk_size_spec(),
        result is Ok <==> msg.size.x >= 1 && msg.size.y >= 1 && msg.rgba_u32@.len()
            == msg.size.x as int * msg.size.y as int,
        result == Err::<(), DrawError>(DrawError::ZeroSize) <==> (msg.size.x == 0 || msg.size.y == 0),
        result is Err ==> *final(store) == *old(store) && *final(dirty) == *old(dirty),
        result is Ok ==> canvas_flat(layout, final(store)@) == write_seq(
            canvas_flat(layout, old(store)@),
            rect_writes(layout, msg.start, msg.size, msg.rgba_u32@),
        ),
        result is Ok ==> forall|m: int|
            0 <= m < rect_writes(layout, msg.start, msg.size, msg.rgba_u32@).len()
                ==> write_covered(
                layout,
                final(dirty)@,
                (#[trigger] rect_writes(layout, msg.start, msg.size, msg.rgba_u32@)[m]).0,
            ),
        forall|i: int|
            0 <= i < final(dirty)@.len()
                && !touches_chunk(layout, rect_writes(layout, msg.start, msg.size, msg.rgba_u32@), i)
                ==> final(dirty)@[i] == old(dirty)@[i],
        forall|i: int, px: int, py: int|
            0 <= i < final(dirty)@.len() && #[trigger] covers(old(dirty)@[i], px, py)
                ==> covers(final(dirty)@[i], px, py),
        forall|i: int|
            0 <= i < final(dirty)@.len() && old(dirty)@[i].dirty
                ==> (#[trigger] final(dirty)@[i]).dirty,
{
    if msg.size.x == 0 || msg.size.y == 0 {
        return Err(DrawError::ZeroSize);
    }
    let w = msg.size.x;
    let h = msg.size.y;
    proof {
        assert(w as int * h as int <= 0xffff_ffff * 0xffff_ffff) by (nonlinear_arith)
            requires
                w <= 0xffff_ffffu32,
                h <= 0xffff_ffffu32,
        ;
    }
    if (msg.rgba_u32.len() as u64) != (w as u64) * (h as u64) {
        return Err(DrawError::LengthMismatch);
    }
    let ghost orig_store = *store;
    let ghost orig_dirty = *dirty;
    let ghost ws = rect_writes(layout, msg.start, msg.size, msg.rgba_u32@);
    let ghost orig_flat = canvas_flat(layout, orig_store@);
    let cw = layout.canvas_size.x;
    let ch = layout.canvas_size.y;
    proof {
        dirty.lemma_wf_bounds();
        lemma_rect_writes_shape(layout, msg.start, msg.size, msg.rgba_u32@);
    }

    let mut k: usize = 0;
    let mut ry: u32 = 0;
    while ry < h
        invariant
            consistent(layout, *store, *dirty),
            store.num_chunks_spec() == orig_store.num_chunks_spec(),
            store.chunk_size_spec() == orig_store.chunk_size_spec(),
            dirty.num_chunks_spec() == orig_dirty.num_chunks_spec(),
            dirty.chunk_size_spec() == orig_dirty.chunk_size_spec(),
            dirty@.len() == orig_dirty@.len(),
            orig_dirty.wf(),
            cw == layout.canvas_size.x,
            ch == layout.canvas_size.y,
            1 <= w && w == msg.size.x,
            1 <= h && h == msg.size.y,
            msg.rgba_u32@.len() == w as int * h as int,
            ws == rect_writes(layout, msg.start, msg.size, msg.rgba_u32@),
            ws.len() == w as int * h as int,
            ws.len() <= usize::MAX,
            orig_flat == canvas_flat(layout, orig_store@),
            ry <= h,
            k == ry as int * w as int,
            k <= ws.len(),
            canvas_flat(layout, store@) == write_seq(orig_flat, ws.take(k as int)),
            forall|m: int|
                0 <= m < k ==> write_covered(layout, dirty@, (#[trigger] ws[m]).0),
            forall|i: int|
                0 <= i < dirty@.len() && !touches_chunk(layout, ws.take(k as int), i)
                    ==> dirty@[i] == orig_dirty@[i],
            forall|i: int, px: int, py: int|
                0 <= i < dirty@.len() && #[trigger] covers(orig_dirty@[i], px, py)
                    ==> covers(dirty@[i], px, py),
            forall|i: int|
                0 <= i < dirty@.len() && orig_dirty@[i].dirty
                    ==> (#[trigger] dirty@[i]).dirty,
        decreases h - ry,
    {
        proof {
            lemma_mod_bound(msg.start.y as int + ry as int, ch as int);
        }
        let y: u32 = (((msg.start.y as u64) + (ry as u64)) % (ch as u64)) as u32;
        let mut x: u32 = msg.start.x % cw;
        let mut rem: u32 = w;
        proof {
            lemma_mod_bound(msg.start.x as int, cw as int);
        }
        while rem > 0
            invariant
                consistent(layout, *store, *dirty),
                store.num_chunks_spec() == orig_store.num_chunks_spec(),
                store.chunk_size_spec() == orig_store.chunk_size_spec(),
                dirty.num_chunks_spec() == orig_dirty.num_chunks_spec(),
                dirty.chunk_size_spec() == orig_dirty.chunk_size_spec(),
                dirty@.len() == orig_dirty@.len(),
                orig_dirty.wf(),
                cw == layout.canvas_size.x,
                ch == layout.canvas_size.y,
                1 <= w && w == msg.size.x,
                1 <= h && h == msg.size.y,
                msg.rgba_u32@.len() == w as int * h as int,
                ws == rect_writes(layout, msg.start, msg.size, msg.rgba_u32@),
                ws.len() == w as int * h as int,
                ws.len() <= usize::MAX,
                orig_flat == canvas_flat(layout, orig_store@),
                ry < h,
                rem <= w,
                y == (msg.start.y as int + ry as int) % ch as int,
                y < ch,
                x == (msg.start.x as int + (w - rem) as int) % cw as int,
                x < cw,
                k == ry as int * w as int + (w - rem) as int,
                canvas_flat(layout, store@) == write_seq(orig_flat, ws.take(k as int)),
                forall|m: int|
                    0 <= m < k ==> write_covered(layout, dirty@, (#[trigger] ws[m]).0),
                forall|i: int|
                    0 <= i < dirty@.len() && !touches_chunk(layout, ws.take(k as int), i)
                        ==> dirty@[i] == orig_dirty@[i],
                forall|i: int, px: int, py: int|
                    0 <= i < dirty@.len() && #[trigger] covers(orig_dirty@[i], px, py)
                        ==> covers(dirty@[i], px, py),
                forall|i: int|
                    0 <= i < dirty@.len() && orig_dirty@[i].dirty
                        ==> (#[trigger] dirty@[i]).dirty,
            decreases rem,
        {
            let run_max = layout.max_run_len(Vec2u { x, y });
            let run: u32 = if run_max <= rem { run_max } else { rem };
            let ghost rx = (w - rem) as int;
            let ghost rw = run_writes(layout, x as int, y as int, msg.rgba_u32@, k as int, run as nat);
            proof {
                layout.lemma_products();
                lemma_mul_inequality(ry as int + 1, h as int, w as int);
                assert((ry as int + 1) * w as int == ry as int * w as int + w as int)
                    by (nonlinear_arith);
                assert(h as int * w as int == w as int * h as int) by (nonlinear_arith);
                assert(k + run <= ws.len());
                assert forall|j: int| 0 <= j < run implies ws[k as int + j] == rw[j] by {
                    lemma_fundamental_div_mod_converse(k as int + j, w as int, ry as int, rx + j);
                    lemma_wrapped_add(msg.start.x as int + rx, x as int, j, cw as int);
                    lemma_small_mod((x as int + j) as nat, cw as nat);
                }
                assert(ws.take(k as int + run as int) =~= ws.take(k as int) + rw);
            }
            let ghost dirty_before = dirty@;
            write_run(layout, store, dirty, Vec2u { x, y }, &msg.rgba_u32, k, run as usize);
            proof {
                lemma_write_seq_app(orig_flat, ws.take(k as int), rw);
                assert(canvas_flat(layout, store@)
                    == write_seq(orig_flat, ws.take(k as int + run as int)));

                let csx = layout.chunk_size.x as int;
                let csy = layout.chunk_size.y as int;
                let ci = layout.chunk_index_of(x as int, y as int);
                let lo = Vec2u {
                    x: (x as int % csx) as u32,
                    y: (y as int % csy) as u32,
                };
                let sizev = Vec2u { x: run, y: 1 };
                dirty.lemma_wf_bounds();
                orig_dirty.lemma_wf_bounds();
                layout.lemma_addr_inverse(x as int, y as int);
                lemma_mod_bound(x as int, csx);
                lemma_mod_bound(y as int, csy);
                assert(orig_dirty.total_spec() == layout.total_chunks()) by (nonlinear_arith)
                    requires
                        orig_dirty.total_spec() == orig_dirty.num_chunks_spec().x as nat
                            * orig_dirty.num_chunks_spec().y as nat,
                        layout.total_chunks() == layout.ncx() * layout.ncy(),
                        orig_dirty.num_chunks_spec().x as int == layout.ncx(),
                        orig_dirty.num_chunks_spec().y as int == layout.ncy(),
                ;
                assert(dirty_before.len() == layout.total_chunks());
                lemma_rect_writes_shape(layout, msg.start, msg.size, msg.rgba_u32@);
                lemma_mark_coverage(dirty_before, layout.chunk_size, ci, lo, sizev);

                assert forall|m: int|
                    0 <= m < k as int + run as int
                        implies write_covered(layout, dirty@, (#[trigger] ws[m]).0) by {
                    if m < k {
                        lemma_mark_preserves(layout, dirty_before, ci, lo, sizev, ws[m].0);
                    } else {
                        let j = m - k;
                        lemma_fundamental_div_mod_converse(k as int + j, w as int, ry as int, rx + j);
                        lemma_wrapped_add(msg.start.x as int + rx, x as int, j, cw as int);
                        lemma_small_mod((x as int + j) as nat, cw as nat);
                        assert(ws[m].0 == y as int * cw as int + x as int + j);
                        lemma_run_step(layout, x as int, y as int, j, run as int);
                        lemma_fundamental_div_mod_converse(
                            y as int * cw as int + (x as int + j),
                            cw as int,
                            y as int,
                            x as int + j,
                        );
                        assert(write_chunk(layout, ws[m].0) == ci);
                        assert(covers(dirty@[ci], lo.x + j, lo.y as int));
                    }
                }
                assert(write_chunk(layout, ws[k as int].0) == ci) by {
                    lemma_run_step(layout, x as int, y as int, 0, run as int);
                    lemma_fundamental_div_mod_converse(
                        y as int * cw as int + x as int,
                        cw as int,
                        y as int,
                        x as int,
                    );
                }
                assert forall|i: int|
                    0 <= i < dirty@.len()
                        && !touches_chunk(layout, ws.take(k as int + run as int), i)
                        implies dirty@[i] == orig_dirty@[i] by {
                    assert(ws.take(k as int + run as int)[k as int] == ws[k as int]);
                    assert(write_chunk(layout, ws.take(k as int + run as int)[k as int].0) != i);
                    assert(i != ci);
                    if touches_chunk(layout, ws.take(k as int), i) {
                        let j = choose|j: int|
                            0 <= j < k && write_chunk(
                                layout,
                                (#[trigger] ws.take(k as int)[j]).0,
                            ) == i;
                        assert(ws.take(k as int + run as int)[j] == ws.take(k as int)[j]);
                        assert(touches_chunk(layout, ws.take(k as int + run as int), i));
                    }
                    assert(dirty@[i] == dirty_before[i]);
                }
                assert forall|i: int, px: int, py: int|
                    0 <= i < dirty@.len() && #[trigger] covers(orig_dirty@[i], px, py)
                        implies covers(dirty@[i], px, py) by {
                    assert(covers(dirty_before[i], px, py));
                    if i != ci {
                        assert(dirty@[i] == dirty_before[i]);
                    }
                }
                assert forall|i: int|
                    0 <= i < dirty@.len() && orig_dirty@[i].dirty
                        implies (#[trigger] dirty@[i]).dirty by {
                    assert(dirty_before[i].dirty);
                    if i != ci {
                        assert(dirty@[i] == dirty_before[i]);
                    }
                }
            }
            let ghost x_prev = x;
            k = k + run as usize;
            rem = rem - run;
            x = if x + run == cw { 0 } else { x + run };
            proof {
                lemma_wrapped_add(msg.start.x as int + rx, x_prev as int, run as int, cw as int);
                if x_prev + run == cw {
                    lemma_mod_self_0(cw as int);
                } else {
                    lemma_small_mod((x_prev + run) as nat, cw as nat);
                }
            }
        }
        ry = ry + 1;
        proof {
            assert(ry as int * w as int == (ry - 1) as int * w as int + w as int)
                by (nonlinear_arith);
            lemma_mul_inequality(ry as int, h as int, w as int);
            assert(h as int * w as int == w as int * h as int) by (nonlinear_arith);
        }
    }
    proof {
        assert(k == h as int * w as int) by (nonlinear_arith)
            requires
                k == ry as int * w as int,
                ry == h,
        ;
        assert(h as int * w as int == w as int * h as int) by (nonlinear_arith);
        assert(ws.take(k as int) =~= ws);
    }
    Ok(())
}

/// Process a span request: write a single flat colour stream starting at
/// the wrapped start position, advancing in +X, wrapping to the next row
/// at the canvas's right edge, and wrapping from the canvas's last pixel
/// back to its first. An empty payload is a no-op. Uses the same
/// run-splitting as the rectangle processor, but the cursor advances
/// across row boundaries instead of restarting per row.
pub fn apply_span(
    layout: CanvasLayout,
    store: &mut CanvasCpuChunks,
    dirty: &mut CanvasDirtyRects,
    msg: &DrawSpan,
)
    requires
        consistent(layout, *old(store), *old(dirty)),
    ensures
        consistent(layout, *final(store), *final(dirty)),
        final(store).num_chunks_spec() == old(store).num_chunks_spec(),
        final(store).chunk_size_spec() == old(store).chunk_size_spec(),
        final(dirty).num_chunks_spec() == old(dirty).num_chunks_spec(),
        final(dirty).chunk_size_spec() == old(dirty).chunk_size_spec(),
        canvas_flat(layout, final(store)@) == write_seq(
            canvas_flat(layout, old(store)@),
            span_writes(layout, msg.start, msg.rgba_u32@),
        ),
        forall|m: int|
            0 <= m < span_writes(layout, msg.start, msg.rgba_u32@).len()
                ==> write_covered(
                layout,
                final(dirty)@,
                (#[trigger] span_writes(layout, msg.start, msg.rgba_u32@)[m]).0,
            ),
        forall|i: int|
            0 <= i < final(dirty)@.len()
                && !touches_chunk(layout, span_writes(layout, msg.start, msg.rgba_u32@), i)
                ==> final(dirty)@[i] == old(dirty)@[i],
        forall|i: int, px: int, py: int|
            0 <= i < final(dirty)@.len() && #[trigger] covers(old(dirty)@[i], px, py)
                ==> covers(final(dirty)@[i], px, py),
        forall|i: int|
            0 <= i < final(dirty)@.len() && old(dirty)@[i].dirty
                ==> (#[trigger] final(dirty)@[i]).dirty,
{
    let ghost ws = span_writes(layout, msg.start, msg.rgba_u32@);
    let n = msg.rgba_u32.len();
    if n == 0 {
        proof {
            assert(ws.len() == 0);
            assert(write_seq(canvas_flat(layout, store@), ws) == canvas_flat(layout, store@));
        }
        return;
    }
    let ghost orig_store = *store;
    let ghost orig_dirty = *dirty;
    let ghost orig_flat = canvas_flat(layout, orig_store@);
    let cw = layout.canvas_size.x;
    let ch = layout.canvas_size.y;
    let ghost big_n = layout.total_pixels() as int;
    let wrapped = layout.wrap(msg.start);
    let ghost g0 = pixel_flat(layout, msg.start);
    proof {
        dirty.lemma_wf_bounds();
        lemma_span_writes_shape(layout, msg.start, msg.rgba_u32@);
        lemma_flat_read_range(layout, wrapped.x as int, wrapped.y as int);
        lemma_small_mod(g0 as nat, layout.total_pixels());
        layout.lemma_products();
        assert(big_n == cw as int * ch as int) by (nonlinear_arith)
            requires
                big_n == layout.canvas_size.x as nat * layout.canvas_size.y as nat,
                cw == layout.canvas_size.x,
                ch == layout.canvas_size.y,
        ;
    }
    let mut x: u32 = wrapped.x;
    let mut y: u32 = wrapped.y;
    let mut k: usize = 0;
    while k < n
        invariant
            consistent(layout, *store, *dirty),
            store.num_chunks_spec() == orig_store.num_chunks_spec(),
            store.chunk_size_spec() == orig_store.chunk_size_spec(),
            dirty.num_chunks_spec() == orig_dirty.num_chunks_spec(),
            dirty.chunk_size_spec() == orig_dirty.chunk_size_spec(),
            dirty@.len() == orig_dirty@.len(),
            orig_dirty.wf(),
            cw == layout.canvas_size.x,
            ch == layout.canvas_size.y,
            big_n == layout.total_pixels(),
            big_n == cw as int * ch as int,
            0 <= g0 < big_n,
            g0 == pixel_flat(layout, msg.start),
            n == msg.rgba_u32@.len(),
            ws == span_writes(layout, msg.start, msg.rgba_u32@),
            ws.len() == n,
            orig_flat == canvas_flat(layout, orig_store@),
            k <= n,
            x < cw,
            y < ch,
            y as int * cw as int + x as int == (g0 + k as int) % big_n,
            canvas_flat(layout, store@) == write_seq(orig_flat, ws.take(k as int)),
            forall|m: int|
                0 <= m < k ==> write_covered(layout, dirty@, (#[trigger] ws[m]).0),
            forall|i: int|
                0 <= i < dirty@.len() && !touches_chunk(layout, ws.take(k as int), i)
                    ==> dirty@[i] == orig_dirty@[i],
            forall|i: int, px: int, py: int|
                0 <= i < dirty@.len() && #[trigger] covers(orig_dirty@[i], px, py)
                    ==> covers(dirty@[i], px, py),
            forall|i: int|
                0 <= i < dirty@.len() && orig_dirty@[i].dirty
                    ==> (#[trigger] dirty@[i]).dirty,
        decreases n - k,
    {
        let run_max = layout.max_run_len(Vec2u { x, y });
        let rem = n - k;
        let run: u32 = if (run_max as usize) <= rem {
            run_max
        } else {
            rem as u32
        };
        let ghost g = y as int * cw as int + x as int;
        let ghost rw = run_writes(layout, x as int, y as int, msg.rgba_u32@, k as int, run as nat);
        proof {
            lemma_mul_inequality(y as int + 1, ch as int, cw as int);
            assert((y as int + 1) * cw as int == y as int * cw as int + cw as int)
                by (nonlinear_arith);
            assert(ch as int * cw as int == cw as int * ch as int) by (nonlinear_arith);
            assert(g + run <= big_n);
            assert forall|j: int| 0 <= j < run implies ws[k as int + j] == rw[j] by {
                lemma_wrapped_add(g0 + k as int, g, j, big_n);
                lemma_small_mod((g + j) as nat, big_n as nat);
            }
            assert(ws.take(k as int + run as int) =~= ws.take(k as int) + rw);
        }
        let ghost dirty_before = dirty@;
        write_run(layout, store, dirty, Vec2u { x, y }, &msg.rgba_u32, k, run as usize);
        proof {
            lemma_write_seq_app(orig_flat, ws.take(k as int), rw);
            assert(canvas_flat(layout, store@)
                == write_seq(orig_flat, ws.take(k as int + run as int)));

            let csx = layout.chunk_size.x as int;
            let csy = layout.chunk_size.y as int;
            let ci = layout.chunk_index_of(x as int, y as int);
            let lo = Vec2u {
                x: (x as int % csx) as u32,
                y: (y as int % csy) as u32,
            };
            let sizev = Vec2u { x: run, y: 1 };
            dirty.lemma_wf_bounds();
            orig_dirty.lemma_wf_bounds();
            layout.lemma_addr_inverse(x as int, y as int);
            lemma_mod_bound(x as int, csx);
            lemma_mod_bound(y as int, csy);
            assert(orig_dirty.total_spec() == layout.total_chunks()) by (nonlinear_arith)
                requires
                    orig_dirty.total_spec() == orig_dirty.num_chunks_spec().x as nat
                        * orig_dirty.num_chunks_spec().y as nat,
                    layout.total_chunks() == layout.ncx() * layout.ncy(),
                    orig_dirty.num_chunks_spec().x as int == layout.ncx(),
                    orig_dirty.num_chunks_spec().y as int == layout.ncy(),
            ;
            assert(dirty_before.len() == layout.total_chunks());
            lemma_mark_coverage(dirty_before, layout.chunk_size, ci, lo, sizev);

            assert forall|m: int|
                0 <= m < k as int + run as int
                    implies write_covered(layout, dirty@, (#[trigger] ws[m]).0) by {
                if m < k {
                    lemma_mark_preserves(layout, dirty_before, ci, lo, sizev, ws[m].0);
                } else {
                    let j = m - k;
                    lemma_wrapped_add(g0 + k as int, g, j, big_n);
                    lemma_small_mod((g + j) as nat, big_n as nat);
                    assert(ws[m].0 == y as int * cw as int + x as int + j);
                    lemma_run_step(layout, x as int, y as int, j, run as int);
                    lemma_fundamental_div_mod_converse(
                        y as int * cw as int + (x as int + j),
                        cw as int,
                        y as int,
                        x as int + j,
                    );
                    assert(write_chunk(layout, ws[m].0) == ci);
                    assert(covers(dirty@[ci], lo.x + j, lo.y as int));
                }
            }
            assert(write_chunk(layout, ws[k as int].0) == ci) by {
                lemma_wrapped_add(g0 + k as int, g, 0, big_n);
                lemma_small_mod(g as nat, big_n as nat);
                lemma_run_step(layout, x as int, y as int, 0, run as int);
                lemma_fundamental_div_mod_converse(
                    y as int * cw as int + x as int,
                    cw as int,
                    y as int,
                    x as int,
                );
            }
            assert forall|i: int|
                0 <= i < dirty@.len()
                    && !touches_chunk(layout, ws.take(k as int + run as int), i)
                    implies dirty@[i] == orig_dirty@[i] by {
                assert(ws.take(k as int + run as int)[k as int] == ws[k as int]);
                assert(write_chunk(layout, ws.take(k as int + run as int)[k as int].0) != i);
                assert(i != ci);
                if touches_chunk(layout, ws.take(k as int), i) {
                    let j = choose|j: int|
                        0 <= j < k && write_chunk(
                            layout,
                            (#[trigger] ws.take(k as int)[j]).0,
                        ) == i;
                    assert(ws.take(k as int + run as int)[j] == ws.take(k as int)[j]);
                    assert(touches_chunk(layout, ws.take(k as int + run as int), i));
                }
                assert(dirty@[i] == dirty_before[i]);
            }
            assert forall|i: int, px: int, py: int|
                0 <= i < dirty@.len() && #[trigger] covers(orig_dirty@[i], px, py)
                    implies covers(dirty@[i], px, py) by {
                assert(covers(dirty_before[i], px, py));
                if i != ci {
                    assert(dirty@[i] == dirty_before[i]);
                }
            }
            assert forall|i: int|
                0 <= i < dirty@.len() && orig_dirty@[i].dirty
                    implies (#[trigger] dirty@[i]).dirty by {
                assert(dirty_before[i].dirty);
                if i != ci {
                    assert(dirty@[i] == dirty_before[i]);
                }
            }
        }
        let ghost x_prev = x;
        let ghost y_prev = y;
        let ghost k_prev = k as int;
        k = k + run as usize;
        x = x + run;
        if x == cw {
            x = 0;
            y = y + 1;
            if y == ch {
                y = 0;
            }
        }
        proof {
            let g = y_prev as int * cw as int + x_prev as int;
            lemma_wrapped_add(g0 + k_prev, g, run as int, big_n);
            assert((y_prev as int + 1) * cw as int == y_prev as int * cw as int + cw as int)
                by (nonlinear_arith);
            if x_prev + run == cw && y_prev + 1 == ch {
                assert(g + run == big_n) by (nonlinear_arith)
                    requires
                        g == y_prev as int * cw as int + x_prev as int,
                        x_prev + run == cw,
                        y_prev as int + 1 == ch as int,
                        big_n == cw as int * ch as int,
                ;
                lemma_mod_self_0(big_n);
            } else {
                assert(g + run < big_n) by (nonlinear_arith)
                    requires
                        g == y_prev as int * cw as int + x_prev as int,
                        x_prev + run <= cw,
                        0 <= (y_prev as int) && (y_prev as int) < ch as int,
                        x_prev + run == cw ==> y_prev as int + 1 < ch as int,
                        big_n == cw as int * ch as int,
                        cw > 0,
                ;
                lemma_small_mod((g + run) as nat, big_n as nat);
            }
        }
    }
    proof {
        assert(ws.take(n as int) =~= ws);
    }
}

/// The flat canvas after the frame's clear requests: each fills the whole
/// canvas, so the last one wins.
pub open spec fn clears_flat(layout: CanvasLayout, f: Seq<u32>, clears: Seq<ClearCanvas>) -> Seq<u32> {
    if clears.len() == 0 {
        f
    } else {
        fill_flat(layout, clears.last().rgba_u32)
    }
}

/// The single-pixel writes of the frame's single-pixel requests, in order.
pub open spec fn batch_pixel_writes(layout: CanvasLayout, pixels: Seq<DrawPixel>) -> Seq<(int, u32)> {
    Seq::new(pixels.len(), |k: int| (pixel_flat(layout, pixels[k].pos), pixels[k].rgba_u32))
}

/// A pixel-list request is well formed when its parallel arrays agree in
/// length.
pub open spec fn list_valid(msg: DrawPixels) -> bool {
    msg.positions@.len() == msg.rgba_u32@.len()
}

/// A rectangle request is well formed when it is non-empty and its payload
/// length is exactly its area.
pub open spec fn rect_valid(msg: DrawRect) -> bool {
    &&& msg.size.x >= 1
    &&& msg.size.y >= 1
    &&& msg.rgba_u32@.len() == msg.size.x as int * msg.size.y as int
}

/// The flat canvas after the frame's pixel-list requests, in order: each
/// well-formed list applies its writes, a malformed one is dropped.
pub open spec fn lists_flat(layout: CanvasLayout, f: Seq<u32>, lists: Seq<DrawPixels>) -> Seq<u32>
    decreases lists.len(),
{
    if lists.len() == 0 {
        f
    } else {
        let rest = lists_flat(layout, f, lists.drop_last());
        if list_valid(lists.last()) {
            write_seq(rest, pixel_writes(layout, lists.last().positions@, lists.last().rgba_u32@))
        } else {
            rest
        }
    }
}

/// The flat canvas after the frame's rectangle requests, in order: each
/// well-formed rectangle applies its writes, a malformed one is dropped.
pub open spec fn rects_flat(layout: CanvasLayout, f: Seq<u32>, rects: Seq<DrawRect>) -> Seq<u32>
    decreases rects.len(),
{
    if rects.len() == 0 {
        f
    } else {
        let rest = rects_flat(layout, f, rects.drop_last());
        if rect_valid(rects.last()) {
            write_seq(rest, rect_writes(layout, rects.last().start, rects.last().size, rects.last().rgba_u32@))
        } else {
            rest
        }
    }
}

/// The flat canvas after the frame's span requests, in order.
pub open spec fn spans_flat(layout: CanvasLayout, f: Seq<u32>, spans: Seq<DrawSpan>) -> Seq<u32>
    decreases spans.len(),
{
    if spans.len() == 0 {
        f
    } else {
        write_seq(
            spans_flat(layout, f, spans.drop_last()),
            span_writes(layout, spans.last().start, spans.last().rgba_u32@),
        )
    }
}

/// How many pixel-list requests of the frame are malformed and dropped.
pub open spec fn rejected_lists(lists: Seq<DrawPixels>) -> int
    decreases lists.len(),
{
    if lists.len() == 0 {
        0
    } else {
        rejected_lists(lists.drop_last()) + if list_valid(lists.last()) {
            0int
        } else {
            1int
        }
    }
}

/// How many rectangle requests of the frame are malformed and dropped.
pub open spec fn rejected_rects(rects: Seq<DrawRect>) -> int
    decreases rects.len(),
{
    if rects.len() == 0 {
        0
    } else {
        rejected_rects(rects.drop_last()) + if rect_valid(rects.last()) {
            0int
        } else {
            1int
        }
    }
}

/// The flat canvas after one whole frame of requests, processed in the
/// fixed kind order: clears, then single pixels, then pixel lists, then
/// rectangles, then spans.
pub open spec fn frame_flat(
    layout: CanvasLayout,
    f: Seq<u32>,
    clears: Seq<ClearCanvas>,
    pixels: Seq<DrawPixel>,
    lists: Seq<DrawPixels>,
    rects: Seq<DrawRect>,
    spans: Seq<DrawSpan>,
) -> Seq<u32> {
    spans_flat(
        layout,
        rects_flat(
            layout,
            lists_flat(
                layout,
                write_seq(clears_flat(layout, f, clears), batch_pixel_writes(layout, pixels)),
                lists,
            ),
            rects,
        ),
        spans,
    )
}

/// A mark never cleans a chunk.
proof fn lemma_mark_keeps_dirty(
    rects: Seq<DirtyRect>,
    chunk_size: Vec2u,
    index: int,
    lo: Vec2u,
    size: Vec2u,
    i: int,
)
    requires
        0 <= index < rects.len(),
        0 <= i < rects.len(),
        rects[i].dirty,
    ensures
        mark_rect_spec(rects, chunk_size, index, lo, size)[i].dirty,
{
}

/// Process one frame's batch of drawing requests, in the fixed kind order
/// clear, single pixel, pixel list, rectangle, span; later requests
/// overwrite earlier ones where they overlap. A malformed pixel-list or
/// rectangle request is dropped and the rest of the batch still applies;
/// the result counts the dropped pixel lists and the dropped rectangles.
/// A chunk that was dirty before the frame stays dirty.
pub fn process_frame(
    layout: CanvasLayout,
    store: &mut CanvasCpuChunks,
    dirty: &mut CanvasDirtyRects,
    clears: &Vec<ClearCanvas>,
    pixels: &Vec<DrawPixel>,
    lists: &Vec<DrawPixels>,
    rects: &Vec<DrawRect>,
    spans: &Vec<DrawSpan>,
) -> (dropped: (usize, usize))
    requires
        consistent(layout, *old(store), *old(dirty)),
    ensures
        consistent(layout, *final(store), *final(dirty)),
        final(store).num_chunks_spec() == old(store).num_chunks_spec(),
        final(store).chunk_size_spec() == old(store).chunk_size_spec(),
        final(dirty).num_chunks_spec() == old(dirty).num_chunks_spec(),
        final(dirty).chunk_size_spec() == old(dirty).chunk_size_spec(),
        canvas_flat(layout, final(store)@) == frame_flat(
            layout,
            canvas_flat(layout, old(store)@),
            clears@,
            pixels@,
            lists@,
            rects@,
            spans@,
        ),
        dropped.0 == rejected_lists(lists@),
        dropped.1 == rejected_rects(rects@),
        forall|i: int|
            0 <= i < final(dirty)@.len() && old(dirty)@[i].dirty
                ==> (#[trigger] final(dirty)@[i]).dirty,
{
    let ghost orig_store = *store;
    let ghost orig_dirty = *dirty;
    let ghost orig_flat = canvas_flat(layout, orig_store@);
    proof {
        dirty.lemma_wf_bounds();
    }

    // clears, in order: each fills the whole canvas, so the last one wins
    let mut c: usize = 0;
    while c < clears.len()
        invariant
            consistent(layout, *store, *dirty),
            store.num_chunks_spec() == orig_store.num_chunks_spec(),
            store.chunk_size_spec() == orig_store.chunk_size_spec(),
            dirty.num_chunks_spec() == orig_dirty.num_chunks_spec(),
            dirty.chunk_size_spec() == orig_dirty.chunk_size_spec(),
            dirty@.len() == orig_dirty@.len(),
            orig_dirty.wf(),
            orig_flat == canvas_flat(layout, orig_store@),
            c <= clears@.len(),
            c == 0 ==> *store == orig_store && *dirty == orig_dirty,
            c > 0 ==> canvas_flat(layout, store@) == fill_flat(layout, clears@[c - 1].rgba_u32),
            c > 0 ==> forall|i: int|
                0 <= i < dirty@.len() ==> #[trigger] dirty@[i] == full_rect(layout.chunk_size),
        decreases clears@.len() - c,
    {
        apply_clear(layout, store, dirty, &clears[c]);
        proof {
            dirty.lemma_wf_bounds();
            orig_dirty.lemma_wf_bounds();
        }
        c = c + 1;
    }
    proof {
        assert(canvas_flat(layout, store@) == clears_flat(layout, orig_flat, clears@));
        assert forall|i: int|
            0 <= i < dirty@.len() && orig_dirty@[i].dirty
                implies (#[trigger] dirty@[i]).dirty by {}
    }

    // single pixels, in order
    let ghost flat1 = canvas_flat(layout, store@);
    let ghost dirty1 = *dirty;
    let ghost bpw = batch_pixel_writes(layout, pixels@);
    let mut p: usize = 0;
    while p < pixels.len()
        invariant
            consistent(layout, *store, *dirty),
            store.num_chunks_spec() == orig_store.num_chunks_spec(),
            store.chunk_size_spec() == orig_store.chunk_size_spec(),
            dirty.num_chunks_spec() == orig_dirty.num_chunks_spec(),
            dirty.chunk_size_spec() == orig_dirty.chunk_size_spec(),
            dirty@.len() == orig_dirty@.len(),
            orig_dirty.wf(),
            dirty1.wf(),
            dirty1@.len() == dirty@.len(),
            p <= pixels@.len(),
            bpw == batch_pixel_writes(layout, pixels@),
            flat1 == clears_flat(layout, orig_flat, clears@),
            canvas_flat(layout, store@) == write_seq(flat1, bpw.take(p as int)),
            forall|i: int|
                0 <= i < dirty@.len() && dirty1@[i].dirty ==> (#[trigger] dirty@[i]).dirty,
        decreases pixels@.len() - p,
    {
        let ghost dirty_before = dirty@;
        let ghost flat_before = canvas_flat(layout, store@);
        let msg = DrawPixel { pos: pixels[p].pos, rgba_u32: pixels[p].rgba_u32 };
        apply_pixel(layout, store, dirty, &msg);
        proof {
            lemma_write_seq_take_step(flat1, bpw, p as int);
            assert(bpw[p as int] == (pixel_flat(layout, msg.pos), msg.rgba_u32));
            dirty.lemma_wf_bounds();
            orig_dirty.lemma_wf_bounds();
            layout.lemma_products();
            layout.lemma_addr_inverse(wrapped_x(layout, msg.pos), wrapped_y(layout, msg.pos));
            assert(orig_dirty.total_spec() == layout.total_chunks()) by (nonlinear_arith)
                requires
                    orig_dirty.total_spec() == orig_dirty.num_chunks_spec().x as nat
                        * orig_dirty.num_chunks_spec().y as nat,
                    layout.total_chunks() == layout.ncx() * layout.ncy(),
                    orig_dirty.num_chunks_spec().x as int == layout.ncx(),
                    orig_dirty.num_chunks_spec().y as int == layout.ncy(),
            ;
            assert(orig_dirty.wf());
            assert(orig_dirty@.len() == orig_dirty.total_spec());
            assert forall|i: int|
                0 <= i < dirty@.len() && dirty1@[i].dirty
                    implies (#[trigger] dirty@[i]).dirty by {
                lemma_mark_keeps_dirty(
                    dirty_before,
                    layout.chunk_size,
                    pixel_chunk(layout, msg.pos),
                    Vec2u {
                        x: pixel_lx(layout, msg.pos) as u32,
                        y: pixel_ly(layout, msg.pos) as u32,
                    },
                    Vec2u { x: 1, y: 1 },
                    i,
                );
            }
        }
        p = p + 1;
    }
    proof {
        assert(bpw.take(pixels@.len() as int) =~= bpw);
    }

    // pixel lists, in order; malformed ones are dropped and counted
    let ghost flat2 = canvas_flat(layout, store@);
    let ghost dirty2 = *dirty;
    let mut dropped_lists: usize = 0;
    let mut li: usize = 0;
    while li < lists.len()
        invariant
            consistent(layout, *store, *dirty),
            store.num_chunks_spec() == orig_store.num_chunks_spec(),
            store.chunk_size_spec() == orig_store.chunk_size_spec(),
            dirty.num_chunks_spec() == orig_dirty.num_chunks_spec(),
            dirty.chunk_size_spec() == orig_dirty.chunk_size_spec(),
            dirty@.len() == orig_dirty@.len(),
            orig_dirty.wf(),
            dirty2@.len() == dirty@.len(),
            li <= lists@.len(),
            flat2 == lists_flat(layout, flat2, lists@.take(0)),
            canvas_flat(layout, store@) == lists_flat(layout, flat2, lists@.take(li as int)),
            dropped_lists == rejected_lists(lists@.take(li as int)),
            dropped_lists <= li,
            forall|i: int|
                0 <= i < dirty@.len() && dirty2@[i].dirty ==> (#[trigger] dirty@[i]).dirty,
        decreases lists@.len() - li,
    {
        let ghost dirty_before = dirty@;
        proof {
            assert(lists@.take(li as int + 1).drop_last() =~= lists@.take(li as int));
            assert(lists@.take(li as int + 1).last() == lists@[li as int]);
        }
        let outcome = apply_pixels(layout, store, dirty, &lists[li]);
        if outcome.is_err() {
            dropped_lists = dropped_lists + 1;
        }
        proof {
            dirty.lemma_wf_bounds();
            orig_dirty.lemma_wf_bounds();
            assert forall|i: int|
                0 <= i < dirty@.len() && dirty2@[i].dirty
                    implies (#[trigger] dirty@[i]).dirty by {
                assert(dirty_before[i].dirty);
            }
        }
        li = li + 1;
    }
    proof {
        assert(lists@.take(lists@.len() as int) =~= lists@);
    }

    // rectangles, in order; malformed ones are dropped and counted
    let ghost flat3 = canvas_flat(layout, store@);
    let ghost dirty3 = *dirty;
    let mut dropped_rects: usize = 0;
    let mut ri: usize = 0;
    while ri < rects.len()
        invariant
            consistent(layout, *store, *dirty),
            store.num_chunks_spec() == orig_store.num_chunks_spec(),
            store.chunk_size_spec() == orig_store.chunk_size_spec(),
            dirty.num_chunks_spec() == orig_dirty.num_chunks_spec(),
            dirty.chunk_size_spec() == orig_dirty.chunk_size_spec(),
            dirty@.len() == orig_dirty@.len(),
            orig_dirty.wf(),
            dirty3@.len() == dirty@.len(),
            ri <= rects@.len(),
            canvas_flat(layout, store@) == rects_flat(layout, flat3, rects@.take(ri as int)),
            dropped_rects == rejected_rects(rects@.take(ri as int)),
            dropped_rects <= ri,
            forall|i: int|
                0 <= i < dirty@.len() && dirty3@[i].dirty ==> (#[trigger] dirty@[i]).dirty,
        decreases rects@.len() - ri,
    {
        let ghost dirty_before = dirty@;
        proof {
            assert(rects@.take(ri as int + 1).drop_last() =~= rects@.take(ri as int));
            assert(rects@.take(ri as int + 1).last() == rects@[ri as int]);
        }
        let outcome = apply_rect(layout, store, dirty, &rects[ri]);
        if outcome.is_err() {
            dropped_rects = dropped_rects + 1;
        }
        proof {
            dirty.lemma_wf_bounds();
            orig_dirty.lemma_wf_bounds();
            assert forall|i: int|
                0 <= i < dirty@.len() && dirty3@[i].dirty
                    implies (#[trigger] dirty@[i]).dirty by {
                assert(dirty_before[i].dirty);
            }
        }
        ri = ri + 1;
    }
    proof {
        assert(rects@.take(rects@.len() as int) =~= rects@);
    }

    // spans, in order
    let ghost flat4 = canvas_flat(layout, store@);
    let ghost dirty4 = *dirty;
    let mut si: usize = 0;
    while si < spans.len()
        invariant
            consistent(layout, *store, *dirty),
            store.num_chunks_spec() == orig_store.num_chunks_spec(),
            store.chunk_size_spec() == orig_store.chunk_size_spec(),
            dirty.num_chunks_spec() == orig_dirty.num_chunks_spec(),
            dirty.chunk_size_spec() == orig_dirty.chunk_size_spec(),
            dirty@.len() == orig_dirty@.len(),
            orig_dirty.wf(),
            dirty4@.len() == dirty@.len(),
            si <= spans@.len(),
            canvas_flat(layout, store@) == spans_flat(layout, flat4, spans@.take(si as int)),
            forall|i: int|
                0 <= i < dirty@.len() && dirty4@[i].dirty ==> (#[trigger] dirty@[i]).dirty,
        decreases spans@.len() - si,
    {
        let ghost dirty_before = dirty@;
        proof {
            assert(spans@.take(si as int + 1).drop_last() =~= spans@.take(si as int));
            assert(spans@.take(si as int + 1).last() == spans@[si as int]);
        }
        apply_span(layout, store, dirty, &spans[si]);
        proof {
            dirty.lemma_wf_bounds();
            orig_dirty.lemma_wf_bounds();
            assert forall|i: int|
                0 <= i < dirty@.len() && dirty4@[i].dirty
                    implies (#[trigger] dirty@[i]).dirty by {
                assert(dirty_before[i].dirty);
            }
        }
        si = si + 1;
    }
    proof {
        assert(spans@.take(spans@.len() as int) =~= spans@);
    }

    (dropped_lists, dropped_rects)
}

} // verus!
