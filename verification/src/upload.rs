//! The upload batch builder.
//!
//! Once per frame, every chunk's dirty rectangle is drained; for each
//! dirtied chunk the builder widens the X-range outward to the transfer
//! alignment granularity (clamped to the chunk width), reads the covered
//! colour words back from the chunk store, lays them out as little-endian
//! RGBA8 rows, and emits exactly one upload descriptor. A clean chunk
//! emits nothing.

use vstd::prelude::*;
use vstd::arithmetic::div_mod::{
    lemma_fundamental_div_mod, lemma_fundamental_div_mod_converse, lemma_mod_multiples_basic,
};
use vstd::arithmetic::mul::lemma_mul_inequality;
use crate::draw::consistent;
use crate::resources::{CanvasCpuChunks, CanvasDirtyRects};
use crate::types::{CanvasLayout, CanvasUploadOp, DirtyRect, Vec2u};
use crate::utils::{colour_byte, unpack_rgba8};

verus! {

/// Pixel granularity of the X-range widening: with 4-byte colours this
/// makes every row stride a multiple of the transfer alignment whenever
/// the chunk width is itself a multiple of the granularity.
pub const ROW_ALIGN_PIXELS: u32 = 64;

/// Bytes per packed RGBA8 pixel.
pub const BYTES_PER_PIXEL: u32 = 4;

/// Required row-stride alignment of the GPU transfer API, in bytes.
pub const ROW_ALIGN_BYTES: u32 = ROW_ALIGN_PIXELS * BYTES_PER_PIXEL;

/// `x` rounded down to the alignment granularity.
pub open spec fn align_down(x: int) -> int {
    (x / ROW_ALIGN_PIXELS as int) * ROW_ALIGN_PIXELS as int
}

/// The exclusive end `x_excl` rounded up to the alignment granularity and
/// clamped to the chunk width.
pub open spec fn align_up_clamped(x_excl: int, chunk_w: int) -> int {
    let a = ((x_excl - 1) / ROW_ALIGN_PIXELS as int + 1) * ROW_ALIGN_PIXELS as int;
    if a <= chunk_w {
        a
    } else {
        chunk_w
    }
}

/// One padded row of an upload payload: `n` pixels of row `y`, starting at
/// column `x0`, each as four little-endian RGBA8 bytes.
pub open spec fn row_bytes(chunk: Seq<u32>, stride: int, x0: int, y: int, n: int) -> Seq<u8> {
    Seq::new((n * 4) as nat, |b: int| colour_byte(chunk[y * stride + x0 + b / 4], b % 4))
}

/// A whole upload payload: `h` rows of `w` pixels each, rows `y0..y0+h`
/// and columns `x0..x0+w` of a chunk with the given row stride, row-major,
/// each pixel as four little-endian RGBA8 bytes.
pub open spec fn upload_bytes(
    chunk: Seq<u32>,
    stride: int,
    x0: int,
    w: int,
    y0: int,
    h: int,
) -> Seq<u8> {
    Seq::new(
        (h * (w * 4)) as nat,
        |b: int|
            colour_byte(
                chunk[(y0 + b / (w * 4)) * stride + x0 + (b % (w * 4)) / 4],
                (b % (w * 4)) % 4,
            ),
    )
}

/// The linear indices of the dirty chunks of a tracker state, in
/// increasing order.
pub open spec fn dirty_indices(rects: Seq<DirtyRect>) -> Seq<int>
    decreases rects.len(),
{
    if rects.len() == 0 {
        Seq::empty()
    } else if rects.last().dirty {
        dirty_indices(rects.drop_last()).push(rects.len() - 1)
    } else {
        dirty_indices(rects.drop_last())
    }
}

/// At most and at least one upload per dirtied chunk per frame: the dirty
/// chunk indices of a tracker state list exactly the dirty chunks, each
/// once, in strictly increasing order.
pub proof fn lemma_dirty_indices_exact(rects: Seq<DirtyRect>)
    ensures
        forall|k: int|
            0 <= k < dirty_indices(rects).len()
                ==> 0 <= #[trigger] dirty_indices(rects)[k] < rects.len()
                    && rects[dirty_indices(rects)[k]].dirty,
        forall|k1: int, k2: int|
            0 <= k1 < k2 < dirty_indices(rects).len()
                ==> #[trigger] dirty_indices(rects)[k1] < #[trigger] dirty_indices(rects)[k2],
        forall|i: int|
            0 <= i < rects.len() && (#[trigger] rects[i]).dirty
                ==> exists|k: int|
                0 <= k < dirty_indices(rects).len() && #[trigger] dirty_indices(rects)[k] == i,
    decreases rects.len(),
{
    if rects.len() > 0 {
        let shorter = rects.drop_last();
        lemma_dirty_indices_exact(shorter);
        let base = dirty_indices(shorter);
        assert forall|k: int|
            0 <= k < dirty_indices(rects).len()
                implies 0 <= #[trigger] dirty_indices(rects)[k] < rects.len()
                    && rects[dirty_indices(rects)[k]].dirty by {
            if k < base.len() {
                assert(dirty_indices(rects)[k] == base[k]);
                assert(shorter[base[k]] == rects[base[k]]);
            }
        }
        assert forall|k1: int, k2: int|
            0 <= k1 < k2 < dirty_indices(rects).len()
                implies #[trigger] dirty_indices(rects)[k1]
                    < #[trigger] dirty_indices(rects)[k2] by {
            if k2 < base.len() {
                assert(dirty_indices(rects)[k1] == base[k1]);
                assert(dirty_indices(rects)[k2] == base[k2]);
            } else {
                assert(dirty_indices(rects)[k1] == base[k1]);
                assert(0 <= base[k1] < shorter.len());
            }
        }
        assert forall|i: int|
            0 <= i < rects.len() && (#[trigger] rects[i]).dirty
                implies exists|k: int|
                0 <= k < dirty_indices(rects).len() && #[trigger] dirty_indices(rects)[k] == i by {
            if i == rects.len() - 1 {
                assert(rects.last().dirty);
                assert(dirty_indices(rects)[base.len() as int] == i);
            } else {
                assert(shorter[i] == rects[i]);
                let k = choose|k: int|
                    0 <= k < base.len() && #[trigger] base[k] == i;
                assert(dirty_indices(rects)[k] == base[k]);
            }
        }
    }
}

/// The upload descriptor that the builder emits for chunk `ci` whose
/// drained inclusive rectangle is `(mn, mx)`: the X-range widened to the
/// alignment granularity and clamped to the chunk width, one padded row
/// per covered chunk row, and the covered colour words as little-endian
/// RGBA8 bytes.
pub open spec fn op_matches(
    layout: CanvasLayout,
    chunk: Seq<u32>,
    ci: int,
    mn: Vec2u,
    mx: Vec2u,
    op: CanvasUploadOp,
) -> bool {
    let x0 = align_down(mn.x as int);
    let x1 = align_up_clamped(mx.x as int + 1, layout.chunk_size.x as int);
    &&& op.chunk_index == ci
    &&& op.start.x == x0
    &&& op.start.y == mn.y
    &&& op.size.x == x1 - x0
    &&& op.size.y == mx.y - mn.y + 1
    &&& op.bytes_per_row == (x1 - x0) * 4
    &&& op.bytes@ == upload_bytes(
        chunk,
        layout.chunk_size.x as int,
        x0,
        x1 - x0,
        mn.y as int,
        mx.y - mn.y + 1,
    )
}

/// Descriptor `k` of a batch describes the `k`-th dirty chunk of `rects`,
/// built from that chunk's buffer and drained rectangle.
pub open spec fn op_at(
    layout: CanvasLayout,
    chunks: Seq<Seq<u32>>,
    rects: Seq<DirtyRect>,
    k: int,
    op: CanvasUploadOp,
) -> bool {
    op_matches(
        layout,
        chunks[dirty_indices(rects)[k]],
        dirty_indices(rects)[k],
        rects[dirty_indices(rects)[k]].min,
        rects[dirty_indices(rects)[k]].max,
        op,
    )
}

/// Extending a padded row by one pixel appends that pixel's four
/// little-endian bytes.
proof fn lemma_row_bytes_step(chunk: Seq<u32>, stride: int, x0: int, y: int, cx: int)
    requires
        0 <= cx,
    ensures
        row_bytes(chunk, stride, x0, y, cx + 1) == row_bytes(chunk, stride, x0, y, cx)
            .push(colour_byte(chunk[y * stride + x0 + cx], 0))
            .push(colour_byte(chunk[y * stride + x0 + cx], 1))
            .push(colour_byte(chunk[y * stride + x0 + cx], 2))
            .push(colour_byte(chunk[y * stride + x0 + cx], 3)),
{
    let lhs = row_bytes(chunk, stride, x0, y, cx + 1);
    let rhs = row_bytes(chunk, stride, x0, y, cx)
        .push(colour_byte(chunk[y * stride + x0 + cx], 0))
        .push(colour_byte(chunk[y * stride + x0 + cx], 1))
        .push(colour_byte(chunk[y * stride + x0 + cx], 2))
        .push(colour_byte(chunk[y * stride + x0 + cx], 3));
    assert forall|b: int| 0 <= b < (cx + 1) * 4 implies lhs[b] == rhs[b] by {
        if b >= cx * 4 {
            lemma_fundamental_div_mod_converse(b, 4, cx, b - cx * 4);
        }
    }
    assert(lhs =~= rhs);
}

/// Extending a payload by one row appends that row's padded bytes.
proof fn lemma_upload_bytes_row(chunk: Seq<u32>, stride: int, x0: int, w: int, y0: int, r: int)
    requires
        1 <= w,
        0 <= r,
    ensures
        upload_bytes(chunk, stride, x0, w, y0, r + 1) == upload_bytes(chunk, stride, x0, w, y0, r)
            + row_bytes(chunk, stride, x0, y0 + r, w),
{
    let w4 = w * 4;
    let lhs = upload_bytes(chunk, stride, x0, w, y0, r + 1);
    let rhs = upload_bytes(chunk, stride, x0, w, y0, r) + row_bytes(chunk, stride, x0, y0 + r, w);
    assert((r + 1) * w4 == r * w4 + w4) by (nonlinear_arith);
    assert forall|b: int| 0 <= b < (r + 1) * w4 implies lhs[b] == rhs[b] by {
        if b >= r * w4 {
            let u = b - r * w4;
            lemma_fundamental_div_mod_converse(b, w4, r, u);
        }
    }
    assert(lhs =~= rhs);
}

/// Build the frame's upload batch: drain every chunk's dirty rectangle in
/// linear chunk order and emit one alignment-padded descriptor per chunk
/// that was dirty — at most one per chunk per frame. The tracker is left
/// entirely clean. The two size bounds are limits of the transfer API:
/// a row stride must fit the descriptor's 32-bit field, and one chunk's
/// byte payload must be addressable.
pub fn build_uploads(
    layout: CanvasLayout,
    store: &CanvasCpuChunks,
    dirty: &mut CanvasDirtyRects,
) -> (ops: Vec<CanvasUploadOp>)
    requires
        consistent(layout, *store, *old(dirty)),
        layout.chunk_size.x as int * 4 <= u32::MAX,
        layout.pixels_per_chunk() * 4 <= usize::MAX,
    ensures
        consistent(layout, *store, *final(dirty)),
        final(dirty).num_chunks_spec() == old(dirty).num_chunks_spec(),
        final(dirty).chunk_size_spec() == old(dirty).chunk_size_spec(),
        forall|j: int| 0 <= j < final(dirty)@.len() ==> !(#[trigger] final(dirty)@[j]).dirty,
        ops@.len() == dirty_indices(old(dirty)@).len(),
        forall|k: int|
            0 <= k < ops@.len() ==> op_at(layout, store@, old(dirty)@, k, #[trigger] ops@[k]),
{
    let ghost orig_dirty = *dirty;
    let total = dirty.len();
    let stride = store.stride();
    let chunk_h = store.total_chunks();
    proof {
        dirty.lemma_wf_bounds();
        crate::draw::lemma_consistent_shape(layout, *store);
    }
    let mut ops: Vec<CanvasUploadOp> = Vec::new();
    let mut ci: usize = 0;
    while ci < total
        invariant
            consistent(layout, *store, *dirty),
            dirty.num_chunks_spec() == orig_dirty.num_chunks_spec(),
            dirty.chunk_size_spec() == orig_dirty.chunk_size_spec(),
            orig_dirty.wf(),
            total == dirty@.len(),
            total == orig_dirty@.len(),
            stride == layout.chunk_size.x,
            layout.chunk_size.x as int * 4 <= u32::MAX,
            layout.pixels_per_chunk() * 4 <= usize::MAX,
            ci <= total,
            forall|j: int| 0 <= j < ci ==> !(#[trigger] dirty@[j]).dirty,
            forall|j: int| ci <= j < total ==> dirty@[j] == orig_dirty@[j],
            ops@.len() == dirty_indices(orig_dirty@.take(ci as int)).len(),
            forall|k: int|
                0 <= k < ops@.len()
                    ==> op_at(layout, store@, orig_dirty@.take(ci as int), k, #[trigger] ops@[k]),
        decreases total - ci,
    {
        let ghost prefix = orig_dirty@.take(ci as int);
        let ghost prefix1 = orig_dirty@.take(ci as int + 1);
        proof {
            assert(prefix1.drop_last() =~= prefix);
            assert(prefix1.last() == orig_dirty@[ci as int]);
            lemma_dirty_indices_exact(prefix);
        }
        let taken = dirty.take(ci);
        match taken {
            None => {
                proof {
                    assert(dirty_indices(prefix1) == dirty_indices(prefix));
                    assert forall|k: int| 0 <= k < ops@.len()
                        implies op_at(layout, store@, prefix1, k, #[trigger] ops@[k]) by {
                        assert(op_at(layout, store@, prefix, k, ops@[k]));
                        let idx = dirty_indices(prefix)[k];
                        assert(prefix1[idx] == prefix[idx]);
                    }
                }
            },
            Some((mn, mx)) => {
                proof {
                    dirty.lemma_wf_bounds();
                    orig_dirty.lemma_wf_bounds();
                    lemma_fundamental_div_mod(mn.x as int, ROW_ALIGN_PIXELS as int);
                    lemma_fundamental_div_mod(mx.x as int, ROW_ALIGN_PIXELS as int);
                    vstd::arithmetic::div_mod::lemma_mod_bound(mn.x as int, ROW_ALIGN_PIXELS as int);
                    vstd::arithmetic::div_mod::lemma_mod_bound(mx.x as int, ROW_ALIGN_PIXELS as int);
                }
                let x0: u32 = (mn.x / ROW_ALIGN_PIXELS) * ROW_ALIGN_PIXELS;
                let x1_wide: u32 = (mx.x / ROW_ALIGN_PIXELS + 1) * ROW_ALIGN_PIXELS;
                let x1: u32 = if x1_wide <= layout.chunk_size.x {
                    x1_wide
                } else {
                    layout.chunk_size.x
                };
                let width: u32 = x1 - x0;
                let height: u32 = mx.y - mn.y + 1;
                proof {
                    assert(x0 == align_down(mn.x as int));
                    assert(x1 == align_up_clamped(mx.x as int + 1, layout.chunk_size.x as int));
                    assert(x0 <= mn.x && mx.x < x1);
                }
                proof {
                    crate::draw::lemma_consistent_shape(layout, *store);
                    assert(dirty.total_spec() == layout.total_chunks()) by (nonlinear_arith)
                        requires
                            dirty.total_spec() == dirty.num_chunks_spec().x as nat
                                * dirty.num_chunks_spec().y as nat,
                            layout.total_chunks() == layout.ncx() * layout.ncy(),
                            dirty.num_chunks_spec().x as int == layout.ncx(),
                            dirty.num_chunks_spec().y as int == layout.ncy(),
                    ;
                }
                let ghost chunk = store@[ci as int];
                let mut bytes: Vec<u8> = Vec::new();
                let mut ry: u32 = 0;
                while ry < height
                    invariant
                        consistent(layout, *store, *dirty),
                        stride == layout.chunk_size.x,
                        layout.pixels_per_chunk() * 4 <= usize::MAX,
                        ci < dirty@.len(),
                        dirty@.len() == layout.total_chunks(),
                        chunk == store@[ci as int],
                        chunk.len() == layout.pixels_per_chunk(),
                        ry <= height,
                        1 <= width,
                        x0 + width <= layout.chunk_size.x,
                        mn.y + height <= layout.chunk_size.y,
                        bytes@ == upload_bytes(
                            chunk,
                            stride as int,
                            x0 as int,
                            width as int,
                            mn.y as int,
                            ry as int,
                        ),
                    decreases height - ry,
                {
                    let y: u32 = mn.y + ry;
                    let mut cx: u32 = 0;
                    proof {
                        assert(bytes@ + row_bytes(chunk, stride as int, x0 as int, y as int, 0)
                            =~= bytes@);
                    }
                    while cx < width
                        invariant
                            consistent(layout, *store, *dirty),
                            stride == layout.chunk_size.x,
                            layout.pixels_per_chunk() * 4 <= usize::MAX,
                            ci < dirty@.len(),
                            dirty@.len() == layout.total_chunks(),
                            chunk == store@[ci as int],
                            chunk.len() == layout.pixels_per_chunk(),
                            ry < height,
                            y == mn.y + ry,
                            cx <= width,
                            1 <= width,
                            x0 + width <= layout.chunk_size.x,
                            mn.y + height <= layout.chunk_size.y,
                            bytes@ == upload_bytes(
                                chunk,
                                stride as int,
                                x0 as int,
                                width as int,
                                mn.y as int,
                                ry as int,
                            ) + row_bytes(chunk, stride as int, x0 as int, y as int, cx as int),
                        decreases width - cx,
                    {
                        proof {
                            crate::draw::lemma_consistent_shape(layout, *store);
                            lemma_mul_inequality(
                                y as int + 1,
                                layout.chunk_size.y as int,
                                layout.chunk_size.x as int,
                            );
                            assert((y as int + 1) * layout.chunk_size.x as int
                                == y as int * layout.chunk_size.x as int
                                    + layout.chunk_size.x as int) by (nonlinear_arith);
                            assert(layout.chunk_size.y as int * layout.chunk_size.x as int
                                == layout.chunk_size.x as int * layout.chunk_size.y as int)
                                by (nonlinear_arith);
                        }
                        let offset: usize = (y as usize) * stride + (x0 + cx) as usize;
                        let px = store.read(ci, offset);
                        let pxb = unpack_rgba8(px);
                        let ghost row_before = row_bytes(
                            chunk,
                            stride as int,
                            x0 as int,
                            y as int,
                            cx as int,
                        );
                        bytes.push(pxb[0]);
                        bytes.push(pxb[1]);
                        bytes.push(pxb[2]);
                        bytes.push(pxb[3]);
                        proof {
                            lemma_row_bytes_step(chunk, stride as int, x0 as int, y as int, cx as int);
                            assert(bytes@ =~= upload_bytes(
                                chunk,
                                stride as int,
                                x0 as int,
                                width as int,
                                mn.y as int,
                                ry as int,
                            ) + row_bytes(chunk, stride as int, x0 as int, y as int, cx as int + 1));
                        }
                        cx = cx + 1;
                    }
                    proof {
                        lemma_upload_bytes_row(
                            chunk,
                            stride as int,
                            x0 as int,
                            width as int,
                            mn.y as int,
                            ry as int,
                        );
                    }
                    ry = ry + 1;
                }
                let bytes_per_row: u32 = width * BYTES_PER_PIXEL;
                let op = CanvasUploadOp {
                    chunk_index: ci,
                    start: Vec2u { x: x0, y: mn.y },
                    size: Vec2u { x: width, y: height },
                    bytes_per_row,
                    bytes,
                };
                proof {
                    assert(op_matches(layout, chunk, ci as int, mn, mx, op));
                }
                let ghost ops_before = ops@;
                ops.push(op);
                proof {
                    assert(dirty_indices(prefix1) == dirty_indices(prefix).push(ci as int));
                    assert forall|k: int| 0 <= k < ops@.len()
                        implies op_at(layout, store@, prefix1, k, #[trigger] ops@[k]) by {
                        if k < ops_before.len() {
                            assert(op_at(layout, store@, prefix, k, ops_before[k]));
                            let idx = dirty_indices(prefix)[k];
                            assert(dirty_indices(prefix1)[k] == idx);
                            assert(prefix1[idx] == prefix[idx]);
                        } else {
                            assert(dirty_indices(prefix1)[k] == ci as int);
                            assert(prefix1[ci as int] == orig_dirty@[ci as int]);
                            assert(mn == orig_dirty@[ci as int].min);
                            assert(mx == orig_dirty@[ci as int].max);
                        }
                    }
                }
            },
        }
        ci = ci + 1;
    }
    proof {
        assert(orig_dirty@.take(total as int) =~= orig_dirty@);
    }
    ops
}

/// Every descriptor the builder emits has a byte payload of exactly
/// `bytes_per_row * height` bytes, and, whenever the alignment granularity
/// divides the chunk width, a row byte-stride that is a multiple of the
/// transfer alignment.
pub proof fn lemma_upload_alignment(
    layout: CanvasLayout,
    chunk: Seq<u32>,
    ci: int,
    mn: Vec2u,
    mx: Vec2u,
    op: CanvasUploadOp,
)
    requires
        layout.wf(),
        op_matches(layout, chunk, ci, mn, mx, op),
        mn.x <= mx.x < layout.chunk_size.x,
        mn.y <= mx.y < layout.chunk_size.y,
    ensures
        op.bytes@.len() == op.bytes_per_row * op.size.y,
        layout.chunk_size.x as int % ROW_ALIGN_PIXELS as int == 0
            ==> op.bytes_per_row as int % ROW_ALIGN_BYTES as int == 0,
{
    let a = ROW_ALIGN_PIXELS as int;
    let csx = layout.chunk_size.x as int;
    let x0 = align_down(mn.x as int);
    let x1 = align_up_clamped(mx.x as int + 1, csx);
    let w = x1 - x0;
    let h = mx.y - mn.y + 1;
    assert(op.bytes@.len() == h * (w * 4));
    assert(h * (w * 4) == (w * 4) * h) by (nonlinear_arith);
    if csx % a == 0 {
        let q0 = mn.x as int / a;
        let q1 = mx.x as int / a + 1;
        let qc = csx / a;
        lemma_fundamental_div_mod(csx, a);
        if x1 == csx {
            assert(w == (qc - q0) * a) by (nonlinear_arith)
                requires
                    x0 == q0 * a,
                    x1 == qc * a,
                    w == x1 - x0,
            ;
            assert(w * 4 == (qc - q0) * (a * 4)) by (nonlinear_arith)
                requires
                    w == (qc - q0) * a,
            ;
            lemma_mod_multiples_basic(qc - q0, a * 4);
        } else {
            assert(w == (q1 - q0) * a) by (nonlinear_arith)
                requires
                    x0 == q0 * a,
                    x1 == q1 * a,
                    w == x1 - x0,
            ;
            assert(w * 4 == (q1 - q0) * (a * 4)) by (nonlinear_arith)
                requires
                    w == (q1 - q0) * a,
            ;
            lemma_mod_multiples_basic(q1 - q0, a * 4);
        }
    }
}

} // verus!
