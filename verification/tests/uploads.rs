use chunk_canvas::config::CanvasConfig;
use chunk_canvas::draw::{apply_clear, apply_pixel, apply_span, process_frame};
use chunk_canvas::messages::{ClearCanvas, DrawPixel, DrawPixels, DrawRect, DrawSpan};
use chunk_canvas::resources::{CanvasCpuChunks, CanvasDirtyRects, CanvasUploadOps};
use chunk_canvas::types::{CanvasLayout, ChunkKey, Vec2u};
use chunk_canvas::upload::{build_uploads, ROW_ALIGN_BYTES};
use chunk_canvas::utils::{pack_rgba8, unpack_rgba8};

fn canvas_512(
) -> (CanvasLayout, CanvasCpuChunks, CanvasDirtyRects) {
    let config = CanvasConfig::new(0, Vec2u { x: 512, y: 512 }, ChunkKey { x: 4, y: 4 });
    let layout = config.layout();
    let store = CanvasCpuChunks::new(config.num_chunks(), config.chunk_size(), 0);
    let dirty = CanvasDirtyRects::new(config.num_chunks(), config.chunk_size());
    (layout, store, dirty)
}

#[test]
fn descriptor_is_aligned_and_byte_exact() {
    let (layout, mut store, mut dirty) = canvas_512();
    let colour = pack_rgba8(10, 20, 30, 40);
    apply_pixel(layout, &mut store, &mut dirty, &DrawPixel {
        pos: Vec2u { x: 200, y: 40 },
        rgba_u32: colour,
    });
    let ops = build_uploads(layout, &store, &mut dirty);
    assert_eq!(ops.len(), 1);
    let op = &ops[0];
    // pixel (200, 40) lives in chunk (1, 0), local (72, 40)
    assert_eq!(op.chunk_index, 1);
    assert_eq!(op.start, Vec2u { x: 64, y: 40 });
    assert_eq!(op.size, Vec2u { x: 64, y: 1 });
    assert_eq!(op.bytes_per_row % ROW_ALIGN_BYTES, 0);
    assert_eq!(op.bytes_per_row, 256);
    assert_eq!(op.bytes.len(), 256);
    // the written pixel sits 8 pixels into the padded row
    let at = (72 - 64) * 4;
    assert_eq!(&op.bytes[at..at + 4], &unpack_rgba8(colour)[..]);
    // its neighbours carry the store's default colour
    assert_eq!(&op.bytes[0..4], &unpack_rgba8(0)[..]);
}

#[test]
fn drained_tracker_emits_nothing_until_marked_again() {
    let (layout, mut store, mut dirty) = canvas_512();
    apply_pixel(layout, &mut store, &mut dirty, &DrawPixel {
        pos: Vec2u { x: 0, y: 0 },
        rgba_u32: 9,
    });
    assert_eq!(build_uploads(layout, &store, &mut dirty).len(), 1);
    assert_eq!(build_uploads(layout, &store, &mut dirty).len(), 0);
    apply_pixel(layout, &mut store, &mut dirty, &DrawPixel {
        pos: Vec2u { x: 0, y: 0 },
        rgba_u32: 10,
    });
    assert_eq!(build_uploads(layout, &store, &mut dirty).len(), 1);
}

#[test]
fn narrow_chunk_clamps_the_aligned_range() {
    // chunks narrower than the alignment granularity: the X-range clamps
    // to the whole chunk width
    let config = CanvasConfig::new(0, Vec2u { x: 32, y: 32 }, ChunkKey { x: 2, y: 2 });
    let layout = config.layout();
    let mut store = CanvasCpuChunks::new(config.num_chunks(), config.chunk_size(), 0);
    let mut dirty = CanvasDirtyRects::new(config.num_chunks(), config.chunk_size());
    apply_pixel(layout, &mut store, &mut dirty, &DrawPixel {
        pos: Vec2u { x: 5, y: 3 },
        rgba_u32: 1,
    });
    let ops = build_uploads(layout, &store, &mut dirty);
    assert_eq!(ops.len(), 1);
    assert_eq!(ops[0].start, Vec2u { x: 0, y: 3 });
    assert_eq!(ops[0].size, Vec2u { x: 16, y: 1 });
    assert_eq!(ops[0].bytes_per_row, 64);
    assert_eq!(ops[0].bytes.len(), 64);
}

#[test]
fn upload_ops_snapshot_drains_on_take() {
    let mut pending = CanvasUploadOps::default();
    let (layout, mut store, mut dirty) = canvas_512();
    apply_pixel(layout, &mut store, &mut dirty, &DrawPixel {
        pos: Vec2u { x: 1, y: 1 },
        rgba_u32: 5,
    });
    pending.ops = build_uploads(layout, &store, &mut dirty);
    let snapshot = pending.clone();
    let taken = pending.ops.len();
    assert_eq!(snapshot.ops.len(), taken);
    let drained = pending.take_ops();
    assert_eq!(drained.len(), 1);
    assert_eq!(pending.ops.len(), 0);
}

#[test]
fn end_to_end_clear_pixel_span() {
    let (layout, mut store, mut dirty) = canvas_512();
    let white = pack_rgba8(255, 255, 255, 255);
    let red = pack_rgba8(255, 0, 0, 255);
    let blue = pack_rgba8(0, 0, 255, 255);

    // frame one: clear to white; every chunk uploads fully, aligned
    apply_clear(layout, &mut store, &mut dirty, &ClearCanvas { rgba_u32: white });
    let ops = build_uploads(layout, &store, &mut dirty);
    assert_eq!(ops.len(), 16);
    for (i, op) in ops.iter().enumerate() {
        assert_eq!(op.chunk_index, i);
        assert_eq!(op.start, Vec2u { x: 0, y: 0 });
        assert_eq!(op.size, Vec2u { x: 128, y: 128 });
        assert_eq!(op.bytes_per_row % ROW_ALIGN_BYTES, 0);
        assert_eq!(op.bytes.len(), op.bytes_per_row as usize * 128);
        assert_eq!(&op.bytes[0..4], &unpack_rgba8(white)[..]);
    }

    // frame two: one red pixel at the origin, four blue pixels starting at
    // (510, 0): two land at the canvas's right edge in chunk (3, 0), two
    // wrap into the next row in chunk (0, 0)
    apply_pixel(layout, &mut store, &mut dirty, &DrawPixel {
        pos: Vec2u { x: 0, y: 0 },
        rgba_u32: red,
    });
    apply_span(layout, &mut store, &mut dirty, &DrawSpan {
        start: Vec2u { x: 510, y: 0 },
        rgba_u32: vec![blue, blue, blue, blue],
    });
    let ops = build_uploads(layout, &store, &mut dirty);
    assert_eq!(ops.len(), 2);

    // chunk (0, 0): red at local (0, 0), blue at locals (0, 1) and (1, 1)
    let op0 = &ops[0];
    assert_eq!(op0.chunk_index, 0);
    assert_eq!(op0.start, Vec2u { x: 0, y: 0 });
    assert_eq!(op0.size, Vec2u { x: 64, y: 2 });
    assert_eq!(op0.bytes_per_row, 256);
    assert_eq!(op0.bytes_per_row % ROW_ALIGN_BYTES, 0);
    assert_eq!(op0.bytes.len(), 512);
    assert_eq!(&op0.bytes[0..4], &unpack_rgba8(red)[..]);
    assert_eq!(&op0.bytes[4..8], &unpack_rgba8(white)[..]);
    assert_eq!(&op0.bytes[256..260], &unpack_rgba8(blue)[..]);
    assert_eq!(&op0.bytes[260..264], &unpack_rgba8(blue)[..]);
    assert_eq!(&op0.bytes[264..268], &unpack_rgba8(white)[..]);

    // chunk (3, 0): blue at locals (126, 0) and (127, 0)
    let op3 = &ops[1];
    assert_eq!(op3.chunk_index, 3);
    assert_eq!(op3.start, Vec2u { x: 64, y: 0 });
    assert_eq!(op3.size, Vec2u { x: 64, y: 1 });
    assert_eq!(op3.bytes_per_row, 256);
    assert_eq!(op3.bytes_per_row % ROW_ALIGN_BYTES, 0);
    assert_eq!(op3.bytes.len(), 256);
    assert_eq!(&op3.bytes[248..252], &unpack_rgba8(blue)[..]);
    assert_eq!(&op3.bytes[252..256], &unpack_rgba8(blue)[..]);
    assert_eq!(&op3.bytes[244..248], &unpack_rgba8(white)[..]);
}

#[test]
fn frame_processes_kinds_in_order_and_counts_rejects() {
    let (layout, mut store, mut dirty) = canvas_512();
    let clears = vec![ClearCanvas { rgba_u32: 1 }];
    let pixels = vec![DrawPixel { pos: Vec2u { x: 9, y: 9 }, rgba_u32: 2 }];
    let lists = vec![
        DrawPixels {
            positions: vec![Vec2u { x: 9, y: 9 }, Vec2u { x: 10, y: 10 }],
            rgba_u32: vec![3, 3],
        },
        DrawPixels { positions: vec![Vec2u { x: 0, y: 0 }], rgba_u32: vec![4, 4] },
    ];
    let rects = vec![
        DrawRect {
            start: Vec2u { x: 9, y: 9 },
            size: Vec2u { x: 0, y: 1 },
            rgba_u32: Vec::new(),
        },
        DrawRect {
            start: Vec2u { x: 10, y: 10 },
            size: Vec2u { x: 2, y: 1 },
            rgba_u32: vec![5, 5],
        },
    ];
    let spans = vec![DrawSpan { start: Vec2u { x: 11, y: 10 }, rgba_u32: vec![6] }];
    let dropped = process_frame(
        layout, &mut store, &mut dirty, &clears, &pixels, &lists, &rects, &spans,
    );
    assert_eq!(dropped, (1, 1));
    // cleared background, then each later kind overwrote the earlier one
    let key = layout.chunk_key(layout.chunk_xy(Vec2u { x: 9, y: 9 }));
    assert_eq!(key, ChunkKey { x: 0, y: 0 });
    let stride = store.stride();
    assert_eq!(store.read(0, 5 * stride + 5), 1); // untouched: clear colour
    assert_eq!(store.read(0, 9 * stride + 9), 3); // list overwrote the pixel
    assert_eq!(store.read(0, 10 * stride + 10), 5); // rect overwrote the list
    assert_eq!(store.read(0, 10 * stride + 11), 6); // span overwrote the rect
}
