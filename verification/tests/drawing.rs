use chunk_canvas::config::CanvasConfig;
use chunk_canvas::draw::{
    apply_clear, apply_pixel, apply_pixels, apply_rect, apply_span, DrawError,
};
use chunk_canvas::messages::{ClearCanvas, DrawPixel, DrawPixels, DrawRect, DrawSpan};
use chunk_canvas::resources::{CanvasCpuChunks, CanvasDirtyRects};
use chunk_canvas::types::{CanvasLayout, ChunkKey, Vec2u};

fn canvas_32(
) -> (CanvasLayout, CanvasCpuChunks, CanvasDirtyRects) {
    let config = CanvasConfig::new(0, Vec2u { x: 32, y: 32 }, ChunkKey { x: 2, y: 2 });
    let layout = config.layout();
    let store = CanvasCpuChunks::new(config.num_chunks(), config.chunk_size(), 0);
    let dirty = CanvasDirtyRects::new(config.num_chunks(), config.chunk_size());
    (layout, store, dirty)
}

fn read_at(layout: &CanvasLayout, store: &CanvasCpuChunks, pos: Vec2u) -> u32 {
    let w = layout.wrap(pos);
    let key = layout.chunk_key(layout.chunk_xy(w));
    let local = layout.local_xy(w);
    let index = key.y as usize * layout.num_chunks().x as usize + key.x as usize;
    let offset = local.y as usize * store.stride() + local.x as usize;
    store.read(index, offset)
}

fn same_contents(a: &CanvasCpuChunks, b: &CanvasCpuChunks) -> bool {
    let total = a.total_chunks();
    if total != b.total_chunks() {
        return false;
    }
    for i in 0..total {
        if a.chunk(i) != b.chunk(i) {
            return false;
        }
    }
    true
}

#[test]
fn pixel_write_reads_back_through_layout() {
    let (layout, mut store, mut dirty) = canvas_32();
    let red = 0x0000_00ff;
    apply_pixel(layout, &mut store, &mut dirty, &DrawPixel {
        pos: Vec2u { x: 20, y: 9 },
        rgba_u32: red,
    });
    assert_eq!(read_at(&layout, &store, Vec2u { x: 20, y: 9 }), red);
    assert_eq!(read_at(&layout, &store, Vec2u { x: 21, y: 9 }), 0);
    // out-of-canvas coordinates wrap rather than fail
    apply_pixel(layout, &mut store, &mut dirty, &DrawPixel {
        pos: Vec2u { x: 32 + 5, y: 64 + 6 },
        rgba_u32: 77,
    });
    assert_eq!(read_at(&layout, &store, Vec2u { x: 5, y: 6 }), 77);
}

#[test]
fn clear_fills_every_pixel_and_dirties_every_chunk_fully() {
    let (layout, mut store, mut dirty) = canvas_32();
    apply_clear(layout, &mut store, &mut dirty, &ClearCanvas { rgba_u32: 42 });
    for y in 0..32 {
        for x in 0..32 {
            assert_eq!(read_at(&layout, &store, Vec2u { x, y }), 42);
        }
    }
    for i in 0..4 {
        assert_eq!(
            dirty.take(i),
            Some((Vec2u { x: 0, y: 0 }, Vec2u { x: 15, y: 15 }))
        );
    }
}

#[test]
fn single_pixel_dirty_rect_is_exactly_that_pixel() {
    let (layout, mut store, mut dirty) = canvas_32();
    apply_pixel(layout, &mut store, &mut dirty, &DrawPixel {
        pos: Vec2u { x: 3, y: 7 },
        rgba_u32: 1,
    });
    assert_eq!(dirty.take(0), Some((Vec2u { x: 3, y: 7 }, Vec2u { x: 3, y: 7 })));
    for i in 1..4 {
        assert!(dirty.take(i).is_none());
    }
}

#[test]
fn rect_across_chunk_boundary_equals_single_pixel_writes() {
    let (layout, mut store_a, mut dirty_a) = canvas_32();
    let (_, mut store_b, mut dirty_b) = canvas_32();
    // 6 x 4 block straddling the vertical chunk boundary at x = 16
    // and the horizontal one at y = 16
    let start = Vec2u { x: 14, y: 15 };
    let size = Vec2u { x: 6, y: 4 };
    let colours: Vec<u32> = (0..24).map(|k| 0x100 + k).collect();
    let outcome = apply_rect(layout, &mut store_a, &mut dirty_a, &DrawRect {
        start,
        size,
        rgba_u32: colours.clone(),
    });
    assert!(outcome.is_ok());
    for ry in 0..4u32 {
        for rx in 0..6u32 {
            apply_pixel(layout, &mut store_b, &mut dirty_b, &DrawPixel {
                pos: Vec2u { x: start.x + rx, y: start.y + ry },
                rgba_u32: colours[(ry * 6 + rx) as usize],
            });
        }
    }
    assert!(same_contents(&store_a, &store_b));
    for i in 0..4 {
        assert_eq!(dirty_a.take(i), dirty_b.take(i));
    }
}

#[test]
fn rect_past_canvas_edge_wraps_toroidally() {
    let (layout, mut store_a, mut dirty_a) = canvas_32();
    let (_, mut store_b, mut dirty_b) = canvas_32();
    let start = Vec2u { x: 30, y: 30 };
    let size = Vec2u { x: 5, y: 4 };
    let colours: Vec<u32> = (0..20).map(|k| 0x900 + k).collect();
    let outcome = apply_rect(layout, &mut store_a, &mut dirty_a, &DrawRect {
        start,
        size,
        rgba_u32: colours.clone(),
    });
    assert!(outcome.is_ok());
    for ry in 0..4u32 {
        for rx in 0..5u32 {
            apply_pixel(layout, &mut store_b, &mut dirty_b, &DrawPixel {
                pos: Vec2u { x: (start.x + rx) % 32, y: (start.y + ry) % 32 },
                rgba_u32: colours[(ry * 5 + rx) as usize],
            });
        }
    }
    assert!(same_contents(&store_a, &store_b));
    // the wrapped block lands in all four chunks
    for i in 0..4 {
        assert_eq!(dirty_a.take(i), dirty_b.take(i));
    }
}

#[test]
fn span_advances_across_rows_and_wraps_at_the_end() {
    let (layout, mut store_a, mut dirty_a) = canvas_32();
    let (_, mut store_b, mut dirty_b) = canvas_32();
    let start = Vec2u { x: 30, y: 31 };
    let colours: Vec<u32> = (0..7).map(|k| 0x40 + k).collect();
    apply_span(layout, &mut store_a, &mut dirty_a, &DrawSpan {
        start,
        rgba_u32: colours.clone(),
    });
    for (k, colour) in colours.iter().enumerate() {
        let l = (31 * 32 + 30 + k as u32) % (32 * 32);
        apply_pixel(layout, &mut store_b, &mut dirty_b, &DrawPixel {
            pos: Vec2u { x: l % 32, y: l / 32 },
            rgba_u32: *colour,
        });
    }
    assert!(same_contents(&store_a, &store_b));
    for i in 0..4 {
        assert_eq!(dirty_a.take(i), dirty_b.take(i));
    }
    // the stream is contiguous: last pixel of the canvas, then the first
    assert_eq!(read_at(&layout, &store_a, Vec2u { x: 31, y: 31 }), 0x41);
    assert_eq!(read_at(&layout, &store_a, Vec2u { x: 0, y: 0 }), 0x42);
}

#[test]
fn empty_span_is_a_no_op() {
    let (layout, mut store, mut dirty) = canvas_32();
    let (_, fresh, _) = canvas_32();
    apply_span(layout, &mut store, &mut dirty, &DrawSpan {
        start: Vec2u { x: 3, y: 3 },
        rgba_u32: Vec::new(),
    });
    assert!(same_contents(&store, &fresh));
    for i in 0..4 {
        assert!(dirty.take(i).is_none());
    }
}

#[test]
fn mismatched_pixel_list_is_rejected_without_effect() {
    let (layout, mut store, mut dirty) = canvas_32();
    let (_, fresh, _) = canvas_32();
    let outcome = apply_pixels(layout, &mut store, &mut dirty, &DrawPixels {
        positions: vec![Vec2u { x: 1, y: 1 }, Vec2u { x: 2, y: 2 }],
        rgba_u32: vec![1, 2, 3],
    });
    assert_eq!(outcome, Err(DrawError::LengthMismatch));
    assert!(same_contents(&store, &fresh));
    for i in 0..4 {
        assert!(dirty.take(i).is_none());
    }
}

#[test]
fn matched_pixel_list_writes_every_pixel() {
    let (layout, mut store, mut dirty) = canvas_32();
    let outcome = apply_pixels(layout, &mut store, &mut dirty, &DrawPixels {
        positions: vec![Vec2u { x: 1, y: 1 }, Vec2u { x: 30, y: 20 }, Vec2u { x: 33, y: 0 }],
        rgba_u32: vec![11, 22, 33],
    });
    assert!(outcome.is_ok());
    assert_eq!(read_at(&layout, &store, Vec2u { x: 1, y: 1 }), 11);
    assert_eq!(read_at(&layout, &store, Vec2u { x: 30, y: 20 }), 22);
    assert_eq!(read_at(&layout, &store, Vec2u { x: 1, y: 0 }), 33);
}

#[test]
fn mismatched_rect_is_rejected_without_effect() {
    let (layout, mut store, mut dirty) = canvas_32();
    let (_, fresh, _) = canvas_32();
    let outcome = apply_rect(layout, &mut store, &mut dirty, &DrawRect {
        start: Vec2u { x: 0, y: 0 },
        size: Vec2u { x: 3, y: 3 },
        rgba_u32: vec![1, 2, 3, 4],
    });
    assert_eq!(outcome, Err(DrawError::LengthMismatch));
    assert!(same_contents(&store, &fresh));
    for i in 0..4 {
        assert!(dirty.take(i).is_none());
    }
}

#[test]
fn zero_sized_rect_is_rejected_without_effect() {
    let (layout, mut store, mut dirty) = canvas_32();
    let (_, fresh, _) = canvas_32();
    let outcome = apply_rect(layout, &mut store, &mut dirty, &DrawRect {
        start: Vec2u { x: 0, y: 0 },
        size: Vec2u { x: 0, y: 4 },
        rgba_u32: Vec::new(),
    });
    assert_eq!(outcome, Err(DrawError::ZeroSize));
    assert!(same_contents(&store, &fresh));
    for i in 0..4 {
        assert!(dirty.take(i).is_none());
    }
}

#[test]
fn later_requests_overwrite_earlier_ones() {
    let (layout, mut store, mut dirty) = canvas_32();
    apply_pixel(layout, &mut store, &mut dirty, &DrawPixel {
        pos: Vec2u { x: 5, y: 5 },
        rgba_u32: 1,
    });
    apply_pixel(layout, &mut store, &mut dirty, &DrawPixel {
        pos: Vec2u { x: 5, y: 5 },
        rgba_u32: 2,
    });
    assert_eq!(read_at(&layout, &store, Vec2u { x: 5, y: 5 }), 2);
}

#[test]
fn rect_wider_than_the_canvas_overwrites_in_source_order() {
    let (layout, mut store, mut dirty) = canvas_32();
    // 33 pixels in one row on a 32-wide canvas: the last pixel wraps back
    // onto the first, and being later in source order it wins
    let colours: Vec<u32> = (0..33).map(|k| 0x200 + k).collect();
    let outcome = apply_rect(layout, &mut store, &mut dirty, &DrawRect {
        start: Vec2u { x: 0, y: 0 },
        size: Vec2u { x: 33, y: 1 },
        rgba_u32: colours.clone(),
    });
    assert!(outcome.is_ok());
    assert_eq!(read_at(&layout, &store, Vec2u { x: 0, y: 0 }), 0x200 + 32);
    assert_eq!(read_at(&layout, &store, Vec2u { x: 1, y: 0 }), 0x201);
    assert_eq!(read_at(&layout, &store, Vec2u { x: 31, y: 0 }), 0x21f);
}

#[test]
fn span_longer_than_the_canvas_overwrites_in_source_order() {
    let (layout, mut store, mut dirty) = canvas_32();
    // 1025 pixels on a 1024-pixel canvas: the stream comes back around to
    // its start position, and the later write wins there
    let colours: Vec<u32> = (0..1025).map(|k| 0x1_0000 + k).collect();
    apply_span(layout, &mut store, &mut dirty, &DrawSpan {
        start: Vec2u { x: 3, y: 4 },
        rgba_u32: colours,
    });
    assert_eq!(read_at(&layout, &store, Vec2u { x: 3, y: 4 }), 0x1_0000 + 1024);
    assert_eq!(read_at(&layout, &store, Vec2u { x: 4, y: 4 }), 0x1_0001);
    assert_eq!(read_at(&layout, &store, Vec2u { x: 2, y: 4 }), 0x1_03ff);
}
