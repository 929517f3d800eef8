use chunk_canvas::config::CanvasConfig;
use chunk_canvas::types::{CanvasLayout, ChunkKey, Vec2u};

fn layout_512() -> CanvasLayout {
    CanvasConfig::new(
        0xffff_ffff,
        Vec2u { x: 512, y: 512 },
        ChunkKey { x: 4, y: 4 },
    )
    .layout()
}

#[test]
fn config_derives_chunk_geometry() {
    let config = CanvasConfig::new(7, Vec2u { x: 512, y: 256 }, ChunkKey { x: 4, y: 2 });
    assert_eq!(config.clear_colour(), 7);
    assert_eq!(config.canvas_size(), Vec2u { x: 512, y: 256 });
    assert_eq!(config.num_chunks(), ChunkKey { x: 4, y: 2 });
    assert_eq!(config.chunk_size(), Vec2u { x: 128, y: 128 });
    assert_eq!(config.pixels_per_chunk(), 128 * 128);
    assert_eq!(config.total_chunks(), 8);
}

#[test]
fn default_config_is_white_1024_in_16_chunks() {
    let config = CanvasConfig::default();
    assert_eq!(config.clear_colour(), 0xffff_ffff);
    assert_eq!(config.canvas_size(), Vec2u { x: 1024, y: 1024 });
    assert_eq!(config.num_chunks(), ChunkKey { x: 4, y: 4 });
    assert_eq!(config.chunk_size(), Vec2u { x: 256, y: 256 });
}

#[test]
fn wrap_reduces_modulo_canvas_size() {
    let layout = layout_512();
    assert_eq!(layout.wrap(Vec2u { x: 600, y: 1030 }), Vec2u { x: 88, y: 6 });
    assert_eq!(layout.wrap(Vec2u { x: 511, y: 512 }), Vec2u { x: 511, y: 0 });
    assert_eq!(layout.wrap(Vec2u { x: 0, y: 0 }), Vec2u { x: 0, y: 0 });
}

#[test]
fn wrap_is_idempotent_and_periodic() {
    let layout = layout_512();
    for p in [
        Vec2u { x: 0, y: 0 },
        Vec2u { x: 511, y: 511 },
        Vec2u { x: 512, y: 513 },
        Vec2u { x: 70_000, y: 123_456 },
    ] {
        let w = layout.wrap(p);
        assert_eq!(layout.wrap(w), w);
        for k in 0u32..3 {
            let shifted = Vec2u { x: p.x + k * 512, y: p.y + k * 512 };
            assert_eq!(layout.wrap(shifted), w);
        }
    }
}

#[test]
fn chunk_resolution_of_wrapped_positions() {
    let layout = layout_512();
    let w = layout.wrap(Vec2u { x: 300, y: 200 });
    let c = layout.chunk_xy(w);
    assert_eq!(c, Vec2u { x: 2, y: 1 });
    let key = layout.chunk_key(c);
    assert_eq!(key, ChunkKey { x: 2, y: 1 });
    assert_eq!(layout.local_xy(w), Vec2u { x: 44, y: 72 });
    assert_eq!(layout.chunk_min(c), Vec2u { x: 256, y: 128 });
    assert_eq!(layout.num_chunks(), ChunkKey { x: 4, y: 4 });
}

#[test]
fn max_run_len_stops_at_chunk_and_canvas_edges() {
    let layout = layout_512();
    // start of a chunk row: a whole chunk row fits
    assert_eq!(layout.max_run_len(Vec2u { x: 0, y: 0 }), 128);
    assert_eq!(layout.max_run_len(Vec2u { x: 128, y: 5 }), 128);
    // mid-chunk: only up to the chunk's right edge
    assert_eq!(layout.max_run_len(Vec2u { x: 100, y: 0 }), 28);
    // last pixel of a chunk row
    assert_eq!(layout.max_run_len(Vec2u { x: 127, y: 9 }), 1);
    // near the canvas right edge the canvas bound and chunk bound agree
    assert_eq!(layout.max_run_len(Vec2u { x: 510, y: 0 }), 2);
    assert_eq!(layout.max_run_len(Vec2u { x: 511, y: 0 }), 1);
}
