use chunk_canvas::resources::CanvasDirtyRects;
use chunk_canvas::types::{ChunkKey, Vec2u};

fn tracker_4x4_128() -> CanvasDirtyRects {
    CanvasDirtyRects::new(ChunkKey { x: 4, y: 4 }, Vec2u { x: 128, y: 128 })
}

#[test]
fn new_tracker_is_all_clean() {
    let mut tracker = tracker_4x4_128();
    assert_eq!(tracker.len(), 16);
    for i in 0..16 {
        assert!(tracker.take(i).is_none());
    }
}

#[test]
fn take_returns_union_bounding_box_then_clean() {
    let mut tracker = tracker_4x4_128();
    let key = ChunkKey { x: 1, y: 2 };
    tracker.mark_rect(&key, Vec2u { x: 5, y: 6 }, Vec2u { x: 3, y: 4 });
    tracker.mark_rect(&key, Vec2u { x: 100, y: 2 }, Vec2u { x: 10, y: 10 });
    let index = 2 * 4 + 1;
    let taken = tracker.take(index);
    assert_eq!(taken, Some((Vec2u { x: 5, y: 2 }, Vec2u { x: 109, y: 11 })));
    // clean until marked again
    assert!(tracker.take(index).is_none());
    tracker.mark_rect(&key, Vec2u { x: 0, y: 0 }, Vec2u { x: 1, y: 1 });
    assert_eq!(tracker.take(index), Some((Vec2u { x: 0, y: 0 }, Vec2u { x: 0, y: 0 })));
}

#[test]
fn marks_in_different_chunks_stay_separate() {
    let mut tracker = tracker_4x4_128();
    tracker.mark_rect(&ChunkKey { x: 0, y: 0 }, Vec2u { x: 1, y: 1 }, Vec2u { x: 2, y: 2 });
    tracker.mark_rect(&ChunkKey { x: 3, y: 3 }, Vec2u { x: 7, y: 8 }, Vec2u { x: 1, y: 1 });
    assert_eq!(tracker.take(0), Some((Vec2u { x: 1, y: 1 }, Vec2u { x: 2, y: 2 })));
    assert_eq!(tracker.take(15), Some((Vec2u { x: 7, y: 8 }, Vec2u { x: 7, y: 8 })));
    for i in 1..15 {
        assert!(tracker.take(i).is_none());
    }
}

#[test]
fn zero_sized_mark_is_ignored() {
    let mut tracker = tracker_4x4_128();
    tracker.mark_rect(&ChunkKey { x: 0, y: 0 }, Vec2u { x: 3, y: 3 }, Vec2u { x: 0, y: 5 });
    tracker.mark_rect(&ChunkKey { x: 0, y: 0 }, Vec2u { x: 3, y: 3 }, Vec2u { x: 5, y: 0 });
    assert!(tracker.take(0).is_none());
}

#[test]
fn marks_are_clamped_to_chunk_bounds() {
    let mut tracker = tracker_4x4_128();
    // min beyond the chunk: clamped to the last pixel
    tracker.mark_rect(&ChunkKey { x: 0, y: 0 }, Vec2u { x: 500, y: 500 }, Vec2u { x: 9, y: 9 });
    assert_eq!(tracker.take(0), Some((Vec2u { x: 127, y: 127 }, Vec2u { x: 127, y: 127 })));
    // extent overshooting the chunk: max clamped
    tracker.mark_rect(&ChunkKey { x: 0, y: 0 }, Vec2u { x: 120, y: 120 }, Vec2u { x: 50, y: 50 });
    assert_eq!(tracker.take(0), Some((Vec2u { x: 120, y: 120 }, Vec2u { x: 127, y: 127 })));
}
