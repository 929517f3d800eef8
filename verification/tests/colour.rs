use chunk_canvas::utils::{pack_rgba8, unpack_rgba8};

#[test]
fn pack_is_little_endian() {
    assert_eq!(pack_rgba8(0x78, 0x56, 0x34, 0x12), 0x1234_5678);
    assert_eq!(pack_rgba8(0, 0, 0, 0), 0);
    assert_eq!(pack_rgba8(0xff, 0xff, 0xff, 0xff), 0xffff_ffff);
    assert_eq!(pack_rgba8(1, 0, 0, 0), 1);
    assert_eq!(pack_rgba8(0, 0, 0, 1), 0x0100_0000);
}

#[test]
fn unpack_then_pack_restores_word() {
    for px in [0u32, 1, 0xff, 0x1234_5678, 0xdead_beef, 0xffff_ffff, 0x8000_0001] {
        let b = unpack_rgba8(px);
        assert_eq!(pack_rgba8(b[0], b[1], b[2], b[3]), px);
    }
}

#[test]
fn pack_then_unpack_restores_bytes() {
    for (r, g, b, a) in [
        (0u8, 0u8, 0u8, 0u8),
        (255, 255, 255, 255),
        (1, 2, 3, 4),
        (200, 100, 50, 25),
        (255, 0, 255, 0),
    ] {
        assert_eq!(unpack_rgba8(pack_rgba8(r, g, b, a)), [r, g, b, a]);
    }
}
