//! Pixel colour packing and unpacking.
//!
//! A colour is four RGBA8 bytes packed into one `u32` word using
//! little-endian byte order: red in the low byte, then green, blue, alpha.

use vstd::prelude::*;

verus! {

/// Mathematical value of a little-endian packed RGBA8 colour word.
pub open spec fn pack_rgba8_spec(r: u8, g: u8, b: u8, a: u8) -> u32 {
    (r + g * 0x100 + b * 0x1_0000 + a * 0x100_0000) as u32
}

/// Byte `i` (0 = red, 1 = green, 2 = blue, 3 = alpha) of a packed
/// little-endian RGBA8 colour word.
pub open spec fn colour_byte(px: u32, i: int) -> u8 {
    if i == 0 {
        (px as int % 0x100) as u8
    } else if i == 1 {
        (px as int / 0x100 % 0x100) as u8
    } else if i == 2 {
        (px as int / 0x1_0000 % 0x100) as u8
    } else {
        (px as int / 0x100_0000) as u8
    }
}

/// Pack RGBA8 bytes into a `u32` using little-endian encoding.
pub fn pack_rgba8(r: u8, g: u8, b: u8, a: u8) -> (px: u32)
    ensures
        px == pack_rgba8_spec(r, g, b, a),
{
    r as u32 + g as u32 * 0x100 + b as u32 * 0x1_0000 + a as u32 * 0x100_0000
}

/// Unpack a `u32` pixel (little-endian RGBA8) into `[r, g, b, a]`.
pub fn unpack_rgba8(px: u32) -> (bytes: [u8; 4])
    ensures
        forall|i: int| 0 <= i < 4 ==> bytes[i] == colour_byte(px, i),
{
    [
        (px % 0x100) as u8,
        (px / 0x100 % 0x100) as u8,
        (px / 0x1_0000 % 0x100) as u8,
        (px / 0x100_0000) as u8,
    ]
}

/// The initial byte contents of one chunk texture: `pixels` copies of one
/// packed colour, laid out as little-endian RGBA8 bytes.
pub fn chunk_clear_bytes(pixels: usize, colour: u32) -> (bytes: Vec<u8>)
    requires
        pixels * 4 <= usize::MAX,
    ensures
        bytes@.len() == pixels * 4,
        forall|b: int| 0 <= b < pixels * 4 ==> bytes@[b] == colour_byte(colour, b % 4),
{
    let word = unpack_rgba8(colour);
    let mut bytes: Vec<u8> = Vec::new();
    let mut i: usize = 0;
    while i < pixels
        invariant
            i <= pixels,
            pixels * 4 <= usize::MAX,
            bytes@.len() == i * 4,
            forall|j: int| 0 <= j < 4 ==> word[j] == colour_byte(colour, j),
            forall|b: int| 0 <= b < i * 4 ==> bytes@[b] == colour_byte(colour, b % 4),
        decreases pixels - i,
    {
        bytes.push(word[0]);
        bytes.push(word[1]);
        bytes.push(word[2]);
        bytes.push(word[3]);
        proof {
            assert forall|b: int| 0 <= b < (i + 1) * 4
                implies bytes@[b] == colour_byte(colour, b % 4) by {
                if b >= i * 4 {
                    vstd::arithmetic::div_mod::lemma_fundamental_div_mod_converse(
                        b,
                        4,
                        i as int,
                        b - i * 4,
                    );
                }
            }
        }
        i = i + 1;
    }
    bytes
}

/// Packing four colour bytes and then unpacking the word returns the original
/// bytes, and unpacking a word and repacking the bytes returns the original
/// word: packing and unpacking are inverse for all 2^32 colour values.
pub proof fn lemma_pack_unpack_roundtrip(r: u8, g: u8, b: u8, a: u8, px: u32)
    ensures
        colour_byte(pack_rgba8_spec(r, g, b, a), 0) == r,
        colour_byte(pack_rgba8_spec(r, g, b, a), 1) == g,
        colour_byte(pack_rgba8_spec(r, g, b, a), 2) == b,
        colour_byte(pack_rgba8_spec(r, g, b, a), 3) == a,
        pack_rgba8_spec(colour_byte(px, 0), colour_byte(px, 1), colour_byte(px, 2), colour_byte(px, 3)) == px,
{
    assert(colour_byte(pack_rgba8_spec(r, g, b, a), 0) == r) by (bit_vector);
    assert(colour_byte(pack_rgba8_spec(r, g, b, a), 1) == g) by (bit_vector);
    assert(colour_byte(pack_rgba8_spec(r, g, b, a), 2) == b) by (bit_vector);
    assert(colour_byte(pack_rgba8_spec(r, g, b, a), 3) == a) by (bit_vector);
    assert(pack_rgba8_spec(colour_byte(px, 0), colour_byte(px, 1), colour_byte(px, 2), colour_byte(px, 3))
        == px) by (bit_vector);
}

} // verus!
