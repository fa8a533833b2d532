//! RGBA colours and their layout in a raw byte buffer.

use vstd::prelude::*;

verus! {

/// One pixel: red, green, blue and alpha, eight bits each.
#[derive(Clone, Copy, Debug, PartialEq, Eq, Structural)]
pub struct Rgba {
    pub r: u8,
    pub g: u8,
    pub b: u8,
    pub a: u8,
}

/// The colour of background pixels in every output: all four channels zero.
pub open spec fn transparent() -> Rgba {
    Rgba { r: 0, g: 0, b: 0, a: 0 }
}

/// Opaque white, the colour that counts as background in an input unless the
/// caller names another.
pub open spec fn opaque_white() -> Rgba {
    Rgba { r: 255, g: 255, b: 255, a: 255 }
}

/// The channel of `color` that is stored at offset `channel` of its four bytes.
pub open spec fn channel_of(color: Rgba, channel: int) -> u8 {
    if channel == 0 {
        color.r
    } else if channel == 1 {
        color.g
    } else if channel == 2 {
        color.b
    } else {
        color.a
    }
}

/// The pixels that a raw buffer of four bytes per pixel holds. Bytes beyond
/// the last whole pixel are not part of any pixel.
pub open spec fn pixels_of(bytes: Seq<u8>) -> Seq<Rgba> {
    Seq::new(
        (bytes.len() / 4) as nat,
        |i: int| Rgba { r: bytes[4 * i], g: bytes[4 * i + 1], b: bytes[4 * i + 2], a: bytes[4 * i + 3] },
    )
}

/// The raw buffer that holds `pixels`, four bytes per pixel.
pub open spec fn bytes_of(pixels: Seq<Rgba>) -> Seq<u8> {
    Seq::new(pixels.len() * 4, |k: int| channel_of(pixels[k / 4], k % 4))
}

impl Rgba {
    /// Builds a colour from its four channels.
    pub fn new(r: u8, g: u8, b: u8, a: u8) -> (color: Rgba)
        ensures
            color == (Rgba { r, g, b, a }),
    {
        Rgba { r, g, b, a }
    }

    /// The fully transparent colour.
    pub fn transparent() -> (color: Rgba)
        ensures
            color == transparent(),
    {
        Rgba { r: 0, g: 0, b: 0, a: 0 }
    }

    /// Opaque white.
    pub fn white() -> (color: Rgba)
        ensures
            color == opaque_white(),
    {
        Rgba { r: 255, g: 255, b: 255, a: 255 }
    }
}

/// Splitting a buffer into pixels and writing the pixels out again gives the
/// buffer back, provided it holds whole pixels only.
pub proof fn lemma_bytes_of_pixels_of(bytes: Seq<u8>)
    requires
        bytes.len() % 4 == 0,
    ensures
        bytes_of(pixels_of(bytes)) == bytes,
{
    let back = bytes_of(pixels_of(bytes));
    assert(back.len() == bytes.len());
    assert forall|k: int| 0 <= k < bytes.len() implies back[k] == bytes[k] by {
        let i = k / 4;
        let c = k % 4;
        assert(k == 4 * i + c);
        assert(0 <= i < pixels_of(bytes).len());
    }
    assert(back =~= bytes);
}

/// Writing pixels out and reading them back gives the same pixels.
pub proof fn lemma_pixels_of_bytes_of(pixels: Seq<Rgba>)
    ensures
        pixels_of(bytes_of(pixels)) == pixels,
{
    let bytes = bytes_of(pixels);
    let back = pixels_of(bytes);
    assert(back.len() == pixels.len());
    assert forall|i: int| 0 <= i < pixels.len() implies back[i] == pixels[i] by {
        assert((4 * i) / 4 == i && (4 * i) % 4 == 0);
        assert((4 * i + 1) / 4 == i && (4 * i + 1) % 4 == 1);
        assert((4 * i + 2) / 4 == i && (4 * i + 2) % 4 == 2);
        assert((4 * i + 3) / 4 == i && (4 * i + 3) % 4 == 3);
    }
    assert(back =~= pixels);
}

} // verus!
