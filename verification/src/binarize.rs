//! Reducing an RGBA raster to a foreground/background mask.

use vstd::prelude::*;
use crate::color::Rgba;
use crate::components::is_binary;
use crate::raster::Raster;

verus! {

/// The mask value of background pixels.
pub const BACKGROUND: u8 = 0;

/// The mask value of foreground pixels.
pub const FOREGROUND: u8 = 255;

/// The mask value of one pixel: background when all four channels match the
/// background colour exactly, foreground otherwise.
pub open spec fn mask_value(pixel: Rgba, background: Rgba) -> u8 {
    if pixel == background {
        BACKGROUND
    } else {
        FOREGROUND
    }
}

/// The mask of an image, pixel by pixel.
pub open spec fn binarized(image: Seq<Rgba>, background: Rgba) -> Seq<u8> {
    Seq::new(image.len(), |i: int| mask_value(image[i], background))
}

/// The image that shows a mask in two colours.
pub open spec fn painted(mask: Seq<u8>, background: Rgba, foreground: Rgba) -> Seq<Rgba> {
    Seq::new(
        mask.len(),
        |i: int|
            if mask[i] == BACKGROUND {
                background
            } else {
                foreground
            },
    )
}

/// Maps every pixel equal to `background` to [`BACKGROUND`] and every other
/// pixel to [`FOREGROUND`].
pub fn binarize(image: &Raster<Rgba>, background: Rgba) -> (mask: Raster<u8>)
    ensures
        mask.width() == image.width(),
        mask.height() == image.height(),
        mask@ == binarized(image@, background),
        is_binary(mask@),
{
    let pixels = image.pixels();
    let n: usize = pixels.len();
    let mut values: Vec<u8> = Vec::with_capacity(n);
    let mut i: usize = 0;
    while i < n
        invariant
            i <= n,
            n == pixels@.len(),
            values@.len() == i,
            forall|k: int| 0 <= k < i ==> values@[k] == mask_value(pixels@[k], background),
        decreases n - i,
    {
        let value: u8 = if pixels[i] == background {
            BACKGROUND
        } else {
            FOREGROUND
        };
        values.push(value);
        i += 1;
    }
    assert(values@ =~= binarized(image@, background));
    Raster::from_pixels(image.width(), image.height(), values).unwrap()
}

/// Binarizing is idempotent: a binary mask, shown in the background colour and
/// any other colour and binarized again with the same background, is the mask
/// it was.
pub proof fn lemma_binarize_idempotent(mask: Seq<u8>, background: Rgba, foreground: Rgba)
    requires
        is_binary(mask),
        foreground != background,
    ensures
        binarized(painted(mask, background, foreground), background) == mask,
{
    assert(binarized(painted(mask, background, foreground), background) =~= mask);
}

/// The mask of any image is binary, so binarizing its two-colour picture
/// changes nothing.
pub proof fn lemma_rebinarize(image: Seq<Rgba>, background: Rgba, foreground: Rgba)
    requires
        foreground != background,
    ensures
        is_binary(binarized(image, background)),
        binarized(painted(binarized(image, background), background, foreground), background)
            == binarized(image, background),
{
    lemma_binarize_idempotent(binarized(image, background), background, foreground);
}

} // verus!
