//! Row-major pixel grids.

use vstd::prelude::*;
use crate::color::{bytes_of, pixels_of, Rgba};

verus! {

/// A `width` by `height` grid of pixels, stored row by row: the pixel in
/// column `x` of row `y` is element `y * width + x` of the view.
///
/// Every raster holds exactly `width * height` pixels.
pub struct Raster<T> {
    width: u32,
    height: u32,
    pixels: Vec<T>,
}

impl<T> View for Raster<T> {
    type V = Seq<T>;

    closed spec fn view(&self) -> Seq<T> {
        self.pixels@
    }
}

impl<T> Raster<T> {
    #[verifier::type_invariant]
    spec fn well_formed(self) -> bool {
        self.pixels@.len() == self.width * self.height
    }

    /// The number of columns.
    pub closed spec fn spec_width(&self) -> u32 {
        self.width
    }

    /// The number of rows.
    pub closed spec fn spec_height(&self) -> u32 {
        self.height
    }

    /// A raster over `pixels`, or `None` when their number is not
    /// `width * height`.
    pub fn from_pixels(width: u32, height: u32, pixels: Vec<T>) -> (raster: Option<Raster<T>>)
        ensures
            raster is Some <==> pixels@.len() == width * height,
            raster matches Some(r) ==> r.spec_width() == width && r.spec_height() == height && r@
                == pixels@,
    {
        let count: u64 = pixel_count(width, height);
        if pixels.len() as u64 == count {
            Some(Raster { width, height, pixels })
        } else {
            None
        }
    }

    /// The number of columns.
    #[verifier::when_used_as_spec(spec_width)]
    pub fn width(&self) -> (width: u32)
        ensures
            width == self.spec_width(),
    {
        self.width
    }

    /// The number of rows.
    #[verifier::when_used_as_spec(spec_height)]
    pub fn height(&self) -> (height: u32)
        ensures
            height == self.spec_height(),
    {
        self.height
    }

    /// The pixels, row by row.
    pub fn pixels(&self) -> (pixels: &Vec<T>)
        ensures
            pixels@ == self@,
            pixels@.len() == self.spec_width() * self.spec_height(),
    {
        proof {
            use_type_invariant(self);
        }
        &self.pixels
    }

    /// Gives up the grid and hands out its pixels, row by row.
    pub fn into_pixels(self) -> (pixels: Vec<T>)
        ensures
            pixels@ == self@,
            pixels@.len() == self.spec_width() * self.spec_height(),
    {
        proof {
            use_type_invariant(&self);
        }
        self.pixels
    }
}

impl Raster<Rgba> {
    /// Reads a raw buffer of four bytes per pixel, or returns `None` when the
    /// buffer is not exactly `width * height * 4` bytes long.
    pub fn from_raw(width: u32, height: u32, bytes: &Vec<u8>) -> (image: Option<Raster<Rgba>>)
        ensures
            image is Some <==> bytes@.len() == width * height * 4,
            image matches Some(r) ==> r.spec_width() == width && r.spec_height() == height && r@
                == pixels_of(bytes@),
    {
        let count: u64 = pixel_count(width, height);
        let length: usize = bytes.len();
        if length % 4 != 0 || (length / 4) as u64 != count {
            return None;
        }
        let n: usize = length / 4;
        let mut pixels: Vec<Rgba> = Vec::with_capacity(n);
        let mut i: usize = 0;
        while i < n
            invariant
                i <= n,
                length == 4 * n,
                bytes@.len() == length,
                pixels@.len() == i,
                forall|k: int| 0 <= k < i ==> pixels@[k] == pixels_of(bytes@)[k],
            decreases n - i,
        {
            let color = Rgba::new(bytes[4 * i], bytes[4 * i + 1], bytes[4 * i + 2], bytes[4 * i + 3]);
            pixels.push(color);
            i += 1;
        }
        assert(pixels@ =~= pixels_of(bytes@));
        Some(Raster { width, height, pixels })
    }

    /// Writes the pixels out as a raw buffer of four bytes per pixel.
    pub fn to_raw(&self) -> (bytes: Vec<u8>)
        ensures
            bytes@ == bytes_of(self@),
            bytes@.len() == self.spec_width() * self.spec_height() * 4,
    {
        proof {
            use_type_invariant(self);
        }
        let n: usize = self.pixels.len();
        let mut bytes: Vec<u8> = Vec::new();
        let mut i: usize = 0;
        while i < n
            invariant
                i <= n,
                n == self.pixels@.len(),
                bytes@.len() == 4 * i,
                forall|k: int| 0 <= k < 4 * i ==> bytes@[k] == bytes_of(self.pixels@)[k],
            decreases n - i,
        {
            let color = self.pixels[i];
            bytes.push(color.r);
            bytes.push(color.g);
            bytes.push(color.b);
            bytes.push(color.a);
            i += 1;
        }
        assert(bytes@ =~= bytes_of(self@));
        bytes
    }
}

/// The number of pixels of a `width` by `height` grid.
pub fn pixel_count(width: u32, height: u32) -> (count: u64)
    ensures
        count == width * height,
{
    assert(width * height <= 0xffff_ffff * 0xffff_ffff) by (nonlinear_arith)
        requires
            width <= 0xffff_ffff,
            height <= 0xffff_ffff,
    ;
    width as u64 * height as u64
}

} // verus!
