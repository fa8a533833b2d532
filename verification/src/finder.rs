//! The session: one colour table and the last output.

use vstd::prelude::*;
use crate::binarize::{binarize, binarized};
use crate::color::{bytes_of, opaque_white, pixels_of, Rgba};
use crate::color_table::{
    color_map_of, colorized, is_color_table, ColorTable, DEFAULT_TABLE_SIZE,
};
use crate::components::{
    component_count, component_labels, is_component_labelling, lemma_max_label_at_most_len,
    max_label,
};
use crate::labelling::{connected_components, num_labels, MAX_PIXELS};
use crate::random::{continues, drawn_since, RandomSource, Sampler};
use crate::raster::Raster;

verus! {

/// Why a call on a [`BiscuitFinder`] failed.
#[derive(Clone, Copy, Debug, PartialEq, Eq, Structural)]
pub enum FinderError {
    /// The input buffer is not `width * height * 4` bytes long.
    DimensionMismatch,
    /// No image has been processed yet.
    NoOutputAvailable,
}

impl FinderError {
    /// The error in words.
    pub fn message(&self) -> (text: String)
        ensures
            *self == FinderError::DimensionMismatch ==> text@ == "couldn't read from raw"@,
            *self == FinderError::NoOutputAvailable ==> text@ == "no output"@,
    {
        match self {
            FinderError::DimensionMismatch => "couldn't read from raw".to_owned(),
            FinderError::NoOutputAvailable => "no output".to_owned(),
        }
    }
}

/// The mask of a raw RGBA buffer.
pub open spec fn mask_of(input: Seq<u8>, background: Rgba) -> Seq<u8> {
    binarized(pixels_of(input), background)
}

/// The labels of the components of a raw RGBA buffer, `width` pixels a row.
pub open spec fn labels_of(input: Seq<u8>, width: int, background: Rgba) -> Seq<u32> {
    component_labels(mask_of(input, background), width)
}

/// Finds the blobs of the images it is given and paints each in a colour of
/// its own. The colour table lives as long as the finder; the output buffer
/// lives until the next image replaces it.
pub struct BiscuitFinder<R: RandomSource> {
    output: Option<Vec<u8>>,
    color_map: ColorTable,
    background: Rgba,
    sampler: Sampler<R>,
}

impl<R: RandomSource> BiscuitFinder<R> {
    /// The output of the last image that was processed, if any.
    pub closed spec fn output_bytes(&self) -> Option<Seq<u8>> {
        match self.output {
            Some(bytes) => Some(bytes@),
            None => None,
        }
    }

    /// The colours of the labels.
    pub closed spec fn color_map(&self) -> Seq<Rgba> {
        self.color_map@
    }

    /// The colour that counts as background in an input.
    pub closed spec fn background_color(&self) -> Rgba {
        self.background
    }

    /// Every number that the finder has drawn from its source, oldest first.
    pub closed spec fn drawn(&self) -> Seq<u32> {
        self.sampler.drawn()
    }

    /// A finder that takes opaque white for the background of its inputs. Its
    /// colour table has [`DEFAULT_TABLE_SIZE`] colours, made of the first
    /// draws from `source`.
    pub fn new(source: R) -> (finder: BiscuitFinder<R>)
        ensures
            finder.output_bytes() is None,
            finder.background_color() == opaque_white(),
            finder.drawn().len() == 3 * (DEFAULT_TABLE_SIZE - 1),
            finder.color_map() == color_map_of(finder.drawn()),
            finder.color_map().len() == DEFAULT_TABLE_SIZE,
            is_color_table(finder.color_map()),
    {
        BiscuitFinder::with_background(Rgba::white(), source)
    }

    /// A finder that takes `background` for the background of its inputs.
    pub fn with_background(background: Rgba, source: R) -> (finder: BiscuitFinder<R>)
        ensures
            finder.output_bytes() is None,
            finder.background_color() == background,
            finder.drawn().len() == 3 * (DEFAULT_TABLE_SIZE - 1),
            finder.color_map() == color_map_of(finder.drawn()),
            finder.color_map().len() == DEFAULT_TABLE_SIZE,
            is_color_table(finder.color_map()),
    {
        let mut sampler = Sampler::new(source);
        let color_map = ColorTable::new(DEFAULT_TABLE_SIZE, &mut sampler);
        assert(drawn_since(Seq::<u32>::empty(), sampler.drawn()) =~= sampler.drawn());
        BiscuitFinder { output: None, color_map, background, sampler }
    }

    /// The colour that counts as background in an input.
    pub fn background(&self) -> (background: Rgba)
        ensures
            background == self.background_color(),
    {
        self.background
    }

    /// The colour table.
    pub fn colors(&self) -> (table: &ColorTable)
        ensures
            table@ == self.color_map(),
    {
        &self.color_map
    }

    /// Processes one image: `input` holds `width * height` RGBA pixels row by
    /// row, four bytes each.
    ///
    /// Every pixel that is not exactly the background colour is foreground.
    /// The 4-connected foreground components are labelled, the colour table is
    /// made to cover the labels, and the output becomes the image in which
    /// background is transparent and every component has the colour of its
    /// label. A buffer of the wrong length is refused, and the finder stays as
    /// it was. An image of [`MAX_PIXELS`] pixels or more cannot be labelled.
    pub fn find_biscuits(
        &mut self,
        width: u32,
        height: u32,
        input: Vec<u8>,
    ) -> (result: Result<String, FinderError>)
        requires
            input@.len() == width * height * 4 ==> width * height < MAX_PIXELS,
        ensures
            input@.len() != width * height * 4 ==> result == Err::<String, FinderError>(
                FinderError::DimensionMismatch,
            ) && *final(self) == *old(self),
            input@.len() == width * height * 4 ==> {
                let mask = mask_of(input@, old(self).background_color());
                let labels = labels_of(input@, width as int, old(self).background_color());
                let needed = max_label(labels) + 1;
                &&& result matches Ok(message) && message@ == "processed image"@
                &&& is_component_labelling(mask, width as int, labels)
                &&& max_label(labels) == component_count(mask, width as int)
                &&& final(self).background_color() == old(self).background_color()
                &&& continues(old(self).drawn(), final(self).drawn())
                &&& needed <= old(self).color_map().len() ==> final(self).color_map() == old(
                    self,
                ).color_map() && final(self).drawn() == old(self).drawn()
                &&& needed > old(self).color_map().len() ==> {
                    let fresh = drawn_since(old(self).drawn(), final(self).drawn());
                    &&& fresh.len() == 3 * (needed - 1)
                    &&& final(self).color_map() == color_map_of(fresh)
                    &&& final(self).color_map().len() == needed
                }
                &&& is_color_table(final(self).color_map())
                &&& final(self).output_bytes() == Some(
                    bytes_of(colorized(labels, final(self).color_map())),
                )
            },
    {
        let image = match Raster::<Rgba>::from_raw(width, height, &input) {
            Some(image) => image,
            None => {
                return Err(FinderError::DimensionMismatch);
            },
        };
        let mask = binarize(&image, self.background);
        let labels = connected_components(&mask);
        let largest: u32 = num_labels(&labels);
        proof {
            lemma_max_label_at_most_len(labels@);
        }
        let required_color_map_size: usize = largest as usize + 1;
        self.color_map.ensure_capacity(required_color_map_size, &mut self.sampler);
        let painted = self.color_map.colorize(&labels);
        self.output = Some(painted.to_raw());
        Ok("processed image".to_owned())
    }

    /// The output of the last image that was processed.
    pub fn output(&self) -> (result: Result<&Vec<u8>, FinderError>)
        ensures
            match self.output_bytes() {
                Some(bytes) => result matches Ok(buffer) && buffer@ == bytes,
                None => result == Err::<&Vec<u8>, FinderError>(FinderError::NoOutputAvailable),
            },
    {
        match &self.output {
            Some(buffer) => Ok(buffer),
            None => Err(FinderError::NoOutputAvailable),
        }
    }
}

} // verus!
