//! Labelling the connected components of a mask.

use vstd::prelude::*;
use vstd::set_lib::set_int_range;
use crate::components::{
    component_count, component_labels, connected, is_binary, is_component_labelling,
    is_foreground, lemma_connected_reflexive, lemma_label_count, lemma_labelling_unique,
    lemma_labels_dense, max_label, nonzero_labels,
};
use crate::raster::Raster;

verus! {

/// The most pixels that a mask may have and still be labelled: labels are
/// 32-bit numbers.
pub const MAX_PIXELS: u64 = 0x1_0000_0000;

/// Calls `imageproc::region_labelling::connected_components` with
/// `Connectivity::Four` and the background `Luma([0])` on the gray image that
/// `image::GrayImage::from_raw` makes of a copy of `mask`, and returns the
/// buffer of the labelled image (`into_raw`).
///
/// Trusted, as the outside function documents and its source shows:
/// - the result has one label for each pixel, row by row;
/// - a pixel gets the label zero exactly when it equals the background;
/// - the first pass joins each foreground pixel with its western and its
///   northern neighbour where they have its value, so two foreground pixels
///   of a binary mask end with one label exactly when a walk over neighbours
///   in the foreground joins them;
/// - the second pass numbers the components from one in the order in which
///   it meets them, row by row.
///
/// Left out by `requires`, because the outside function panics there: an
/// image of 2^32 pixels or more, and the image of a single pixel that is
/// foreground (the union-find has as many slots as the image has pixels, and
/// the first label is one). A mask that is not binary is left out because
/// the outside function keeps foreground pixels of different values apart.
#[verifier::external_body]
fn label_regions(width: u32, height: u32, mask: &Vec<u8>) -> (labels: Vec<u32>)
    requires
        mask@.len() == width * height,
        mask@.len() < MAX_PIXELS,
        is_binary(mask@),
        mask@.len() == 1 ==> mask@[0] == 0,
    ensures
        is_component_labelling(mask@, width as int, labels@),
{
    let image = image::GrayImage::from_raw(width, height, mask.clone()).unwrap();
    let four = imageproc::region_labelling::Connectivity::Four;
    imageproc::region_labelling::connected_components(&image, four, image::Luma([0u8])).into_raw()
}

/// Labels the 4-connected foreground components of a binary mask.
///
/// Background pixels get the label zero. The components get the labels
/// `1..=K`, without gaps, in the order in which a row-by-row scan first meets
/// them; `K` is the number of components and the largest label.
pub fn connected_components(mask: &Raster<u8>) -> (labels: Raster<u32>)
    requires
        is_binary(mask@),
        mask@.len() < MAX_PIXELS,
    ensures
        labels.width() == mask.width(),
        labels.height() == mask.height(),
        is_component_labelling(mask@, mask.width() as int, labels@),
        labels@ == component_labels(mask@, mask.width() as int),
        nonzero_labels(labels@) == set_int_range(1, max_label(labels@) as int + 1),
        nonzero_labels(labels@).len() == component_count(mask@, mask.width() as int),
        max_label(labels@) == component_count(mask@, mask.width() as int),
{
    let width: u32 = mask.width();
    let height: u32 = mask.height();
    let pixels = mask.pixels();
    let raw: Vec<u32> = if pixels.len() == 1 && pixels[0] != 0 {
        let single: Vec<u32> = vec![1u32];
        proof {
            assert(single@ =~= seq![1u32]);
            lemma_single_pixel(pixels@, width as int, single@);
        }
        single
    } else {
        label_regions(width, height, pixels)
    };
    proof {
        lemma_labels_dense(raw@);
        lemma_label_count(mask@, width as int, raw@);
        lemma_labelling_unique(mask@, width as int, raw@, component_labels(mask@, width as int));
    }
    Raster::from_pixels(width, height, raw).unwrap()
}

/// The largest label of a label raster: the number of components when the
/// raster is a labelling.
pub fn num_labels(labels: &Raster<u32>) -> (count: u32)
    ensures
        count == max_label(labels@),
{
    let pixels = labels.pixels();
    let mut count: u32 = 0;
    let mut i: usize = 0;
    while i < pixels.len()
        invariant
            i <= pixels@.len(),
            count == max_label(pixels@.take(i as int)),
        decreases pixels@.len() - i,
    {
        proof {
            assert(pixels@.take(i + 1).drop_last() =~= pixels@.take(i as int));
        }
        if pixels[i] > count {
            count = pixels[i];
        }
        i += 1;
    }
    proof {
        assert(pixels@.take(i as int) =~= pixels@);
    }
    count
}

/// An image of one foreground pixel has one component.
proof fn lemma_single_pixel(mask: Seq<u8>, width: int, labels: Seq<u32>)
    requires
        mask.len() == 1,
        mask[0] != 0,
        labels == seq![1u32],
    ensures
        is_component_labelling(mask, width, labels),
{
    lemma_connected_reflexive(mask, width, 0);
    assert(labels.take(0).len() == 0);
    assert forall|i: int, j: int| is_foreground(mask, i) && is_foreground(mask, j) implies (labels[i]
        == labels[j] <==> #[trigger] connected(mask, width, i, j)) by {
        assert(i == 0 && j == 0);
    }
}

} // verus!
