//! The session's table of label colours.

use vstd::prelude::*;
use crate::color::{transparent, Rgba};
use crate::components::{
    connected, is_component_labelling, is_foreground, is_path, lemma_max_label_bounds, max_label,
};
use crate::random::{continues, drawn_since, gen_range, scaled, RandomSource, Sampler};
use crate::raster::Raster;

verus! {

/// The size of a new table.
pub const DEFAULT_TABLE_SIZE: usize = 100;

/// The smallest value of a generated colour channel. Zero is left out so that
/// no generated colour can be taken for the transparent background.
pub const CHANNEL_MIN: u8 = 1;

/// The largest value of a generated colour channel.
pub const CHANNEL_MAX: u8 = 255;

/// `color` is one that the table may hold for a component: opaque, and no
/// colour channel zero.
pub open spec fn is_generated_color(color: Rgba) -> bool {
    &&& CHANNEL_MIN <= color.r <= CHANNEL_MAX
    &&& CHANNEL_MIN <= color.g <= CHANNEL_MAX
    &&& CHANNEL_MIN <= color.b <= CHANNEL_MAX
    &&& color.a == 255
}

/// A colour table is not empty, holds the transparent colour for label zero
/// and a generated colour for every other label.
pub open spec fn is_color_table(colors: Seq<Rgba>) -> bool {
    &&& colors.len() >= 1
    &&& colors[0] == transparent()
    &&& forall|label: int| 1 <= label < colors.len() ==> is_generated_color(#[trigger] colors[label])
}

/// The opaque colour that three draws make: one draw each for red, green and
/// blue, scaled to the range of a generated channel.
pub open spec fn color_of_draws(red: u32, green: u32, blue: u32) -> Rgba {
    Rgba {
        r: scaled(red, CHANNEL_MIN, CHANNEL_MAX) as u8,
        g: scaled(green, CHANNEL_MIN, CHANNEL_MAX) as u8,
        b: scaled(blue, CHANNEL_MIN, CHANNEL_MAX) as u8,
        a: 255,
    }
}

/// The colour map that a run of draws makes: transparent for label zero, and
/// for label `l` the colour of the draws `3l - 3`, `3l - 2` and `3l - 1`.
pub open spec fn color_map_of(draws: Seq<u32>) -> Seq<Rgba> {
    Seq::new(
        (draws.len() / 3 + 1) as nat,
        |label: int|
            if label == 0 {
                transparent()
            } else {
                color_of_draws(draws[3 * label - 3], draws[3 * label - 2], draws[3 * label - 1])
            },
    )
}

/// The image in which every label is replaced by its colour.
pub open spec fn colorized(labels: Seq<u32>, colors: Seq<Rgba>) -> Seq<Rgba> {
    Seq::new(labels.len(), |i: int| colors[labels[i] as int])
}

/// What a painted labelling looks like: background pixels are transparent,
/// foreground pixels are opaque and never transparent, and the pixels of one
/// component have one colour. Two components may happen to get the same
/// colour: nothing keeps the draws apart.
pub proof fn lemma_painted_components(
    mask: Seq<u8>,
    width: int,
    labels: Seq<u32>,
    colors: Seq<Rgba>,
    i: int,
    j: int,
)
    requires
        is_component_labelling(mask, width, labels),
        is_color_table(colors),
        max_label(labels) < colors.len(),
        0 <= i < mask.len(),
    ensures
        mask[i] == 0 <==> colorized(labels, colors)[i] == transparent(),
        mask[i] != 0 ==> is_generated_color(colorized(labels, colors)[i]),
        connected(mask, width, i, j) ==> colorized(labels, colors)[i] == colorized(labels, colors)[j],
{
    lemma_max_label_bounds(labels, i);
    if connected(mask, width, i, j) {
        let path = choose|path: Seq<int>|
            is_path(mask, width, path) && path.first() == i && path.last() == j;
        assert(is_foreground(mask, path[0]));
        assert(is_foreground(mask, path[path.len() - 1]));
        lemma_max_label_bounds(labels, j);
    }
}

/// Whatever the draws, the colour map they make is a colour table.
pub proof fn lemma_color_map_is_table(draws: Seq<u32>)
    ensures
        is_color_table(color_map_of(draws)),
{
    let colors = color_map_of(draws);
    assert forall|label: int| 1 <= label < colors.len() implies is_generated_color(
        #[trigger] colors[label],
    ) by {
        lemma_channel_in_range(draws[3 * label - 3]);
        lemma_channel_in_range(draws[3 * label - 2]);
        lemma_channel_in_range(draws[3 * label - 1]);
    }
}

proof fn lemma_channel_in_range(raw: u32)
    ensures
        CHANNEL_MIN <= scaled(raw, CHANNEL_MIN, CHANNEL_MAX) <= CHANNEL_MAX,
{
    assert(0 <= (raw * 255) / 0x1_0000_0000 < 255) by (nonlinear_arith)
        requires
            0 <= raw < 0x1_0000_0000,
    ;
}

/// A fresh colour map for the labels below `num_labels`: transparent for label
/// zero, and for every other label an opaque colour whose red, green and blue
/// are drawn from the sampler, in this order, label by label.
pub fn random_color_map<R: RandomSource>(
    num_labels: usize,
    sampler: &mut Sampler<R>,
) -> (color_map: Vec<Rgba>)
    requires
        num_labels >= 1,
    ensures
        continues(old(sampler).drawn(), final(sampler).drawn()),
        drawn_since(old(sampler).drawn(), final(sampler).drawn()).len() == 3 * (num_labels - 1),
        color_map@ == color_map_of(drawn_since(old(sampler).drawn(), final(sampler).drawn())),
        color_map@.len() == num_labels,
        is_color_table(color_map@),
{
    let ghost before = sampler.drawn();
    let mut color_map: Vec<Rgba> = Vec::with_capacity(num_labels);
    color_map.push(Rgba::transparent());
    proof {
        assert(sampler.drawn().take(before.len() as int) =~= before);
        assert(color_map@ =~= color_map_of(drawn_since(before, sampler.drawn())));
    }
    let mut label: usize = 1;
    while label < num_labels
        invariant
            1 <= label <= num_labels,
            continues(before, sampler.drawn()),
            drawn_since(before, sampler.drawn()).len() == 3 * (label - 1),
            color_map@ == color_map_of(drawn_since(before, sampler.drawn())),
        decreases num_labels - label,
    {
        let ghost fresh = drawn_since(before, sampler.drawn());
        let red: u8 = gen_range(sampler, CHANNEL_MIN, CHANNEL_MAX);
        let ghost first = sampler.drawn().last();
        let green: u8 = gen_range(sampler, CHANNEL_MIN, CHANNEL_MAX);
        let ghost second = sampler.drawn().last();
        let blue: u8 = gen_range(sampler, CHANNEL_MIN, CHANNEL_MAX);
        let ghost third = sampler.drawn().last();
        color_map.push(Rgba::new(red, green, blue, 255));
        proof {
            let now = drawn_since(before, sampler.drawn());
            assert(sampler.drawn().take(before.len() as int) =~= before);
            assert(now =~= fresh.push(first).push(second).push(third));
            assert(color_map@ =~= color_map_of(now));
        }
        label += 1;
    }
    proof {
        lemma_color_map_is_table(drawn_since(before, sampler.drawn()));
    }
    color_map
}

/// The colours of the labels `0..len`, kept from image to image for as long as
/// no image has more labels than the table covers.
pub struct ColorTable {
    colors: Vec<Rgba>,
}

impl View for ColorTable {
    type V = Seq<Rgba>;

    closed spec fn view(&self) -> Seq<Rgba> {
        self.colors@
    }
}

impl ColorTable {
    #[verifier::type_invariant]
    spec fn well_formed(self) -> bool {
        is_color_table(self.colors@)
    }

    /// A table of `size` freshly drawn colours.
    pub fn new<R: RandomSource>(size: usize, sampler: &mut Sampler<R>) -> (table: ColorTable)
        requires
            size >= 1,
        ensures
            continues(old(sampler).drawn(), final(sampler).drawn()),
            drawn_since(old(sampler).drawn(), final(sampler).drawn()).len() == 3 * (size - 1),
            table@ == color_map_of(drawn_since(old(sampler).drawn(), final(sampler).drawn())),
            table@.len() == size,
            is_color_table(table@),
    {
        ColorTable { colors: random_color_map(size, sampler) }
    }

    /// The number of labels that the table covers.
    pub fn len(&self) -> (len: usize)
        ensures
            len == self@.len(),
            len >= 1,
    {
        proof {
            use_type_invariant(self);
        }
        self.colors.len()
    }

    /// The colours, label by label.
    pub fn colors(&self) -> (colors: &Vec<Rgba>)
        ensures
            colors@ == self@,
            is_color_table(colors@),
    {
        proof {
            use_type_invariant(self);
        }
        &self.colors
    }

    /// Makes sure that the table covers the labels below `n`.
    ///
    /// A table that covers them already is left as it is, and nothing is
    /// drawn. One that does not is replaced by `n` colours made of `3 * (n - 1)`
    /// fresh draws: no colour is kept, and label zero is transparent as before.
    pub fn ensure_capacity<R: RandomSource>(&mut self, n: usize, sampler: &mut Sampler<R>)
        ensures
            continues(old(sampler).drawn(), final(sampler).drawn()),
            n <= old(self)@.len() ==> final(self)@ == old(self)@ && *final(sampler) == *old(sampler),
            n > old(self)@.len() ==> {
                let fresh = drawn_since(old(sampler).drawn(), final(sampler).drawn());
                &&& fresh.len() == 3 * (n - 1)
                &&& final(self)@ == color_map_of(fresh)
                &&& final(self)@.len() == n
            },
            final(self)@.len() >= n,
            is_color_table(final(self)@),
    {
        proof {
            use_type_invariant(&*self);
        }
        if n > self.colors.len() {
            self.colors = random_color_map(n, sampler);
        } else {
            assert(sampler.drawn().take(sampler.drawn().len() as int) =~= sampler.drawn());
        }
    }

    /// The colour of a label that the table covers.
    pub fn lookup(&self, label: u32) -> (color: Rgba)
        requires
            label < self@.len(),
        ensures
            color == self@[label as int],
            label == 0 ==> color == transparent(),
            label != 0 ==> is_generated_color(color),
    {
        proof {
            use_type_invariant(self);
        }
        self.colors[label as usize]
    }

    /// Replaces every label of the raster by its colour in the table.
    pub fn colorize(&self, labels: &Raster<u32>) -> (image: Raster<Rgba>)
        requires
            max_label(labels@) < self@.len(),
        ensures
            image.width() == labels.width(),
            image.height() == labels.height(),
            image@ == colorized(labels@, self@),
    {
        let pixels = labels.pixels();
        let n: usize = pixels.len();
        let mut colors: Vec<Rgba> = Vec::with_capacity(n);
        let mut i: usize = 0;
        while i < n
            invariant
                i <= n,
                n == pixels@.len(),
                max_label(pixels@) < self@.len(),
                colors@.len() == i,
                forall|k: int| 0 <= k < i ==> colors@[k] == self@[pixels@[k] as int],
            decreases n - i,
        {
            proof {
                lemma_max_label_bounds(pixels@, i as int);
            }
            colors.push(self.lookup(pixels[i]));
            i += 1;
        }
        assert(colors@ =~= colorized(labels@, self@));
        Raster::from_pixels(labels.width(), labels.height(), colors).unwrap()
    }
}

} // verus!
