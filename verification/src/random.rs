//! The source of randomness, the record of what it handed out, and drawing a
//! byte from a range.

use vstd::prelude::*;

verus! {

/// A provider of random numbers. Colours are only as random as the provider:
/// a generator with a fixed seed, or one that replays a script, makes every
/// colour table reproducible.
pub trait RandomSource {
    /// The next number, meant to be uniform over all 32-bit values.
    fn next_u32(&mut self) -> u32;
}

/// A source together with the record of every number drawn from it through
/// this sampler. The record is ghost state: it is what contracts speak of when
/// they say which draws made which colour.
pub struct Sampler<R: RandomSource> {
    source: R,
    drawn: Ghost<Seq<u32>>,
}

/// `after` continues the record `before`.
pub open spec fn continues(before: Seq<u32>, after: Seq<u32>) -> bool {
    before.len() <= after.len() && after.take(before.len() as int) == before
}

/// The numbers drawn between the records `before` and `after`.
pub open spec fn drawn_since(before: Seq<u32>, after: Seq<u32>) -> Seq<u32> {
    after.skip(before.len() as int)
}

/// The value in `min..=max` that a 32-bit draw stands for. The 2^32 draws fall
/// into `max - min + 1` runs, one for each value, in increasing order; the
/// lengths of two runs differ by one at most, so a uniform draw gives a
/// uniform value.
pub open spec fn scaled(raw: u32, min: u8, max: u8) -> int {
    min + (raw * (max - min + 1)) / 0x1_0000_0000
}

impl<R: RandomSource> Sampler<R> {
    /// Every number drawn so far, oldest first.
    pub closed spec fn drawn(&self) -> Seq<u32> {
        self.drawn@
    }

    /// The source that the numbers come from.
    pub closed spec fn inner(&self) -> R {
        self.source
    }

    /// A sampler that has drawn nothing yet.
    pub fn new(source: R) -> (sampler: Sampler<R>)
        ensures
            sampler.drawn() == Seq::<u32>::empty(),
            sampler.inner() == source,
    {
        Sampler { source, drawn: Ghost(Seq::empty()) }
    }

    /// The source that the numbers come from.
    pub fn source(&self) -> (source: &R)
        ensures
            *source == self.inner(),
    {
        &self.source
    }

    /// Draws the next number from the source and records it.
    pub fn next_u32(&mut self) -> (raw: u32)
        ensures
            final(self).drawn() == old(self).drawn().push(raw),
    {
        let raw: u32 = self.source.next_u32();
        self.drawn = Ghost(self.drawn@.push(raw));
        raw
    }
}

/// Scales a 32-bit draw to a byte in `min..=max`.
pub fn scale_to_range(raw: u32, min: u8, max: u8) -> (value: u8)
    requires
        min <= max,
    ensures
        value == scaled(raw, min, max),
        min <= value <= max,
{
    let span: u64 = (max - min) as u64 + 1;
    assert(0 <= raw * span < 0x1_0000_0000 * span <= 0x100_0000_0000) by (nonlinear_arith)
        requires
            0 <= raw < 0x1_0000_0000,
            1 <= span <= 256,
    ;
    let offset: u64 = (raw as u64 * span) / 0x1_0000_0000;
    assert(offset < span) by (nonlinear_arith)
        requires
            offset == (raw * span) / 0x1_0000_0000,
            0 <= raw * span < 0x1_0000_0000 * span,
    ;
    offset as u8 + min
}

/// Draws one number and scales it to a byte in `min..=max`.
pub fn gen_range<R: RandomSource>(sampler: &mut Sampler<R>, min: u8, max: u8) -> (value: u8)
    requires
        min <= max,
    ensures
        final(sampler).drawn() == old(sampler).drawn().push(final(sampler).drawn().last()),
        value == scaled(final(sampler).drawn().last(), min, max),
        min <= value <= max,
{
    let raw: u32 = sampler.next_u32();
    scale_to_range(raw, min, max)
}

/// The first draw that is scaled to `value` or more: the draws that give
/// `value` run from `first_draw(min, max, value)` up to, and without,
/// `first_draw(min, max, value + 1)`.
pub open spec fn first_draw(min: u8, max: u8, value: int) -> int {
    ((value - min) * 0x1_0000_0000 + (max - min)) / (max - min + 1)
}

/// Scaling keeps the order of the draws.
pub proof fn lemma_scaled_monotonic(min: u8, max: u8, low: u32, high: u32)
    requires
        min <= max,
        low <= high,
    ensures
        scaled(low, min, max) <= scaled(high, min, max),
{
    let span = max - min + 1;
    assert((low * span) / 0x1_0000_0000 <= (high * span) / 0x1_0000_0000) by (nonlinear_arith)
        requires
            0 <= low <= high,
            1 <= span,
    ;
}

/// Scaling is as uniform as 2^32 draws allow. The draws that give `value` are
/// one run; the runs of all values of the range follow each other from draw 0
/// to draw 2^32 - 1; and every run has `2^32 / (max - min + 1)` draws, rounded
/// down or up.
pub proof fn lemma_scaled_runs(min: u8, max: u8, value: int)
    requires
        min <= value <= max,
    ensures
        forall|raw: u32|
            scaled(raw, min, max) == value <==> first_draw(min, max, value) <= raw < first_draw(
                min,
                max,
                value + 1,
            ),
        first_draw(min, max, min as int) == 0,
        first_draw(min, max, max + 1) == 0x1_0000_0000,
        0x1_0000_0000int / (max - min + 1) <= first_draw(min, max, value + 1) - first_draw(
            min,
            max,
            value,
        ) <= 0x1_0000_0000int / (max - min + 1) + 1,
{
    let span = max - min + 1;
    let step = value - min;
    let start = first_draw(min, max, value);
    let end = first_draw(min, max, value + 1);
    let share = 0x1_0000_0000int / span;
    assert(step * 0x1_0000_0000 <= start * span < step * 0x1_0000_0000 + span) by (nonlinear_arith)
        requires
            start == (step * 0x1_0000_0000 + (span - 1)) / span,
            0 <= step,
            1 <= span,
    ;
    assert((step + 1) * 0x1_0000_0000 <= end * span < (step + 1) * 0x1_0000_0000 + span)
        by (nonlinear_arith)
        requires
            end == ((step + 1) * 0x1_0000_0000 + (span - 1)) / span,
            0 <= step,
            1 <= span,
    ;
    assert(share * span <= 0x1_0000_0000 < share * span + span) by (nonlinear_arith)
        requires
            share == 0x1_0000_0000int / span,
            1 <= span,
    ;
    assert(share <= end - start <= share + 1) by (nonlinear_arith)
        requires
            step * 0x1_0000_0000 <= start * span < step * 0x1_0000_0000 + span,
            (step + 1) * 0x1_0000_0000 <= end * span < (step + 1) * 0x1_0000_0000 + span,
            share * span <= 0x1_0000_0000 < share * span + span,
            1 <= span,
    ;
    assert(first_draw(min, max, min as int) == 0) by (nonlinear_arith)
        requires
            first_draw(min, max, min as int) == (0 * 0x1_0000_0000 + (span - 1)) / span,
            1 <= span,
    ;
    assert(first_draw(min, max, max + 1) == 0x1_0000_0000) by (nonlinear_arith)
        requires
            first_draw(min, max, max + 1) == (span * 0x1_0000_0000 + (span - 1)) / span,
            1 <= span,
    ;
    assert forall|raw: u32|
        scaled(raw, min, max) == value <==> start <= raw < end by {
        let offset = (raw * span) / 0x1_0000_0000;
        assert(offset * 0x1_0000_0000 <= raw * span < offset * 0x1_0000_0000 + 0x1_0000_0000)
            by (nonlinear_arith)
            requires
                offset == (raw * span) / 0x1_0000_0000,
        ;
        assert(offset == step <==> start <= raw < end) by (nonlinear_arith)
            requires
                offset * 0x1_0000_0000 <= raw * span < offset * 0x1_0000_0000 + 0x1_0000_0000,
                step * 0x1_0000_0000 <= start * span < step * 0x1_0000_0000 + span,
                (step + 1) * 0x1_0000_0000 <= end * span < (step + 1) * 0x1_0000_0000 + span,
                1 <= span,
                0 <= raw,
        ;
    }
}

} // verus!
