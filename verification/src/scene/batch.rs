//! The stretches of a scene that a renderer draws with one call.

use crate::atlas::AtlasTextureId;
use crate::scene::model::{draw_of, draws_of, Arrays, Draw, RunModel, SceneModel};
use crate::scene::ordering::{lemma_stretches_follow, stretches};
use crate::scene::path::Path;
use crate::scene::primitive::Drawn;
use crate::scene::recording::{paths_view, segment_view, Scene};
use crate::scene::segment::{Marks, PrimitiveKind, Segment};
use crate::text::{decimal, text_of};
use core::ops::Range;
use vstd::prelude::*;
use vstd::string::*;

verus! {

/// A stretch of one array that is drawn with one call.
#[derive(Debug, PartialEq, Eq)]
pub enum PrimitiveBatch {
    Shadows(Range<usize>),
    Quads(Range<usize>),
    Paths(Range<usize>),
    Underlines(Range<usize>),
    MonochromeSprites {
        texture_id: AtlasTextureId,
        range: Range<usize>,
    },
    SubpixelSprites {
        texture_id: AtlasTextureId,
        range: Range<usize>,
    },
    PolychromeSprites {
        texture_id: AtlasTextureId,
        range: Range<usize>,
    },
    Surfaces(Range<usize>),
}

/// A batch: its kind, where it begins and ends in its array, and the texture it
/// is drawn with, for a kind that has one.
pub struct BatchModel {
    pub kind: PrimitiveKind,
    pub start: int,
    pub end: int,
    pub texture: Option<AtlasTextureId>,
}

impl View for PrimitiveBatch {
    type V = BatchModel;

    open spec fn view(&self) -> BatchModel {
        match *self {
            PrimitiveBatch::Shadows(range) => BatchModel {
                kind: PrimitiveKind::Shadow,
                start: range.start as int,
                end: range.end as int,
                texture: None,
            },
            PrimitiveBatch::Quads(range) => BatchModel {
                kind: PrimitiveKind::Quad,
                start: range.start as int,
                end: range.end as int,
                texture: None,
            },
            PrimitiveBatch::Paths(range) => BatchModel {
                kind: PrimitiveKind::Path,
                start: range.start as int,
                end: range.end as int,
                texture: None,
            },
            PrimitiveBatch::Underlines(range) => BatchModel {
                kind: PrimitiveKind::Underline,
                start: range.start as int,
                end: range.end as int,
                texture: None,
            },
            PrimitiveBatch::MonochromeSprites { texture_id, range } => BatchModel {
                kind: PrimitiveKind::MonochromeSprite,
                start: range.start as int,
                end: range.end as int,
                texture: Some(texture_id),
            },
            PrimitiveBatch::SubpixelSprites { texture_id, range } => BatchModel {
                kind: PrimitiveKind::SubpixelSprite,
                start: range.start as int,
                end: range.end as int,
                texture: Some(texture_id),
            },
            PrimitiveBatch::PolychromeSprites { texture_id, range } => BatchModel {
                kind: PrimitiveKind::PolychromeSprite,
                start: range.start as int,
                end: range.end as int,
                texture: Some(texture_id),
            },
            PrimitiveBatch::Surfaces(range) => BatchModel {
                kind: PrimitiveKind::Surface,
                start: range.start as int,
                end: range.end as int,
                texture: None,
            },
        }
    }
}

/// Where in the drawing order a primitive stands: by its order, and then by its
/// kind.
pub open spec fn draw_key(order: int, rank: int) -> int {
    order * 8 + rank
}

/// Where the next primitive of a kind stands, of those still to draw. A kind
/// that has none left stands behind every order.
pub open spec fn head_key(arrays: Arrays, rest: RunModel, rank: int) -> int {
    let kind = PrimitiveKind::of_rank(rank);
    let at = rest.start.at(kind);
    if at < rest.end.at(kind) {
        draw_key(arrays.draws(kind)[at].order as int, rank)
    } else {
        draw_key(u32::MAX as int, rank)
    }
}

/// The kind to draw next, of the first `n`.
pub open spec fn first_rank(arrays: Arrays, rest: RunModel, n: nat) -> int
    decreases n,
{
    if n <= 1 {
        0
    } else {
        let best = first_rank(arrays, rest, (n - 1) as nat);
        if head_key(arrays, rest, n - 1) < head_key(arrays, rest, best) {
            n - 1
        } else {
            best
        }
    }
}

/// Where the next primitive of any other of the first `n` kinds stands.
pub open spec fn least_but(arrays: Arrays, rest: RunModel, skip: int, n: nat) -> int
    decreases n,
{
    if n == 0 {
        0x8_0000_0000
    } else {
        let least = least_but(arrays, rest, skip, (n - 1) as nat);
        if n - 1 != skip && head_key(arrays, rest, n - 1) < least {
            head_key(arrays, rest, n - 1)
        } else {
            least
        }
    }
}

/// Whether the `i`th primitive can be drawn in one call with the `start`th:
/// before anything of another kind has to be drawn, with the same texture, and
/// clipped or unclipped as it is.
pub open spec fn joins(draws: Seq<Draw>, start: int, i: int, bound: int, rank: int) -> bool {
    &&& draw_key(draws[i].order as int, rank) < bound
    &&& draws[i].texture == draws[start].texture
    &&& draws[i].clipped == draws[start].clipped
}

/// Where the batch that begins at `start` and reaches `i` ends.
pub open spec fn batch_end(
    draws: Seq<Draw>,
    start: int,
    i: int,
    limit: int,
    bound: int,
    rank: int,
) -> int
    decreases limit - i,
{
    if i < limit && joins(draws, start, i, bound, rank) {
        batch_end(draws, start, i + 1, limit, bound, rank)
    } else {
        i
    }
}

/// The next batch of what is still to draw, and what is left after it.
pub open spec fn next_batch(arrays: Arrays, rest: RunModel) -> Option<(BatchModel, RunModel)> {
    let rank = first_rank(arrays, rest, 8);
    let kind = PrimitiveKind::of_rank(rank);
    let start = rest.start.at(kind);
    let limit = rest.end.at(kind);
    if start >= limit {
        None
    } else {
        let draws = arrays.draws(kind);
        let bound = least_but(arrays, rest, rank, 8);
        let end = batch_end(draws, start, start + 1, limit, bound, rank);
        Some(
            (
                BatchModel { kind, start, end, texture: draws[start].texture },
                RunModel { start: rest.start.with(kind, end), ..rest },
            ),
        )
    }
}

/// How much is still to draw.
pub open spec fn left_over(rest: RunModel) -> int {
    rest.end.total() - rest.start.total()
}

/// Whether a run lies within the arrays.
pub open spec fn is_within(arrays: Arrays, run: RunModel) -> bool {
    &&& Marks::zero().le(run.start)
    &&& run.start.le(run.end)
    &&& run.end.le(arrays.marks())
}

/// The batches of what is still to draw.
pub open spec fn batches_of(arrays: Arrays, rest: RunModel) -> Seq<BatchModel>
    decreases left_over(rest),
    when is_within(arrays, rest) via batches_of_decreases
{
    match next_batch(arrays, rest) {
        None => Seq::empty(),
        Some((batch, after)) => seq![batch] + batches_of(arrays, after),
    }
}

#[via_fn]
proof fn batches_of_decreases(arrays: Arrays, rest: RunModel) {
    if next_batch(arrays, rest) is Some {
        lemma_next_batch(arrays, rest);
    }
}

/// The batches of the first `n` runs.
pub open spec fn batches_of_runs(arrays: Arrays, runs: Seq<RunModel>, n: nat) -> Seq<BatchModel>
    decreases n,
{
    if n == 0 {
        Seq::empty()
    } else {
        batches_of_runs(arrays, runs, (n - 1) as nat) + batches_of(arrays, runs[n - 1])
    }
}

proof fn lemma_batch_end(
    draws: Seq<Draw>,
    start: int,
    i: int,
    limit: int,
    bound: int,
    rank: int,
)
    requires
        i <= limit,
    ensures
        i <= batch_end(draws, start, i, limit, bound, rank) <= limit,
        forall|j: int|
            i <= j < batch_end(draws, start, i, limit, bound, rank) ==> #[trigger] joins(
                draws,
                start,
                j,
                bound,
                rank,
            ),
    decreases limit - i,
{
    if i < limit && joins(draws, start, i, bound, rank) {
        lemma_batch_end(draws, start, i + 1, limit, bound, rank);
    }
}

/// A batch draws at least one primitive, and leaves the rest.
pub proof fn lemma_next_batch(arrays: Arrays, rest: RunModel)
    requires
        next_batch(arrays, rest) is Some,
        is_within(arrays, rest),
    ensures
        ({
            let (batch, after) = next_batch(arrays, rest)->0;
            &&& is_within(arrays, after)
            &&& 0 <= left_over(after) < left_over(rest)
            &&& batch.start == rest.start.at(batch.kind)
            &&& batch.start < batch.end <= rest.end.at(batch.kind)
            &&& after == (RunModel { start: rest.start.with(batch.kind, batch.end), ..rest })
        }),
{
    let rank = first_rank(arrays, rest, 8);
    let kind = PrimitiveKind::of_rank(rank);
    let start = rest.start.at(kind);
    lemma_batch_end(
        arrays.draws(kind),
        start,
        start + 1,
        rest.end.at(kind),
        least_but(arrays, rest, rank, 8),
        rank,
    );
}

/// Where the batch that begins at `start` ends.
fn find_batch_end<T: Drawn>(
    items: &Vec<T>,
    start: usize,
    limit: usize,
    bound: u64,
    rank: u64,
) -> (end: usize)
    requires
        start < limit <= items@.len(),
        rank < 8,
    ensures
        end == batch_end(
            draws_of(items@),
            start as int,
            start + 1,
            limit as int,
            bound as int,
            rank as int,
        ),
        start < end <= limit,
{
    let texture = items[start].texture();
    let clipped = items[start].clip().is_clipped();
    let ghost draws = draws_of(items@);
    let mut end: usize = start + 1;
    while end < limit
        invariant_except_break
            batch_end(
                draws,
                start as int,
                start + 1,
                limit as int,
                bound as int,
                rank as int,
            ) == batch_end(
                draws,
                start as int,
                end as int,
                limit as int,
                bound as int,
                rank as int,
            ),
        invariant
            start < end <= limit <= items@.len(),
            rank < 8,
            draws == draws_of(items@),
            texture == draws[start as int].texture,
            clipped == draws[start as int].clipped,
        ensures
            end == batch_end(
                draws,
                start as int,
                start + 1,
                limit as int,
                bound as int,
                rank as int,
            ),
        decreases limit - end,
    {
        let item = &items[end];
        assert(draws[end as int] == draw_of(*item));
        let same = match (item.texture(), texture) {
            (None, None) => true,
            (Some(one), Some(other)) => one == other,
            _ => false,
        };
        if !(item.order() as u64 * 8 + rank < bound && same && item.clip().is_clipped()
            == clipped) {
            break;
        }
        end += 1;
    }
    end
}

/// The batches of one run, one by one.
pub struct BatchIterator<'a> {
    pub scene: &'a Scene,
    /// What is still to draw.
    pub rest: Segment,
}

/// The batches of some scene, as numbers.
pub open spec fn batch_views(batches: Seq<PrimitiveBatch>) -> Seq<BatchModel> {
    batches.map_values(|batch: PrimitiveBatch| batch@)
}

impl<'a> BatchIterator<'a> {
    pub open spec fn wf(self) -> bool {
        is_within(self.scene@.arrays, segment_view(self.rest))
    }

    /// The batches of one run of the scene. They address the scene's arrays
    /// rather than the run's part of them.
    pub fn over(scene: &'a Scene, run: &Segment) -> (r: Self)
        requires
            is_within(scene@.arrays, segment_view(*run)),
        ensures
            r.scene == scene,
            r.rest == *run,
            r.wf(),
    {
        BatchIterator { scene, rest: run.clone() }
    }

    /// Where the next primitive of a kind stands.
    fn head(&self, rank: u64) -> (r: u64)
        requires
            self.wf(),
            rank < 8,
        ensures
            r == head_key(self.scene@.arrays, segment_view(self.rest), rank as int),
            r < 0x8_0000_0000,
    {
        let scene = self.scene;
        let order: u32 = match PrimitiveKind::at_rank(rank) {
            PrimitiveKind::Shadow => if self.rest.shadows.start < self.rest.shadows.end {
                scene.shadows[self.rest.shadows.start].order
            } else {
                u32::MAX
            },
            PrimitiveKind::Quad => if self.rest.quads.start < self.rest.quads.end {
                scene.quads[self.rest.quads.start].order
            } else {
                u32::MAX
            },
            PrimitiveKind::Path => if self.rest.paths.start < self.rest.paths.end {
                scene.paths[self.rest.paths.start].order
            } else {
                u32::MAX
            },
            PrimitiveKind::Underline => if self.rest.underlines.start < self.rest.underlines.end {
                scene.underlines[self.rest.underlines.start].order
            } else {
                u32::MAX
            },
            PrimitiveKind::MonochromeSprite => if self.rest.monochrome_sprites.start < self.rest.monochrome_sprites.end {
                scene.monochrome_sprites[self.rest.monochrome_sprites.start].order
            } else {
                u32::MAX
            },
            PrimitiveKind::SubpixelSprite => if self.rest.subpixel_sprites.start < self.rest.subpixel_sprites.end {
                scene.subpixel_sprites[self.rest.subpixel_sprites.start].order
            } else {
                u32::MAX
            },
            PrimitiveKind::PolychromeSprite => if self.rest.polychrome_sprites.start < self.rest.polychrome_sprites.end {
                scene.polychrome_sprites[self.rest.polychrome_sprites.start].order
            } else {
                u32::MAX
            },
            PrimitiveKind::Surface => if self.rest.surfaces.start < self.rest.surfaces.end {
                scene.surfaces[self.rest.surfaces.start].order
            } else {
                u32::MAX
            },
        };
        order as u64 * 8 + rank
    }

    /// The next batch.
    pub fn next(&mut self) -> (r: Option<PrimitiveBatch>)
        requires
            old(self).wf(),
        ensures
            final(self).wf(),
            final(self).scene == old(self).scene,
            match r {
                None => {
                    &&& next_batch(old(self).scene@.arrays, segment_view(old(self).rest)) is None
                    &&& final(self).rest == old(self).rest
                },
                Some(batch) => next_batch(
                    old(self).scene@.arrays,
                    segment_view(old(self).rest),
                ) == Some((batch@, segment_view(final(self).rest))),
            },
    {
        let ghost arrays = self.scene@.arrays;
        let ghost rest = segment_view(self.rest);
        let mut first: u64 = 0;
        let mut first_head: u64 = self.head(0);
        let mut rank: u64 = 1;
        while rank < 8
            invariant
                self.wf(),
                1 <= rank <= 8,
                first < 8,
                arrays == self.scene@.arrays,
                rest == segment_view(self.rest),
                first == first_rank(arrays, rest, rank as nat),
                first_head == head_key(arrays, rest, first as int),
            decreases 8 - rank,
        {
            let head: u64 = self.head(rank);
            if head < first_head {
                first = rank;
                first_head = head;
            }
            rank += 1;
        }
        let mut bound: u64 = 0x8_0000_0000;
        let mut other: u64 = 0;
        while other < 8
            invariant
                self.wf(),
                other <= 8,
                arrays == self.scene@.arrays,
                rest == segment_view(self.rest),
                bound == least_but(arrays, rest, first as int, other as nat),
            decreases 8 - other,
        {
            if other != first {
                let head: u64 = self.head(other);
                if head < bound {
                    bound = head;
                }
            }
            other += 1;
        }
        proof {
            if next_batch(arrays, rest) is Some {
                lemma_next_batch(arrays, rest);
            }
        }
        let scene = self.scene;
        assert(draws_of(scene.paths@) =~= draws_of(paths_view(scene.paths@)));
        match PrimitiveKind::at_rank(first) {
            PrimitiveKind::Shadow => {
                let start: usize = self.rest.shadows.start;
                let limit: usize = self.rest.shadows.end;
                if start >= limit {
                    return None;
                }
                let end: usize = find_batch_end(&scene.shadows, start, limit, bound, first);
                self.rest.shadows = end..limit;
                Some(PrimitiveBatch::Shadows(start..end))
            },
            PrimitiveKind::Quad => {
                let start: usize = self.rest.quads.start;
                let limit: usize = self.rest.quads.end;
                if start >= limit {
                    return None;
                }
                let end: usize = find_batch_end(&scene.quads, start, limit, bound, first);
                self.rest.quads = end..limit;
                Some(PrimitiveBatch::Quads(start..end))
            },
            PrimitiveKind::Path => {
                let start: usize = self.rest.paths.start;
                let limit: usize = self.rest.paths.end;
                if start >= limit {
                    return None;
                }
                let end: usize = find_batch_end(&scene.paths, start, limit, bound, first);
                self.rest.paths = end..limit;
                Some(PrimitiveBatch::Paths(start..end))
            },
            PrimitiveKind::Underline => {
                let start: usize = self.rest.underlines.start;
                let limit: usize = self.rest.underlines.end;
                if start >= limit {
                    return None;
                }
                let end: usize = find_batch_end(&scene.underlines, start, limit, bound, first);
                self.rest.underlines = end..limit;
                Some(PrimitiveBatch::Underlines(start..end))
            },
            PrimitiveKind::MonochromeSprite => {
                let start: usize = self.rest.monochrome_sprites.start;
                let limit: usize = self.rest.monochrome_sprites.end;
                if start >= limit {
                    return None;
                }
                let texture_id = scene.monochrome_sprites[start].tile.texture_id;
                let end: usize = find_batch_end(&scene.monochrome_sprites, start, limit, bound, first);
                self.rest.monochrome_sprites = end..limit;
                Some(PrimitiveBatch::MonochromeSprites { texture_id, range: start..end })
            },
            PrimitiveKind::SubpixelSprite => {
                let start: usize = self.rest.subpixel_sprites.start;
                let limit: usize = self.rest.subpixel_sprites.end;
                if start >= limit {
                    return None;
                }
                let texture_id = scene.subpixel_sprites[start].tile.texture_id;
                let end: usize = find_batch_end(&scene.subpixel_sprites, start, limit, bound, first);
                self.rest.subpixel_sprites = end..limit;
                Some(PrimitiveBatch::SubpixelSprites { texture_id, range: start..end })
            },
            PrimitiveKind::PolychromeSprite => {
                let start: usize = self.rest.polychrome_sprites.start;
                let limit: usize = self.rest.polychrome_sprites.end;
                if start >= limit {
                    return None;
                }
                let texture_id = scene.polychrome_sprites[start].tile.texture_id;
                let end: usize = find_batch_end(&scene.polychrome_sprites, start, limit, bound, first);
                self.rest.polychrome_sprites = end..limit;
                Some(PrimitiveBatch::PolychromeSprites { texture_id, range: start..end })
            },
            PrimitiveKind::Surface => {
                let start: usize = self.rest.surfaces.start;
                let limit: usize = self.rest.surfaces.end;
                if start >= limit {
                    return None;
                }
                let end: usize = find_batch_end(&scene.surfaces, start, limit, bound, first);
                self.rest.surfaces = end..limit;
                Some(PrimitiveBatch::Surfaces(start..end))
            },
        }
    }
}

/// A run's stretches lie within a scene's arrays.
pub proof fn lemma_run_is_within(s: SceneModel, index: int)
    requires
        s.wf(),
        0 <= index < s.segments.len(),
    ensures
        is_within(s.arrays, s.segments[index]),
{
    reveal(SceneModel::wf);
    lemma_stretches_follow(s.segments, PrimitiveKind::Shadow, s.arrays.marks());
    assert(stretches(s.segments, PrimitiveKind::Shadow)[index] == (
        s.segments[index].start.shadows,
        s.segments[index].end.shadows,
    ));
    lemma_stretches_follow(s.segments, PrimitiveKind::Quad, s.arrays.marks());
    assert(stretches(s.segments, PrimitiveKind::Quad)[index] == (
        s.segments[index].start.quads,
        s.segments[index].end.quads,
    ));
    lemma_stretches_follow(s.segments, PrimitiveKind::Path, s.arrays.marks());
    assert(stretches(s.segments, PrimitiveKind::Path)[index] == (
        s.segments[index].start.paths,
        s.segments[index].end.paths,
    ));
    lemma_stretches_follow(s.segments, PrimitiveKind::Underline, s.arrays.marks());
    assert(stretches(s.segments, PrimitiveKind::Underline)[index] == (
        s.segments[index].start.underlines,
        s.segments[index].end.underlines,
    ));
    lemma_stretches_follow(s.segments, PrimitiveKind::MonochromeSprite, s.arrays.marks());
    assert(stretches(s.segments, PrimitiveKind::MonochromeSprite)[index] == (
        s.segments[index].start.monochrome_sprites,
        s.segments[index].end.monochrome_sprites,
    ));
    lemma_stretches_follow(s.segments, PrimitiveKind::SubpixelSprite, s.arrays.marks());
    assert(stretches(s.segments, PrimitiveKind::SubpixelSprite)[index] == (
        s.segments[index].start.subpixel_sprites,
        s.segments[index].end.subpixel_sprites,
    ));
    lemma_stretches_follow(s.segments, PrimitiveKind::PolychromeSprite, s.arrays.marks());
    assert(stretches(s.segments, PrimitiveKind::PolychromeSprite)[index] == (
        s.segments[index].start.polychrome_sprites,
        s.segments[index].end.polychrome_sprites,
    ));
    lemma_stretches_follow(s.segments, PrimitiveKind::Surface, s.arrays.marks());
    assert(stretches(s.segments, PrimitiveKind::Surface)[index] == (
        s.segments[index].start.surfaces,
        s.segments[index].end.surfaces,
    ));
}

impl Scene {
    /// The batches of one run, in the order they have to be drawn.
    pub fn run_batches(&self, run: &Segment) -> (r: Vec<PrimitiveBatch>)
        requires
            is_within(self@.arrays, segment_view(*run)),
        ensures
            batch_views(r@) == batches_of(self@.arrays, segment_view(*run)),
    {
        let mut iterator = BatchIterator::over(self, run);
        let mut batches: Vec<PrimitiveBatch> = Vec::new();
        let ghost arrays = self@.arrays;
        let ghost all = batches_of(arrays, segment_view(*run));
        let mut done = false;
        assert(all =~= batch_views(batches@) + batches_of(arrays, segment_view(iterator.rest)));
        while !done
            invariant
                iterator.wf(),
                iterator.scene@.arrays == arrays,
                done ==> batch_views(batches@) == all,
                !done ==> all == batch_views(batches@) + batches_of(
                    arrays,
                    segment_view(iterator.rest),
                ),
            decreases left_over(segment_view(iterator.rest)) + if done {
                0int
            } else {
                1
            },
        {
            let ghost rest = segment_view(iterator.rest);
            let ghost before = batches@;
            match iterator.next() {
                None => {
                    done = true;
                    assert(batch_views(batches@) =~= all);
                },
                Some(batch) => {
                    proof {
                        lemma_next_batch(arrays, rest);
                    }
                    batches.push(batch);
                    assert(batch_views(batches@) =~= batch_views(before).push(batch@));
                    assert(all =~= batch_views(batches@) + batches_of(
                        arrays,
                        segment_view(iterator.rest),
                    ));
                },
            }
        }
        batches
    }

    /// The scene's primitives, in the stretches that a renderer draws with one
    /// call.
    ///
    /// A batch is a stretch of one array. It ends where a primitive of another
    /// kind has to be drawn first, where the atlas texture changes, where
    /// clipped and unclipped meet, and at a group boundary.
    pub fn batches(&self) -> (r: Vec<PrimitiveBatch>)
        requires
            self@.wf(),
        ensures
            batch_views(r@) == batches_of_runs(
                self@.arrays,
                self@.segments,
                self@.segments.len(),
            ),
    {
        let mut batches: Vec<PrimitiveBatch> = Vec::new();
        let mut index: usize = 0;
        assert(batch_views(batches@) =~= Seq::<BatchModel>::empty());
        while index < self.segments.len()
            invariant
                self@.wf(),
                index <= self.segments@.len(),
                batch_views(batches@) == batches_of_runs(
                    self@.arrays,
                    self@.segments,
                    index as nat,
                ),
            decreases self.segments@.len() - index,
        {
            proof {
                assert(self@.segments[index as int] == segment_view(self.segments@[index as int]));
                lemma_run_is_within(self@, index as int);
            }
            let ghost before = batches@;
            let mut more = self.run_batches(&self.segments[index]);
            let ghost added = more@;
            batches.append(&mut more);
            index += 1;
            assert(batch_views(batches@) =~= batch_views(before) + batch_views(added));
        }
        batches
    }
}

/// Whether a stretch of an array is in the order in which it is drawn.
pub open spec fn is_in_order(draws: Seq<Draw>, start: int, end: int) -> bool {
    forall|i: int, j: int|
        start <= i <= j < end ==> (#[trigger] draws[i]).order <= (#[trigger] draws[j]).order
}

/// Whether every stretch of a run is in the order in which it is drawn.
pub open spec fn run_is_in_order(arrays: Arrays, run: RunModel) -> bool {
    forall|kind: PrimitiveKind|
        is_in_order(#[trigger] arrays.draws(kind), run.start.at(kind), run.end.at(kind))
}

/// Whether every order of a run is one that a kind with nothing left stands
/// behind.
pub open spec fn orders_are_finite(arrays: Arrays, run: RunModel) -> bool {
    forall|kind: PrimitiveKind, i: int|
        run.start.at(kind) <= i < run.end.at(kind) ==> (#[trigger] arrays.draws(kind)[i]).order
            < u32::MAX
}

proof fn lemma_first_rank(arrays: Arrays, rest: RunModel, n: nat)
    requires
        1 <= n <= 8,
    ensures
        0 <= first_rank(arrays, rest, n) < n,
        forall|r: int|
            0 <= r < n ==> head_key(arrays, rest, first_rank(arrays, rest, n)) <= #[trigger] head_key(
                arrays,
                rest,
                r,
            ),
    decreases n,
{
    if n > 1 {
        lemma_first_rank(arrays, rest, (n - 1) as nat);
    }
}

proof fn lemma_least_but(arrays: Arrays, rest: RunModel, skip: int, n: nat)
    requires
        n <= 8,
    ensures
        forall|r: int|
            0 <= r < n && r != skip ==> least_but(arrays, rest, skip, n) <= #[trigger] head_key(
                arrays,
                rest,
                r,
            ),
    decreases n,
{
    if n > 0 {
        lemma_least_but(arrays, rest, skip, (n - 1) as nat);
    }
}

proof fn lemma_kind_has_a_rank(kind: PrimitiveKind)
    ensures
        0 <= kind.rank() < 8,
        PrimitiveKind::of_rank(kind.rank()) == kind,
{
}

proof fn lemma_rank_has_a_kind(rank: int)
    requires
        0 <= rank < 8,
    ensures
        PrimitiveKind::of_rank(rank).rank() == rank,
{
}

/// What is left after a batch is still in order, and its orders are still
/// finite.
proof fn lemma_rest_keeps(arrays: Arrays, rest: RunModel)
    requires
        next_batch(arrays, rest) is Some,
        is_within(arrays, rest),
    ensures
        run_is_in_order(arrays, rest) ==> run_is_in_order(arrays, (next_batch(arrays, rest)->0).1),
        orders_are_finite(arrays, rest) ==> orders_are_finite(
            arrays,
            (next_batch(arrays, rest)->0).1,
        ),
{
    lemma_next_batch(arrays, rest);
    let after = (next_batch(arrays, rest)->0).1;
    assert forall|kind: PrimitiveKind| rest.start.at(kind) <= after.start.at(kind)
        && #[trigger] after.end.at(kind) == rest.end.at(kind) by {}
    if run_is_in_order(arrays, rest) {
        assert forall|kind: PrimitiveKind|
            is_in_order(#[trigger] arrays.draws(kind), after.start.at(kind), after.end.at(kind)) by {
            assert(is_in_order(arrays.draws(kind), rest.start.at(kind), rest.end.at(kind)));
            assert(after.end.at(kind) == rest.end.at(kind));
        }
    }
    if orders_are_finite(arrays, rest) {
        assert forall|kind: PrimitiveKind, i: int|
            after.start.at(kind) <= i < after.end.at(kind) implies (#[trigger] arrays.draws(
            kind,
        )[i]).order < u32::MAX by {
            assert(after.end.at(kind) == rest.end.at(kind));
        }
    }
}

/// Every primitive of a run is drawn: it is in one of the batches.
pub proof fn batches_draw_everything(
    arrays: Arrays,
    run: RunModel,
    kind: PrimitiveKind,
    i: int,
) -> (b: int)
    requires
        is_within(arrays, run),
        orders_are_finite(arrays, run),
        run.start.at(kind) <= i < run.end.at(kind),
    ensures
        0 <= b < batches_of(arrays, run).len(),
        batches_of(arrays, run)[b].kind == kind,
        batches_of(arrays, run)[b].start <= i < batches_of(arrays, run)[b].end,
    decreases left_over(run),
{
    lemma_first_rank(arrays, run, 8);
    let rank = first_rank(arrays, run, 8);
    let first = PrimitiveKind::of_rank(rank);
    lemma_kind_has_a_rank(kind);
    lemma_rank_has_a_kind(rank);
    assert(head_key(arrays, run, rank) <= head_key(arrays, run, kind.rank()));
    assert(arrays.draws(kind)[run.start.at(kind)].order < u32::MAX);
    assert(next_batch(arrays, run) is Some);
    lemma_next_batch(arrays, run);
    lemma_rest_keeps(arrays, run);
    let (batch, after) = next_batch(arrays, run)->0;
    let all = batches_of(arrays, run);
    assert(all == seq![batch] + batches_of(arrays, after));
    if batch.kind == kind && i < batch.end {
        0
    } else {
        let b = batches_draw_everything(arrays, after, kind, i);
        b + 1
    }
}

/// The batches of one kind follow one another, so that nothing is drawn twice.
pub proof fn batches_draw_nothing_twice(arrays: Arrays, run: RunModel, b: int, c: int)
    requires
        is_within(arrays, run),
        0 <= b < c < batches_of(arrays, run).len(),
        batches_of(arrays, run)[b].kind == batches_of(arrays, run)[c].kind,
    ensures
        batches_of(arrays, run)[b].end <= batches_of(arrays, run)[c].start,
    decreases left_over(run),
{
    lemma_next_batch(arrays, run);
    let (batch, after) = next_batch(arrays, run)->0;
    let all = batches_of(arrays, run);
    let rest = batches_of(arrays, after);
    assert(all == seq![batch] + rest);
    assert(all[c] == rest[c - 1]);
    if b == 0 {
        batches_stay_in_the_run(arrays, after, c - 1);
    } else {
        assert(all[b] == rest[b - 1]);
        batches_draw_nothing_twice(arrays, after, b - 1, c - 1);
    }
}

/// A batch never reaches beyond the run it is of.
pub proof fn batches_stay_in_the_run(arrays: Arrays, run: RunModel, b: int)
    requires
        is_within(arrays, run),
        0 <= b < batches_of(arrays, run).len(),
    ensures
        ({
            let batch = batches_of(arrays, run)[b];
            run.start.at(batch.kind) <= batch.start < batch.end <= run.end.at(batch.kind)
        }),
    decreases left_over(run),
{
    lemma_next_batch(arrays, run);
    let (batch, after) = next_batch(arrays, run)->0;
    let all = batches_of(arrays, run);
    let rest = batches_of(arrays, after);
    assert(all == seq![batch] + rest);
    if b > 0 {
        assert(all[b] == rest[b - 1]);
        batches_stay_in_the_run(arrays, after, b - 1);
        let kind = all[b].kind;
        assert(rest[b - 1].kind == kind);
        assert(run.start.at(kind) <= after.start.at(kind));
    }
}

/// Every primitive of a batch is clipped, or none is, and all of them are drawn
/// with the batch's texture.
pub proof fn batches_are_uniform(arrays: Arrays, run: RunModel, b: int, i: int)
    requires
        is_within(arrays, run),
        0 <= b < batches_of(arrays, run).len(),
        batches_of(arrays, run)[b].start <= i < batches_of(arrays, run)[b].end,
    ensures
        ({
            let batch = batches_of(arrays, run)[b];
            let draws = arrays.draws(batch.kind);
            &&& draws[i].clipped == draws[batch.start].clipped
            &&& draws[i].texture == batch.texture
        }),
    decreases left_over(run),
{
    lemma_next_batch(arrays, run);
    let (batch, after) = next_batch(arrays, run)->0;
    let all = batches_of(arrays, run);
    let rest = batches_of(arrays, after);
    assert(all == seq![batch] + rest);
    if b == 0 {
        let rank = first_rank(arrays, run, 8);
        let bound = least_but(arrays, run, rank, 8);
        let draws = arrays.draws(batch.kind);
        lemma_batch_end(
            draws,
            batch.start,
            batch.start + 1,
            run.end.at(batch.kind),
            bound,
            rank,
        );
        if i > batch.start {
            assert(joins(draws, batch.start, i, bound, rank));
        }
    } else {
        assert(all[b] == rest[b - 1]);
        batches_are_uniform(arrays, after, b - 1, i);
    }
}

/// How far some batches draw the primitives of a kind, where nothing before
/// `start` is left to draw.
pub open spec fn drawn_up_to(batches: Seq<BatchModel>, kind: PrimitiveKind, start: int) -> int
    decreases batches.len(),
{
    if batches.len() == 0 {
        start
    } else {
        drawn_up_to(
            batches.drop_first(),
            kind,
            if batches[0].kind == kind {
                batches[0].end
            } else {
                start
            },
        )
    }
}

/// Something is drawn next where anything is left.
proof fn lemma_something_is_next(arrays: Arrays, rest: RunModel, kind: PrimitiveKind)
    requires
        orders_are_finite(arrays, rest),
        rest.start.at(kind) < rest.end.at(kind),
    ensures
        next_batch(arrays, rest) is Some,
{
    lemma_first_rank(arrays, rest, 8);
    let rank = first_rank(arrays, rest, 8);
    lemma_kind_has_a_rank(kind);
    lemma_rank_has_a_kind(rank);
    assert(head_key(arrays, rest, rank) <= head_key(arrays, rest, kind.rank()));
    assert(arrays.draws(kind)[rest.start.at(kind)].order < u32::MAX);
}

/// The batches of a kind are adjacent: the first begins where the run does, and
/// each of the others where the one before it ended.
pub proof fn batches_are_adjacent(arrays: Arrays, run: RunModel, b: int)
    requires
        is_within(arrays, run),
        0 <= b < batches_of(arrays, run).len(),
    ensures
        ({
            let all = batches_of(arrays, run);
            all[b].start == drawn_up_to(all.take(b), all[b].kind, run.start.at(all[b].kind))
        }),
    decreases left_over(run),
{
    lemma_next_batch(arrays, run);
    let (batch, after) = next_batch(arrays, run)->0;
    let all = batches_of(arrays, run);
    let rest = batches_of(arrays, after);
    assert(all == seq![batch] + rest);
    if b > 0 {
        assert(all[b] == rest[b - 1]);
        assert(all.take(b).drop_first() =~= rest.take(b - 1));
        batches_are_adjacent(arrays, after, b - 1);
    }
}

/// The batches of a kind cover the run: together they reach its end.
pub proof fn batches_cover_the_run(arrays: Arrays, run: RunModel, kind: PrimitiveKind)
    requires
        is_within(arrays, run),
        orders_are_finite(arrays, run),
    ensures
        drawn_up_to(batches_of(arrays, run), kind, run.start.at(kind)) == run.end.at(kind),
    decreases left_over(run),
{
    if next_batch(arrays, run) is None {
        if run.start.at(kind) < run.end.at(kind) {
            lemma_something_is_next(arrays, run, kind);
        }
        assert(run.start.at(kind) == run.end.at(kind));
    } else {
        lemma_next_batch(arrays, run);
        lemma_rest_keeps(arrays, run);
        let (batch, after) = next_batch(arrays, run)->0;
        let all = batches_of(arrays, run);
        assert(all == seq![batch] + batches_of(arrays, after));
        assert(all.drop_first() =~= batches_of(arrays, after));
        batches_cover_the_run(arrays, after, kind);
    }
}

/// The kind that bounds a batch, where one does.
proof fn lemma_least_is_of_a_kind(arrays: Arrays, rest: RunModel, skip: int, n: nat) -> (r: int)
    requires
        n <= 8,
        least_but(arrays, rest, skip, n) < 0x8_0000_0000,
    ensures
        0 <= r < n,
        r != skip,
        head_key(arrays, rest, r) == least_but(arrays, rest, skip, n),
    decreases n,
{
    if n - 1 != skip && head_key(arrays, rest, n - 1) < least_but(
        arrays,
        rest,
        skip,
        (n - 1) as nat,
    ) {
        n - 1
    } else {
        lemma_least_is_of_a_kind(arrays, rest, skip, (n - 1) as nat)
    }
}

proof fn lemma_batch_stops(
    draws: Seq<Draw>,
    start: int,
    i: int,
    limit: int,
    bound: int,
    rank: int,
)
    requires
        i <= limit,
        batch_end(draws, start, i, limit, bound, rank) < limit,
    ensures
        !joins(draws, start, batch_end(draws, start, i, limit, bound, rank), bound, rank),
    decreases limit - i,
{
    if i < limit && joins(draws, start, i, bound, rank) {
        lemma_batch_stops(draws, start, i + 1, limit, bound, rank);
    }
}

/// Where the next primitive of a batch's kind could have joined the batch, one
/// of another kind stands before it, and is drawn next.
proof fn lemma_next_batch_is_maximal(arrays: Arrays, run: RunModel)
    requires
        is_within(arrays, run),
        orders_are_finite(arrays, run),
        next_batch(arrays, run) is Some,
    ensures
        ({
            let (batch, after) = next_batch(arrays, run)->0;
            let draws = arrays.draws(batch.kind);
            ||| batch.end == run.end.at(batch.kind)
            ||| draws[batch.end].texture != batch.texture
            ||| draws[batch.end].clipped != draws[batch.start].clipped
            ||| {
                let next = (next_batch(arrays, after)->0).0;
                &&& next_batch(arrays, after) is Some
                &&& next.kind != batch.kind
                &&& draw_key(arrays.draws(next.kind)[next.start].order as int, next.kind.rank())
                    < draw_key(draws[batch.end].order as int, batch.kind.rank())
            }
        }),
{
    lemma_next_batch(arrays, run);
    lemma_rest_keeps(arrays, run);
    let (batch, after) = next_batch(arrays, run)->0;
    let kind = batch.kind;
    let draws = arrays.draws(kind);
    let rank = first_rank(arrays, run, 8);
    lemma_first_rank(arrays, run, 8);
    lemma_rank_has_a_kind(rank);
    if batch.end < run.end.at(kind) && draws[batch.end].texture == batch.texture
        && draws[batch.end].clipped == draws[batch.start].clipped {
        let bound = least_but(arrays, run, rank, 8);
        lemma_batch_stops(draws, batch.start, batch.start + 1, run.end.at(kind), bound, rank);
        assert(draws[batch.end].order < u32::MAX);
        let key = draw_key(draws[batch.end].order as int, rank);
        assert(bound <= key < 0x8_0000_0000);
        let other = lemma_least_is_of_a_kind(arrays, run, rank, 8);
        lemma_rank_has_a_kind(other);
        lemma_heads_kept(arrays, run, rank, other);
        assert(head_key(arrays, after, other) < key);
        lemma_something_is_next(arrays, after, kind);
        lemma_next_head(arrays, after, rank, other);
    }
}

/// A batch moves its own kind on, and no other.
proof fn lemma_heads_kept(arrays: Arrays, run: RunModel, rank: int, other: int)
    requires
        next_batch(arrays, run) is Some,
        rank == first_rank(arrays, run, 8),
        0 <= rank < 8,
        0 <= other < 8,
        other != rank,
    ensures
        ({
            let (batch, after) = next_batch(arrays, run)->0;
            &&& head_key(arrays, after, other) == head_key(arrays, run, other)
            &&& after.start.at(batch.kind) == batch.end
            &&& after.end == run.end
            &&& batch.end < run.end.at(batch.kind) ==> head_key(arrays, after, rank) == draw_key(
                arrays.draws(batch.kind)[batch.end].order as int,
                rank,
            )
        }),
{
    lemma_rank_has_a_kind(rank);
    lemma_rank_has_a_kind(other);
}

/// The next batch begins with a primitive that stands before every other kind's.
proof fn lemma_next_head(arrays: Arrays, rest: RunModel, rank: int, other: int)
    requires
        next_batch(arrays, rest) is Some,
        0 <= rank < 8,
        0 <= other < 8,
        head_key(arrays, rest, other) < head_key(arrays, rest, rank),
    ensures
        ({
            let next = (next_batch(arrays, rest)->0).0;
            &&& next.kind != PrimitiveKind::of_rank(rank)
            &&& draw_key(arrays.draws(next.kind)[next.start].order as int, next.kind.rank())
                < head_key(arrays, rest, rank)
        }),
{
    lemma_first_rank(arrays, rest, 8);
    let first = first_rank(arrays, rest, 8);
    lemma_rank_has_a_kind(first);
    lemma_rank_has_a_kind(rank);
    assert(head_key(arrays, rest, first) <= head_key(arrays, rest, other));
}

proof fn lemma_first_of_batches(arrays: Arrays, run: RunModel)
    requires
        is_within(arrays, run),
        next_batch(arrays, run) is Some,
    ensures
        batches_of(arrays, run).len() > 0,
        batches_of(arrays, run)[0] == (next_batch(arrays, run)->0).0,
{
    lemma_next_batch(arrays, run);
    let (batch, after) = next_batch(arrays, run)->0;
    let all = batches_of(arrays, run);
    assert(all == seq![batch] + batches_of(arrays, after));
}

/// A batch is as long as it can be: it ends where the run does, or before a
/// primitive that is drawn with another texture or is clipped where the batch is
/// not, or because something of another kind, which the next batch begins with,
/// stands before the next primitive of its own.
pub proof fn batches_are_maximal(arrays: Arrays, run: RunModel, b: int)
    requires
        is_within(arrays, run),
        orders_are_finite(arrays, run),
        0 <= b < batches_of(arrays, run).len(),
    ensures
        ({
            let all = batches_of(arrays, run);
            let batch = all[b];
            let draws = arrays.draws(batch.kind);
            ||| batch.end == run.end.at(batch.kind)
            ||| draws[batch.end].texture != batch.texture
            ||| draws[batch.end].clipped != draws[batch.start].clipped
            ||| {
                &&& b + 1 < all.len()
                &&& all[b + 1].kind != batch.kind
                &&& draw_key(
                    arrays.draws(all[b + 1].kind)[all[b + 1].start].order as int,
                    all[b + 1].kind.rank(),
                ) < draw_key(draws[batch.end].order as int, batch.kind.rank())
            }
        }),
    decreases left_over(run),
{
    lemma_next_batch(arrays, run);
    lemma_rest_keeps(arrays, run);
    let (batch, after) = next_batch(arrays, run)->0;
    let all = batches_of(arrays, run);
    let rest = batches_of(arrays, after);
    assert(all == seq![batch] + rest);
    if b > 0 {
        assert(all[b] == rest[b - 1]);
        if b < rest.len() {
            assert(all[b + 1] == rest[b]);
        }
        batches_are_maximal(arrays, after, b - 1);
    } else {
        lemma_next_batch_is_maximal(arrays, run);
        if next_batch(arrays, after) is Some {
            lemma_first_of_batches(arrays, after);
            assert(all[1] == rest[0]);
        }
    }
}

/// What is drawn in an earlier batch stands before what is drawn in a later
/// one: by its order, and then by its kind.
pub proof fn batches_draw_in_order(arrays: Arrays, run: RunModel, b: int, c: int, i: int, j: int)
    requires
        is_within(arrays, run),
        run_is_in_order(arrays, run),
        0 <= b < c < batches_of(arrays, run).len(),
        batches_of(arrays, run)[b].start <= i < batches_of(arrays, run)[b].end,
        batches_of(arrays, run)[c].start <= j < batches_of(arrays, run)[c].end,
    ensures
        ({
            let (one, other) = (batches_of(arrays, run)[b].kind, batches_of(arrays, run)[c].kind);
            draw_key(arrays.draws(one)[i].order as int, one.rank()) <= draw_key(
                arrays.draws(other)[j].order as int,
                other.rank(),
            )
        }),
    decreases left_over(run),
{
    lemma_next_batch(arrays, run);
    lemma_rest_keeps(arrays, run);
    let (batch, after) = next_batch(arrays, run)->0;
    let all = batches_of(arrays, run);
    let rest = batches_of(arrays, after);
    assert(all == seq![batch] + rest);
    assert(all[c] == rest[c - 1]);
    if b == 0 {
        batches_stay_in_the_run(arrays, after, c - 1);
        let rank = first_rank(arrays, run, 8);
        let bound = least_but(arrays, run, rank, 8);
        lemma_first_rank(arrays, run, 8);
        lemma_least_but(arrays, run, rank, 8);
        lemma_rank_has_a_kind(rank);
        let one = batch.kind;
        let other = all[c].kind;
        lemma_kind_has_a_rank(other);
        let draws = arrays.draws(one);
        lemma_batch_end(draws, batch.start, batch.start + 1, run.end.at(one), bound, rank);
        assert(is_in_order(arrays.draws(other), run.start.at(other), run.end.at(other)));
        if one == other {
            assert(draws[i].order <= draws[j].order);
        } else {
            let others = arrays.draws(other);
            assert(head_key(arrays, run, other.rank()) == draw_key(
                others[run.start.at(other)].order as int,
                other.rank(),
            ));
            assert(others[run.start.at(other)].order <= others[j].order);
            if i > batch.start {
                assert(joins(draws, batch.start, i, bound, rank));
                assert(bound <= head_key(arrays, run, other.rank()));
            } else {
                assert(head_key(arrays, run, rank) <= head_key(arrays, run, other.rank()));
            }
        }
    } else {
        assert(all[b] == rest[b - 1]);
        batches_draw_in_order(arrays, after, b - 1, c - 1, i, j);
    }
}

impl PrimitiveBatch {
    /// The number of primitives, and the texture, in words.
    pub open spec fn words(self) -> Seq<char> {
        match self {
            PrimitiveBatch::Shadows(range) => batch_words("shadows ("@, range),
            PrimitiveBatch::Quads(range) => batch_words("quads ("@, range),
            PrimitiveBatch::Paths(range) => batch_words("paths ("@, range),
            PrimitiveBatch::Underlines(range) => batch_words("underlines ("@, range),
            PrimitiveBatch::MonochromeSprites { texture_id, range } => sprite_words(
                "monochrome sprites ("@,
                range,
                texture_id,
            ),
            PrimitiveBatch::SubpixelSprites { texture_id, range } => sprite_words(
                "subpixel sprites ("@,
                range,
                texture_id,
            ),
            PrimitiveBatch::PolychromeSprites { texture_id, range } => sprite_words(
                "polychrome sprites ("@,
                range,
                texture_id,
            ),
            PrimitiveBatch::Surfaces(range) => batch_words("surfaces ("@, range),
        }
    }

    /// What a renderer calls the batch in a capture: its kind, its length and
    /// its texture.
    pub fn label(&self) -> (r: String)
        ensures
            r@ == self.words(),
    {
        match self {
            PrimitiveBatch::Shadows(range) => batch_label("shadows (", range),
            PrimitiveBatch::Quads(range) => batch_label("quads (", range),
            PrimitiveBatch::Paths(range) => batch_label("paths (", range),
            PrimitiveBatch::Underlines(range) => batch_label("underlines (", range),
            PrimitiveBatch::MonochromeSprites { texture_id, range } => sprite_label(
                "monochrome sprites (",
                range,
                *texture_id,
            ),
            PrimitiveBatch::SubpixelSprites { texture_id, range } => sprite_label(
                "subpixel sprites (",
                range,
                *texture_id,
            ),
            PrimitiveBatch::PolychromeSprites { texture_id, range } => sprite_label(
                "polychrome sprites (",
                range,
                *texture_id,
            ),
            PrimitiveBatch::Surfaces(range) => batch_label("surfaces (", range),
        }
    }
}

/// The number of places in `range`.
pub open spec fn places(range: Range<usize>) -> nat {
    if range.start < range.end {
        (range.end - range.start) as nat
    } else {
        0
    }
}

pub open spec fn batch_words(kind: Seq<char>, range: Range<usize>) -> Seq<char> {
    kind + decimal(places(range)) + ")"@
}

pub open spec fn sprite_words(
    kind: Seq<char>,
    range: Range<usize>,
    texture_id: AtlasTextureId,
) -> Seq<char> {
    kind + decimal(places(range)) + ") on atlas "@ + decimal(texture_id.index as nat)
}

fn batch_label(kind: &str, range: &Range<usize>) -> (r: String)
    ensures
        r@ == batch_words(kind@, *range),
{
    let count: usize = if range.start < range.end {
        range.end - range.start
    } else {
        0
    };
    let mut label = kind.to_owned();
    label.append(text_of(count as u64).as_str());
    label.append(")");
    label
}

fn sprite_label(kind: &str, range: &Range<usize>, texture_id: AtlasTextureId) -> (r: String)
    ensures
        r@ == sprite_words(kind@, *range, texture_id),
{
    let count: usize = if range.start < range.end {
        range.end - range.start
    } else {
        0
    };
    let mut label = kind.to_owned();
    label.append(text_of(count as u64).as_str());
    label.append(") on atlas ");
    label.append(text_of(texture_id.index as u64).as_str());
    label
}

} // verus!
