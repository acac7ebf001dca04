//! What finishing a scene does to its records.

use crate::geometry::ScaledPixels;
use crate::scene::batch::draw_key;
use crate::scene::blend::{ComposeMode, MixMode};
use crate::scene::model::{ranking, sorted_in, SceneModel};
use crate::scene::ordering::{
    lemma_runs_sorted_fields, lemma_sorted_in, lemma_stretches_follow, lemma_stretches_sorted,
    stretches,
};
use crate::scene::path::PathModel;
use crate::scene::primitive::{
    rank_of, DrawnSpec, MonochromeSprite, PaintSurface, PolychromeSprite, Quad, Shadow,
    SubpixelSprite, Underline,
};
use crate::scene::segment::PrimitiveKind;
use crate::scene::sort::{keyed, stable_sort, stable_sort_exists};
use crate::scene::soundness::lemma_run_closed_wf;
use vstd::prelude::*;

verus! {

/// Finishing a scene loses no record and adds none, of any kind.
pub proof fn finishing_keeps_every_record(s: SceneModel)
    requires
        s.wf(),
    ensures
        ({
            let now = s.finished().arrays;
            &&& now.shadows.to_multiset() == s.arrays.shadows.to_multiset()
            &&& now.quads.to_multiset() == s.arrays.quads.to_multiset()
            &&& now.paths.to_multiset() == s.arrays.paths.to_multiset()
            &&& now.underlines.to_multiset() == s.arrays.underlines.to_multiset()
            &&& now.monochrome_sprites.to_multiset() == s.arrays.monochrome_sprites.to_multiset()
            &&& now.subpixel_sprites.to_multiset() == s.arrays.subpixel_sprites.to_multiset()
            &&& now.polychrome_sprites.to_multiset() == s.arrays.polychrome_sprites.to_multiset()
            &&& now.surfaces.to_multiset() == s.arrays.surfaces.to_multiset()
        }),
        s.finished().groups == s.groups,
        s.finished().clips == s.clips,
        s.finished().run_closed().segments == s.finished().segments,
{
    lemma_run_closed_wf(s);
    reveal(SceneModel::wf);
    let c = s.run_closed();
    let runs = c.segments;
    let n = runs.len();
    lemma_runs_sorted_fields(c.arrays, runs, n);
    lemma_stretches_follow(runs, PrimitiveKind::Shadow, c.arrays.marks());
    lemma_stretches_sorted(c.arrays.shadows, stretches(runs, PrimitiveKind::Shadow), n);
    lemma_stretches_follow(runs, PrimitiveKind::Quad, c.arrays.marks());
    lemma_stretches_sorted(c.arrays.quads, stretches(runs, PrimitiveKind::Quad), n);
    lemma_stretches_follow(runs, PrimitiveKind::Path, c.arrays.marks());
    lemma_stretches_sorted(c.arrays.paths, stretches(runs, PrimitiveKind::Path), n);
    lemma_stretches_follow(runs, PrimitiveKind::Underline, c.arrays.marks());
    lemma_stretches_sorted(c.arrays.underlines, stretches(runs, PrimitiveKind::Underline), n);
    lemma_stretches_follow(runs, PrimitiveKind::MonochromeSprite, c.arrays.marks());
    lemma_stretches_sorted(
        c.arrays.monochrome_sprites,
        stretches(runs, PrimitiveKind::MonochromeSprite),
        n,
    );
    lemma_stretches_follow(runs, PrimitiveKind::SubpixelSprite, c.arrays.marks());
    lemma_stretches_sorted(
        c.arrays.subpixel_sprites,
        stretches(runs, PrimitiveKind::SubpixelSprite),
        n,
    );
    lemma_stretches_follow(runs, PrimitiveKind::PolychromeSprite, c.arrays.marks());
    lemma_stretches_sorted(
        c.arrays.polychrome_sprites,
        stretches(runs, PrimitiveKind::PolychromeSprite),
        n,
    );
    lemma_stretches_follow(runs, PrimitiveKind::Surface, c.arrays.marks());
    lemma_stretches_sorted(c.arrays.surfaces, stretches(runs, PrimitiveKind::Surface), n);
}

proof fn lemma_filters_alike<T>(items: Seq<T>, a: spec_fn(T) -> bool, b: spec_fn(T) -> bool)
    requires
        forall|item: T| #[trigger] a(item) == b(item),
    ensures
        items.filter(a) == items.filter(b),
    decreases items.len(),
{
    reveal(Seq::filter);
    if items.len() > 0 {
        lemma_filters_alike(items.drop_last(), a, b);
        assert(a(items.last()) == b(items.last()));
    }
}

/// A run is put in order by its records' orders, those of one order by their
/// tiles, and those of one order and one tile stay in the order in which they
/// were painted.
pub proof fn runs_are_sorted_by_order_and_tile<T: DrawnSpec>(
    items: Seq<T>,
    start: int,
    end: int,
    order: u32,
    tile: u32,
)
    requires
        0 <= start <= end <= items.len(),
    ensures
        ({
            let after = sorted_in(items, start, end);
            let same = |item: T| item.draw_order() == order && item.draw_tile() == tile;
            &&& after.len() == items.len()
            &&& after.take(start) == items.take(start)
            &&& after.skip(end) == items.skip(end)
            &&& forall|i: int, j: int|
                #![trigger after[i], after[j]]
                start <= i < j < end ==> after[i].draw_order() < after[j].draw_order()
                    || after[i].draw_order() == after[j].draw_order() && after[i].draw_tile()
                    <= after[j].draw_tile()
            &&& after.subrange(start, end).filter(same) == items.subrange(start, end).filter(same)
        }),
{
    let before = items.subrange(start, end);
    let run = stable_sort(before, ranking::<T>());
    let after = sorted_in(items, start, end);
    let same = |item: T| item.draw_order() == order && item.draw_tile() == tile;
    stable_sort_exists(before, ranking::<T>());
    lemma_sorted_in(items, start, end);
    assert(run.len() == before.len());
    assert(after.subrange(start, end) =~= run);
    assert(after.take(start) =~= items.take(start));
    assert(after.skip(end) =~= items.skip(end));
    let k = order * 0x1_0000_0000 + tile;
    let keyed_so = keyed(ranking::<T>(), k);
    assert forall|item: T| #[trigger] keyed_so(item) == same(item) by {
        assert(ranking::<T>()(item) == rank_of(item));
    }
    lemma_filters_alike(run, keyed_so, same);
    lemma_filters_alike(before, keyed_so, same);
    assert(run.filter(keyed_so) == before.filter(keyed_so));
    assert forall|i: int, j: int|
        #![trigger after[i], after[j]]
        start <= i < j < end implies after[i].draw_order() < after[j].draw_order()
        || after[i].draw_order() == after[j].draw_order() && after[i].draw_tile()
        <= after[j].draw_tile() by {
        assert(after[i] == run[i - start] && after[j] == run[j - start]);
        assert(ranking::<T>()(run[i - start]) <= ranking::<T>()(run[j - start]));
        assert(rank_of(after[i]) <= rank_of(after[j]));
    }
}

/// A group is folded away only where it asks for nothing but a fade: it is mixed
/// and laid down plainly, has no filter of its own or of what is behind it, no
/// group in it was kept, and it holds neither a surface nor text that covers
/// each colour channel by itself.
pub proof fn only_a_fade_is_folded(s: SceneModel)
    requires
        s.group_folds(),
    ensures
        ({
            let group = s.groups[s.open.last().id as int];
            &&& group.blend.mix == MixMode::Normal
            &&& group.blend.compose == ComposeMode::SrcOver
            &&& group.filter is None
            &&& group.backdrop_filter is None
            &&& !s.open.last().has_surviving_child
            &&& s.arrays.surfaces.len() <= s.open.last().content.surfaces
            &&& s.arrays.subpixel_sprites.len() <= s.open.last().content.subpixel_sprites
        }),
{
}

/// Sprites are sorted by the numbers of their tiles, and what has no tile as if
/// they all had the same.
pub proof fn sprites_are_sorted_by_their_tiles(
    glyph: MonochromeSprite,
    subpixel: SubpixelSprite,
    image: PolychromeSprite,
    shadow: Shadow,
    quad: Quad,
    path: PathModel<ScaledPixels>,
    underline: Underline,
    surface: PaintSurface,
)
    ensures
        glyph.draw_tile() == glyph.tile.tile_id.0 && glyph.draw_order() == glyph.order,
        subpixel.draw_tile() == subpixel.tile.tile_id.0 && subpixel.draw_order() == subpixel.order,
        image.draw_tile() == image.tile.tile_id.0 && image.draw_order() == image.order,
        shadow.draw_tile() == 0 && shadow.draw_order() == shadow.order,
        quad.draw_tile() == 0 && quad.draw_order() == quad.order,
        path.draw_tile() == 0 && path.draw_order() == path.order,
        underline.draw_tile() == 0 && underline.draw_order() == underline.order,
        surface.draw_tile() == 0 && surface.draw_order() == surface.order,
{
}

/// Of one draw order the kinds are drawn one after the other: shadows, quads,
/// paths, underlines, the three kinds of sprites, and surfaces on top.
pub proof fn kinds_are_drawn_from_shadows_up(order: int)
    ensures
        draw_key(order, PrimitiveKind::Shadow.rank()) < draw_key(order, PrimitiveKind::Quad.rank())
            < draw_key(order, PrimitiveKind::Path.rank()) < draw_key(
            order,
            PrimitiveKind::Underline.rank(),
        ) < draw_key(order, PrimitiveKind::MonochromeSprite.rank()) < draw_key(
            order,
            PrimitiveKind::SubpixelSprite.rank(),
        ) < draw_key(order, PrimitiveKind::PolychromeSprite.rank()) < draw_key(
            order,
            PrimitiveKind::Surface.rank(),
        ) < draw_key(order + 1, PrimitiveKind::Shadow.rank()),
{
}

} // verus!
