//! What holds of every clip plan.

use crate::geometry::{DevicePixels, Size};
use crate::renderer::clip_plan::{
    atlas_offset_of, device_of, lemma_largest_level, lemma_levels_lie_in, lemma_placed_numbers,
    lemma_plan_shapes, lemma_reach, lemma_vertices_ascend, levels_of, mask_of, parent_offset_of,
    parents_come_first, plan_of, plan_of_shapes, planned_of, shape_of, shapes_of, viewport_is_sane,
    viewport_of, work_offset_of, LevelModel, MAX_CLIP_DEPTH,
};
use crate::renderer::extent::{touched, DeviceRect, Extent};
use crate::renderer::packing::{
    lemma_order_is_packable, lemma_placement, lemma_placements_len, packing, placed_tiles_are_apart,
    tile_order, tiles_are_apart, ATLAS_BOUND, ShapeModel,
};
use crate::renderer::flatten::polygons_of;
use crate::scene::model::ClipModel;
use vstd::prelude::*;

verus! {

/// Whether every pixel of `inner` is one of `outer`.
pub open spec fn lies_within(inner: DeviceRect, outer: DeviceRect) -> bool {
    &&& outer.x <= inner.x
    &&& outer.y <= inner.y
    &&& inner.right() <= outer.right()
    &&& inner.bottom() <= outer.bottom()
}

/// A clip reaches no further than the clip it was pushed inside, than its own
/// path, and than the content mask it was pushed under.
pub proof fn a_clip_reaches_no_further_than_its_parent(
    clips: Seq<ClipModel>,
    size: Size<DevicePixels>,
    i: int,
)
    requires
        parents_come_first(clips),
        viewport_is_sane(size),
        0 <= i < clips.len(),
        !shapes_of(clips, viewport_of(size), clips.len())[i].device.encloses_nothing(),
    ensures
        ({
            let shapes = shapes_of(clips, viewport_of(size), clips.len());
            let outer = if clips[i].parent.0 == 0 {
                viewport_of(size)
            } else {
                shapes[clips[i].parent.0 - 1].device
            };
            &&& lies_within(shapes[i].device, outer)
            &&& lies_within(shapes[i].device, device_of(touched(clips[i].path.bounds@)))
            &&& lies_within(shapes[i].device, device_of(touched(clips[i].visible)))
        }),
{
    let shapes = shapes_of(clips, viewport_of(size), clips.len());
    lemma_shape_is(clips, size, clips.len(), i);
    lemma_reach(clips, size, i);
}

/// A clip's shape is made of the shapes of the clips before it.
pub proof fn lemma_shape_is(clips: Seq<ClipModel>, size: Size<DevicePixels>, n: nat, i: int)
    requires
        parents_come_first(clips),
        0 <= i < n <= clips.len(),
    ensures
        shapes_of(clips, viewport_of(size), n).len() == n,
        shapes_of(clips, viewport_of(size), n)[i] == shape_of(
            clips[i],
            shapes_of(clips, viewport_of(size), n),
            viewport_of(size),
        ),
    decreases n,
{
    let all = shapes_of(clips, viewport_of(size), n);
    let earlier = shapes_of(clips, viewport_of(size), (n - 1) as nat);
    lemma_shapes_len(clips, size, (n - 1) as nat);
    assert(clips[i].parent.0 <= i);
    if i == n - 1 {
        if clips[i].parent.0 != 0 {
            assert(all[clips[i].parent.0 - 1] == earlier[clips[i].parent.0 - 1]);
        }
    } else {
        lemma_shape_is(clips, size, (n - 1) as nat, i);
        assert(all[i] == earlier[i]);
        if clips[i].parent.0 != 0 {
            assert(all[clips[i].parent.0 - 1] == earlier[clips[i].parent.0 - 1]);
        }
    }
}

proof fn lemma_shapes_len(clips: Seq<ClipModel>, size: Size<DevicePixels>, n: nat)
    requires
        n <= clips.len(),
    ensures
        shapes_of(clips, viewport_of(size), n).len() == n,
    decreases n,
{
    if n > 0 {
        lemma_shapes_len(clips, size, (n - 1) as nat);
    }
}

/// A path that encloses no area lets nothing through: its mask is an empty
/// rectangle, and is not sampled. A path that only nests too deep keeps the
/// rectangle that it can reach.
pub proof fn a_path_without_area_is_not_a_path_too_deep(
    clips: Seq<ClipModel>,
    size: Size<DevicePixels>,
    floor: Extent,
    i: int,
)
    requires
        parents_come_first(clips),
        viewport_is_sane(size),
        floor.width <= ATLAS_BOUND,
        floor.height <= ATLAS_BOUND,
        0 <= i < clips.len(),
    ensures
        ({
            let shapes = shapes_of(clips, viewport_of(size), clips.len());
            let mask = plan_of(clips, size, floor).masks[i + 1];
            &&& shapes[i].depth < MAX_CLIP_DEPTH && polygons_of(clips[i].path.segments).len() == 0
                ==> mask.sampled == 0 && mask.tile.is_empty()
            &&& shapes[i].depth >= MAX_CLIP_DEPTH ==> mask.sampled == 0 && mask.tile
                == shapes[i].device.in_units()
        }),
{
    let shapes = shapes_of(clips, viewport_of(size), clips.len());
    lemma_shape_is(clips, size, clips.len(), i);
    lemma_plan_shapes(clips, size, floor);
    let order = tile_order(shapes);
    let atlas = plan_of_shapes(shapes, floor).atlas;
    let placements = packing(shapes, order, atlas).placements;
    lemma_order_is_packable(shapes, order);
    lemma_placements_len(shapes, order, atlas);
    if placements[i] is Some {
        let k = lemma_placement(shapes, order, atlas, i);
    }
    assert(plan_of(clips, size, floor).masks[i + 1] == mask_of(shapes[i], placements[i]));
}

/// A nested clip reads its parent's coverage of the point that it covers: a
/// position in its own tile, moved by the parent's offset, is the parent's
/// atlas texel of the same device position.
pub proof fn nested_clips_read_the_same_point(
    shapes: Seq<ShapeModel>,
    placements: Seq<Option<(int, int)>>,
    levels: Seq<LevelModel>,
    i: int,
    x: int,
    y: int,
)
    requires
        placements[i] is Some,
        parent_offset_of(shapes, placements, levels, i) is Some,
    ensures
        ({
            let shape = shapes[i];
            let parent = shape.parent->0;
            let work = work_offset_of(shape, placements[i]->0, levels[shape.depth].extent);
            let above = atlas_offset_of(shapes[parent], placements[parent]->0);
            let offset = parent_offset_of(shapes, placements, levels, i)->0;
            &&& shape.parent is Some && placements[parent] is Some
            &&& x + work.0 + offset.0 == x + above.0
            &&& y + work.1 + offset.1 == y + above.1
        }),
{
}

/// Every tile of a plan lies within the atlas and within the attachment that
/// its level is drawn through, and its triangles are among the plan's.
pub proof fn planned_tiles_lie_where_they_are_drawn(
    clips: Seq<ClipModel>,
    size: Size<DevicePixels>,
    floor: Extent,
    i: int,
)
    requires
        parents_come_first(clips),
        viewport_is_sane(size),
        floor.width <= ATLAS_BOUND,
        floor.height <= ATLAS_BOUND,
        0 <= i < clips.len(),
        plan_of(clips, size, floor).clips[i] is Some,
    ensures
        ({
            let plan = plan_of(clips, size, floor);
            let clip = plan.clips[i]->0;
            &&& 0 <= clip.atlas.x && clip.atlas.right() <= plan.atlas.width
            &&& 0 <= clip.atlas.y && clip.atlas.bottom() <= plan.atlas.height
            &&& 0 <= clip.work.x && clip.work.right() <= plan.work.width
            &&& 0 <= clip.work.y && clip.work.bottom() <= plan.work.height
            &&& 0 <= clip.start <= clip.end <= plan.vertices.len()
        }),
{
    lemma_plan_shapes(clips, size, floor);
    let shapes = shapes_of(clips, viewport_of(size), clips.len());
    lemma_shapes_len(clips, size, clips.len());
    let plan = plan_of_shapes(shapes, floor);
    let order = tile_order(shapes);
    let placements = packing(shapes, order, plan.atlas).placements;
    let levels = levels_of(shapes, order, placements, order.len());
    lemma_order_is_packable(shapes, order);
    lemma_placements_len(shapes, order, plan.atlas);
    assert(plan.clips[i] == planned_of(shapes, placements, levels, i));
    lemma_placed_numbers(shapes, order, placements, levels, plan.atlas, i);
    let k = lemma_placement(shapes, order, plan.atlas, i);
    lemma_largest_level(levels, levels.len(), shapes[i].depth);
    lemma_levels_lie_in(shapes, floor);
    lemma_vertices_ascend(
        shapes,
        placements,
        levels,
        i as nat,
        (i + 1) as nat,
    );
    lemma_vertices_ascend(
        shapes,
        placements,
        levels,
        (i + 1) as nat,
        shapes.len(),
    );
}

/// No two tiles of a plan share a pixel of the atlas.
pub proof fn planned_tiles_are_apart(
    clips: Seq<ClipModel>,
    size: Size<DevicePixels>,
    floor: Extent,
    i: int,
    j: int,
)
    requires
        parents_come_first(clips),
        viewport_is_sane(size),
        floor.width <= ATLAS_BOUND,
        floor.height <= ATLAS_BOUND,
        0 <= i < j < clips.len(),
        plan_of(clips, size, floor).clips[i] is Some,
        plan_of(clips, size, floor).clips[j] is Some,
    ensures
        tiles_are_apart(
            (plan_of(clips, size, floor).clips[i]->0).atlas,
            (plan_of(clips, size, floor).clips[j]->0).atlas,
        ),
{
    lemma_plan_shapes(clips, size, floor);
    let shapes = shapes_of(clips, viewport_of(size), clips.len());
    lemma_shapes_len(clips, size, clips.len());
    let plan = plan_of_shapes(shapes, floor);
    let order = tile_order(shapes);
    let placements = packing(shapes, order, plan.atlas).placements;
    let levels = levels_of(shapes, order, placements, order.len());
    lemma_order_is_packable(shapes, order);
    lemma_placements_len(shapes, order, plan.atlas);
    assert(plan.clips[i] == planned_of(shapes, placements, levels, i));
    assert(plan.clips[j] == planned_of(shapes, placements, levels, j));
    placed_tiles_are_apart(shapes, order, plan.atlas, i, j);
}

} // verus!
