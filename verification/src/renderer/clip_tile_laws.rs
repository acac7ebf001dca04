//! Which pixels groups and clips are given, and what is drawn for a clip there.

use crate::clip_path::FillRule;
use crate::fixed::ONE;
use crate::geometry::{DevicePixels, Place, Rect, Size};
use crate::renderer::clip_laws::lemma_shape_is;
use crate::renderer::clip_masks::{clip_draws, MaskCommand};
use crate::renderer::clip_plan::{
    device_of, fan_of, fans_of, is_reachable, lemma_placed_numbers, lemma_plan_shapes, lemma_shape,
    lemma_touched_reachable, levels_of, meet, moved, parents_come_first, plan_of, plan_of_shapes,
    planned_of, shapes_of, vertices_of, viewport_is_sane, viewport_of, work_offset_of, LevelModel,
    MAX_CLIP_DEPTH,
};
use crate::renderer::extent::{
    intersection_is_what_both_hold, limited, touched, DeviceRect, Extent, CLIP_COORDINATE_LIMIT,
};
use crate::renderer::flatten::polygons_of;
use crate::renderer::frame::{backdrop_rect, group_rect, rect_of, FrameEnvironment, IsolatedModel};
use crate::renderer::packing::{
    lemma_order_is_packable, lemma_placement, lemma_placements_len, packing, packing_rank,
    tile_order, wanting, ShapeModel, ATLAS_BOUND,
};
use crate::scene::filter::FilterModel;
use crate::scene::group::GroupModel;
use crate::scene::model::ClipModel;
use crate::scene::path_laws::{area_under, cross};
use crate::scene::sort::{is_sorted, stable_sort, stable_sort_exists};
use vstd::prelude::*;

verus! {

/// Whether a box has a point in the pixel whose corner is `(x, y)`, or reaches
/// to both sides of it.
pub open spec fn touches(bounds: Rect, x: int, y: int) -> bool {
    &&& bounds.x < (x + 1) * 65536
    &&& x * 65536 < bounds.right()
    &&& bounds.y < (y + 1) * 65536
    &&& y * 65536 < bounds.bottom()
}

/// Whether a box is near enough to the origin to be taken seriously.
pub open spec fn is_close(bounds: Rect) -> bool {
    &&& -0x100_0000_0000 <= bounds.x <= 0x100_0000_0000
    &&& -0x100_0000_0000 <= bounds.y <= 0x100_0000_0000
    &&& -0x100_0000_0000 <= bounds.right() <= 0x100_0000_0000
    &&& -0x100_0000_0000 <= bounds.bottom() <= 0x100_0000_0000
}

proof fn lemma_touches(bounds: Rect, x: int, y: int)
    requires
        is_close(bounds),
    ensures
        device_of(touched(bounds)).holds(x, y) == touches(bounds, x, y),
        is_reachable(device_of(touched(bounds))),
{
    lemma_touched_reachable(bounds);
    assert(CLIP_COORDINATE_LIMIT * ONE == 0x100_0000_0000) by (nonlinear_arith)
        requires
            CLIP_COORDINATE_LIMIT == 16_777_216,
            ONE == 65536,
    ;
    assert(limited(bounds.x) == bounds.x && limited(bounds.right()) == bounds.right());
    assert(limited(bounds.y) == bounds.y && limited(bounds.bottom()) == bounds.bottom());
}

proof fn lemma_meets(a: DeviceRect, b: DeviceRect, x: int, y: int)
    requires
        is_reachable(a),
        -CLIP_COORDINATE_LIMIT <= b.x <= CLIP_COORDINATE_LIMIT,
        -CLIP_COORDINATE_LIMIT <= b.y <= CLIP_COORDINATE_LIMIT,
        -0x4000_0000 <= b.right() <= i32::MAX,
        -0x4000_0000 <= b.bottom() <= i32::MAX,
    ensures
        meet(a, b).holds(x, y) == (a.holds(x, y) && b.holds(x, y)),
        is_reachable(meet(a, b)),
{
    assert(meet(a, b).rect() == a.common(b));
    intersection_is_what_both_hold(a, b, meet(a, b), x, y);
}

/// A group covers exactly the pixels of the window that its box touches.
pub proof fn groups_cover_the_pixels_they_touch(
    spec: GroupModel,
    viewport: Size<DevicePixels>,
    x: int,
    y: int,
)
    requires
        is_close(spec.bounds),
        viewport_is_sane(viewport),
    ensures
        group_rect(spec, viewport).holds(x, y) == (touches(spec.bounds, x, y) && 0 <= x
            < viewport.width.0 && 0 <= y < viewport.height.0),
{
    lemma_touches(spec.bounds, x, y);
    lemma_meets(device_of(touched(spec.bounds)), viewport_of(viewport), x, y);
}

/// A backdrop filter works from exactly those pixels of the window, of the
/// target underneath, that its group's pixels reach through it.
pub proof fn backdrops_cover_the_pixels_they_reach(
    group: IsolatedModel,
    filter: FilterModel,
    env: FrameEnvironment,
    x: int,
    y: int,
)
    requires
        group.wf(),
        is_close(filter.reach(group.rect.in_units())),
        viewport_is_sane(env.viewport),
    ensures
        backdrop_rect(group, filter, env).holds(x, y) == (touches(
            filter.reach(group.rect.in_units()),
            x,
            y,
        ) && rect_of(group.parent.render_target).holds(x, y) && 0 <= x < env.viewport.width.0 && 0
            <= y < env.viewport.height.0),
{
    let reached = filter.reach(group.rect.in_units());
    let parent = rect_of(group.parent.render_target);
    lemma_touches(reached, x, y);
    lemma_meets(device_of(touched(reached)), parent, x, y);
    lemma_meets(
        meet(device_of(touched(reached)), parent),
        viewport_of(env.viewport),
        x,
        y,
    );
}

/// A clip that has an area can reach exactly the pixels that its path's box and
/// what could be seen of it both touch, within the clip around it, or the window
/// where there is none; and one without an area reaches none.
pub proof fn clips_reach_the_pixels_they_touch(
    clips: Seq<ClipModel>,
    size: Size<DevicePixels>,
    i: int,
    x: int,
    y: int,
)
    requires
        parents_come_first(clips),
        viewport_is_sane(size),
        0 <= i < clips.len(),
        is_close(clips[i].path.bounds@),
        is_close(clips[i].visible),
    ensures
        ({
            let shapes = shapes_of(clips, viewport_of(size), clips.len());
            let around = if clips[i].parent.0 == 0 {
                0 <= x < size.width.0 && 0 <= y < size.height.0
            } else {
                shapes[clips[i].parent.0 - 1].device.holds(x, y)
            };
            let reached = touches(clips[i].path.bounds@, x, y) && touches(clips[i].visible, x, y)
                && around;
            &&& shapes[i].depth >= MAX_CLIP_DEPTH || polygons_of(clips[i].path.segments).len() > 0
                ==> shapes[i].device.holds(x, y) == reached
            &&& shapes[i].depth < MAX_CLIP_DEPTH && polygons_of(clips[i].path.segments).len() == 0
                ==> !shapes[i].device.holds(x, y)
            &&& shapes[i].depth == if clips[i].parent.0 == 0 {
                0
            } else {
                shapes[clips[i].parent.0 - 1].depth + 1
            }
            &&& shapes[i].fill_rule == clips[i].path.fill_rule
        }),
{
    let shapes = shapes_of(clips, viewport_of(size), clips.len());
    let clip = clips[i];
    lemma_shape_is(clips, size, clips.len(), i);
    lemma_plan_shapes(clips, size, Extent::zero());
    assert(clip.parent.0 <= i);
    let outer = if clip.parent.0 == 0 {
        viewport_of(size)
    } else {
        shapes[clip.parent.0 - 1].device
    };
    if clip.parent.0 != 0 {
        lemma_shape(shapes, clip.parent.0 - 1);
    }
    let path = device_of(touched(clip.path.bounds@));
    let seen = device_of(touched(clip.visible));
    lemma_touches(clip.path.bounds@, x, y);
    lemma_touches(clip.visible, x, y);
    lemma_meets(path, seen, x, y);
    lemma_meets(meet(path, seen), outer, x, y);
}

/// A clip's mask reads its own tile: a pixel that the clip can reach is found in
/// the atlas as far from the corner of the clip's tile as it is from the corner
/// of what the clip can reach; and the tile is drawn as far from the corner of
/// its level. No clip at all lets everything through.
pub proof fn masks_read_their_own_tiles(
    clips: Seq<ClipModel>,
    size: Size<DevicePixels>,
    floor: Extent,
    i: int,
    x: int,
    y: int,
)
    requires
        parents_come_first(clips),
        viewport_is_sane(size),
        floor.width <= ATLAS_BOUND,
        floor.height <= ATLAS_BOUND,
        0 <= i < clips.len(),
        shapes_of(clips, viewport_of(size), clips.len())[i].device.holds(x, y),
    ensures
        ({
            let plan = plan_of(clips, size, floor);
            let shape = shapes_of(clips, viewport_of(size), clips.len())[i];
            let mask = plan.masks[i + 1];
            &&& plan.masks.len() == clips.len() + 1
            &&& plan.clips.len() == clips.len()
            &&& mask.tile.x == shape.device.x * 65536
            &&& mask.tile.y == shape.device.y * 65536
            &&& mask.tile.width == shape.device.width * 65536
            &&& mask.tile.height == shape.device.height * 65536
            &&& plan.clips[i] is None ==> mask.sampled == 0
            &&& plan.clips[i] matches Some(planned) ==> {
                let (across, down) = (x + mask.atlas_offset.0, y + mask.atlas_offset.1);
                &&& mask.sampled == 1
                &&& planned.atlas.holds(across, down)
                &&& across - planned.atlas.x == x - shape.device.x
                &&& down - planned.atlas.y == y - shape.device.y
                &&& planned.fill_rule == clips[i].path.fill_rule
                &&& planned.cover_tile.x == planned.work.x * 65536
                &&& planned.cover_tile.y == planned.work.y * 65536
                &&& planned.atlas.x - planned.work.x == plan.levels[shape.depth].extent.x
                &&& planned.atlas.y - planned.work.y == plan.levels[shape.depth].extent.y
            }
        }),
{
    lemma_plan_shapes(clips, size, floor);
    lemma_shape_is(clips, size, clips.len(), i);
    let shapes = shapes_of(clips, viewport_of(size), clips.len());
    let plan = plan_of_shapes(shapes, floor);
    let order = tile_order(shapes);
    let placements = packing(shapes, order, plan.atlas).placements;
    let levels = levels_of(shapes, order, placements, order.len());
    lemma_order_is_packable(shapes, order);
    lemma_placements_len(shapes, order, plan.atlas);
    lemma_shape(shapes, i);
    assert(plan.clips[i] == planned_of(shapes, placements, levels, i));
    if placements[i] is Some {
        lemma_placed_numbers(shapes, order, placements, levels, plan.atlas, i);
        let k = lemma_placement(shapes, order, plan.atlas, i);
    }
}

/// Twice the area of triangles, counted by the way round.
pub open spec fn area_of(corners: Seq<Place>) -> int
    decreases corners.len(),
{
    if corners.len() < 3 {
        0
    } else {
        let k = corners.len();
        let (a, b, c) = (corners[k - 3], corners[k - 2], corners[k - 1]);
        area_of(corners.take(k - 3)) + (b.x - a.x) * (c.y - a.y) - (b.y - a.y) * (c.x - a.x)
    }
}

/// Whether a place stays within range when it is moved by an offset.
pub open spec fn can_be_moved(at: Place, offset: (int, int)) -> bool {
    &&& i64::MIN <= at.x + offset.0 * ONE <= i64::MAX
    &&& i64::MIN <= at.y + offset.1 * ONE <= i64::MAX
}

/// The triangles that are drawn for a contour cover its area, the last corner
/// joined to the first, whichever way round it goes and wherever its tile is.
pub proof fn fans_cover_their_contour(contour: Seq<Place>, offset: (int, int), n: nat)
    requires
        n + 2 <= contour.len(),
        forall|i: int| 0 <= i < contour.len() ==> can_be_moved(#[trigger] contour[i], offset),
    ensures
        fan_of(contour, offset, n).len() == 3 * n,
        area_of(fan_of(contour, offset, n)) == area_under(contour.take(n as int + 2)) + cross(
            contour[n as int + 1],
            contour[0],
        ),
    decreases n,
{
    let all = contour.take(n as int + 2);
    let (ax, ay) = (contour[0].x, contour[0].y);
    let (cx, cy) = (contour[n as int + 1].x, contour[n as int + 1].y);
    assert(can_be_moved(contour[0], offset));
    assert(can_be_moved(contour[n as int + 1], offset));
    assert(all.drop_last() =~= contour.take(n as int + 1));
    if n == 0 {
        assert(area_under(all.drop_last()) == 0);
        assert(all[0] == contour[0] && all.last() == contour[1]);
        assert(ax * cy == cy * ax && ay * cx == cx * ay) by (nonlinear_arith);
    } else {
        fans_cover_their_contour(contour, offset, (n - 1) as nat);
        let before = fan_of(contour, offset, (n - 1) as nat);
        let after = fan_of(contour, offset, n);
        assert(after.take(after.len() - 3) =~= before);
        assert(can_be_moved(contour[n as int], offset));
        let (bx, by) = (contour[n as int].x, contour[n as int].y);
        assert(contour.take((n - 1) + 2) =~= contour.take(n as int + 1));
        assert(all[all.len() - 2] == contour[n as int]);
        assert((bx - ax) * (cy - ay) == bx * cy - bx * ay - ax * cy + ax * ay) by (nonlinear_arith);
        assert((by - ay) * (cx - ax) == by * cx - by * ax - ay * cx + ay * ax) by (nonlinear_arith);
        assert(ax * ay == ay * ax && ax * cy == cy * ax && ay * cx == cx * ay && ax * by == by * ax
            && ay * bx == bx * ay) by (nonlinear_arith);
        let a = moved(contour[0], offset);
        let b = moved(contour[n as int], offset);
        let c = moved(contour[n as int + 1], offset);
        assert(b.x - a.x == bx - ax && b.y - a.y == by - ay);
        assert(c.x - a.x == cx - ax && c.y - a.y == cy - ay);
    }
}

proof fn lemma_vertices_stay(
    shapes: Seq<ShapeModel>,
    placements: Seq<Option<(int, int)>>,
    levels: Seq<LevelModel>,
    n: nat,
    m: nat,
)
    requires
        n <= m,
    ensures
        vertices_of(shapes, placements, levels, n).len() <= vertices_of(
            shapes,
            placements,
            levels,
            m,
        ).len(),
        forall|k: int|
            0 <= k < vertices_of(shapes, placements, levels, n).len() ==> #[trigger] vertices_of(
                shapes,
                placements,
                levels,
                m,
            )[k] == vertices_of(shapes, placements, levels, n)[k],
    decreases m,
{
    if n < m {
        lemma_vertices_stay(shapes, placements, levels, n, (m - 1) as nat);
        let before = vertices_of(shapes, placements, levels, (m - 1) as nat);
        let after = vertices_of(shapes, placements, levels, m);
        assert forall|k: int|
            0 <= k < vertices_of(shapes, placements, levels, n).len() implies #[trigger] after[k]
            == vertices_of(shapes, placements, levels, n)[k] by {
            assert(after[k] == before[k]);
        }
    }
}

/// The triangles that are drawn for a clip are those of its own contours, moved
/// as far as its tile is from where the clip is in the window; they are counted
/// into the stencil inside its tile by its own rule, and then the tile is
/// covered.
pub proof fn clips_are_drawn_from_their_own_triangles(
    clips: Seq<ClipModel>,
    size: Size<DevicePixels>,
    floor: Extent,
    i: int,
)
    requires
        parents_come_first(clips),
        viewport_is_sane(size),
        floor.width <= ATLAS_BOUND,
        floor.height <= ATLAS_BOUND,
        0 <= i < clips.len(),
        clips.len() <= usize::MAX,
        plan_of(clips, size, floor).clips[i] is Some,
        plan_of(clips, size, floor).vertices.len() <= usize::MAX,
    ensures
        ({
            let plan = plan_of(clips, size, floor);
            let planned = plan.clips[i]->0;
            let shape = shapes_of(clips, viewport_of(size), clips.len())[i];
            let contours = polygons_of(clips[i].path.segments);
            let offset = (planned.work.x - shape.device.x, planned.work.y - shape.device.y);
            let draws = clip_draws(plan.clips, i);
            let even_odd = clips[i].path.fill_rule == FillRule::EvenOdd;
            &&& 0 <= planned.start <= planned.end <= plan.vertices.len()
            &&& plan.vertices.subrange(planned.start, planned.end) == fans_of(
                contours,
                offset,
                contours.len(),
            )
            &&& draws.len() == if planned.start < planned.end {
                2nat
            } else {
                1
            }
            &&& draws.last() == (MaskCommand::Cover {
                scissor: planned.work,
                even_odd,
                clip: i as usize,
            })
            &&& planned.start < planned.end ==> (draws[0] matches MaskCommand::Stencil {
                scissor,
                even_odd: rule,
                start,
                count,
            } && scissor == planned.work && rule == even_odd && start == planned.start && start
                + count == planned.end)
        }),
{
    lemma_plan_shapes(clips, size, floor);
    lemma_shape_is(clips, size, clips.len(), i);
    let shapes = shapes_of(clips, viewport_of(size), clips.len());
    let plan = plan_of_shapes(shapes, floor);
    let order = tile_order(shapes);
    let placements = packing(shapes, order, plan.atlas).placements;
    let levels = levels_of(shapes, order, placements, order.len());
    lemma_order_is_packable(shapes, order);
    lemma_placements_len(shapes, order, plan.atlas);
    lemma_shape(shapes, i);
    assert(plan.clips[i] == planned_of(shapes, placements, levels, i));
    lemma_placed_numbers(shapes, order, placements, levels, plan.atlas, i);
    let k = lemma_placement(shapes, order, plan.atlas, i);
    let planned = plan.clips[i]->0;
    let before = vertices_of(shapes, placements, levels, i as nat);
    let through = vertices_of(shapes, placements, levels, (i + 1) as nat);
    let fans = fans_of(
        shapes[i].contours,
        work_offset_of(shapes[i], placements[i]->0, levels[shapes[i].depth].extent),
        shapes[i].contours.len(),
    );
    assert(through == before + fans);
    lemma_vertices_stay(shapes, placements, levels, (i + 1) as nat, shapes.len());
    assert(plan.vertices.subrange(planned.start, planned.end) =~= fans);
}

/// Tiles are packed depth by depth, and those of one depth tallest first.
pub proof fn tiles_are_packed_tallest_first(shapes: Seq<ShapeModel>, k: int, l: int)
    requires
        0 <= k < l < tile_order(shapes).len(),
    ensures
        ({
            let one = shapes[tile_order(shapes)[k]];
            let other = shapes[tile_order(shapes)[l]];
            one.depth < other.depth || one.depth == other.depth && one.device.height
                >= other.device.height
        }),
{
    let listed = wanting(shapes, shapes.len());
    let key = |index: int|
        packing_rank(shapes[index].depth, shapes[index].device.height as int);
    stable_sort_exists(listed, key);
    let order = tile_order(shapes);
    assert(order == stable_sort(listed, key));
    assert(is_sorted(order, key));
    assert(key(order[k]) <= key(order[l]));
}

} // verus!
