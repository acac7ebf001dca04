//! Where every clip path of a scene is rasterized to.

use crate::clip_path::FillRule;
use crate::fixed::{max, plus, saturate, ONE};
use crate::geometry::{Bounds, DevicePixels, Place, Point, Rect, ScaledPixels, Size};
use crate::renderer::extent::{
    covering_rect, fits_i32, limited, touched, CLIP_COORDINATE_LIMIT, CLIP_TEXTURE_QUANTUM,
    DeviceRect, Extent,
};
use crate::renderer::flatten::{
    contours_view, flatten_clip_path, places, polygons_of,
};
use crate::renderer::packing::{
    as_ints, atlas_cap, atlas_is_sane, first_atlas, least_atlas, lemma_first_atlas,
    lemma_grown_atlas, lemma_order_holds, lemma_order_is_packable, lemma_order_member,
    lemma_placement, lemma_placements_len, order_holds, pack_clip_tiles, packing, packing_order,
    placements_view, shapes_view, smallest_atlas, tile_of, tile_order, ATLAS_BOUND, ClipShape,
    ShapeModel,
};
use crate::scene::model::ClipModel;
use crate::scene::recording::{clips_view, Scene};
use core::ops::Range;
use vstd::prelude::*;

verus! {

/// How deep clip paths nest before the innermost ones are clipped to their
/// rectangles instead.
pub const MAX_CLIP_DEPTH: usize = 8;

/// A rectangle of these numbers.
pub open spec fn device_of(r: Rect) -> DeviceRect {
    DeviceRect {
        x: r.x as i32,
        y: r.y as i32,
        width: r.width as i32,
        height: r.height as i32,
    }
}

/// What lies in both rectangles.
pub open spec fn meet(a: DeviceRect, b: DeviceRect) -> DeviceRect {
    device_of(a.common(b))
}

pub open spec fn viewport_of(size: Size<DevicePixels>) -> DeviceRect {
    DeviceRect { x: 0, y: 0, width: size.width.0, height: size.height.0 }
}

/// The part of the window that a clip can reach, inside `outer`.
pub open spec fn reach_of(clip: ClipModel, outer: DeviceRect) -> DeviceRect {
    meet(meet(device_of(touched(clip.path.bounds@)), device_of(touched(clip.visible))), outer)
}

/// A clip's shape, where the clips before it have the shapes `earlier`.
pub open spec fn shape_of(
    clip: ClipModel,
    earlier: Seq<ShapeModel>,
    viewport: DeviceRect,
) -> ShapeModel {
    let parent: Option<int> = if clip.parent.0 == 0 {
        None
    } else {
        Some(clip.parent.0 - 1)
    };
    let depth = match parent {
        None => 0,
        Some(parent) => earlier[parent].depth + 1,
    };
    let outer = match parent {
        None => viewport,
        Some(parent) => earlier[parent].device,
    };
    let reach = reach_of(clip, outer);
    let wants_mask = depth < MAX_CLIP_DEPTH;
    let contours = if wants_mask && !reach.encloses_nothing() {
        polygons_of(clip.path.segments)
    } else {
        Seq::empty()
    };
    ShapeModel {
        contours,
        device: if wants_mask && contours.len() == 0 {
            DeviceRect::nothing()
        } else {
            reach
        },
        fill_rule: clip.path.fill_rule,
        parent,
        depth,
        wants_mask,
    }
}

/// The shapes of the first `n` clips.
pub open spec fn shapes_of(clips: Seq<ClipModel>, viewport: DeviceRect, n: nat) -> Seq<ShapeModel>
    decreases n,
{
    if n == 0 {
        Seq::empty()
    } else {
        let earlier = shapes_of(clips, viewport, (n - 1) as nat);
        earlier.push(shape_of(clips[n - 1], earlier, viewport))
    }
}

/// How many of the first `n` clips nest too deep to be given a mask.
pub open spec fn too_deep_of(shapes: Seq<ShapeModel>, n: nat) -> nat
    decreases n,
{
    if n == 0 {
        0
    } else {
        too_deep_of(shapes, (n - 1) as nat) + if shapes[n - 1].wants_mask {
            0nat
        } else {
            1
        }
    }
}

/// One nesting depth: the clips at it that got a tile, in packing order, and the
/// atlas rectangle that their tiles span.
#[verifier::ext_equal]
pub struct LevelModel {
    pub clips: Seq<int>,
    pub extent: DeviceRect,
}

pub open spec fn no_level() -> LevelModel {
    LevelModel { clips: Seq::empty(), extent: DeviceRect::nothing() }
}

/// The levels, with empty ones added until there are `n`.
pub open spec fn padded(levels: Seq<LevelModel>, n: int) -> Seq<LevelModel> {
    if levels.len() >= n {
        levels
    } else {
        levels + Seq::new((n - levels.len()) as nat, |i: int| no_level())
    }
}

/// The levels, with a tile added to the one at `depth`.
pub open spec fn with_tile(
    levels: Seq<LevelModel>,
    depth: int,
    index: int,
    tile: DeviceRect,
) -> Seq<LevelModel> {
    let all = padded(levels, depth + 1);
    let level = all[depth];
    all.update(
        depth,
        LevelModel { clips: level.clips.push(index), extent: level.extent.united(tile) },
    )
}

/// The levels of the first `n` tiles of `order`.
pub open spec fn levels_of(
    shapes: Seq<ShapeModel>,
    order: Seq<int>,
    placements: Seq<Option<(int, int)>>,
    n: nat,
) -> Seq<LevelModel>
    decreases n,
{
    if n == 0 {
        Seq::empty()
    } else {
        let levels = levels_of(shapes, order, placements, (n - 1) as nat);
        let index = order[n - 1];
        match placements[index] {
            None => levels,
            Some(at) => with_tile(levels, shapes[index].depth, index, tile_of(shapes[index], at)),
        }
    }
}

/// The largest extent of the first `n` levels.
pub open spec fn largest_level(levels: Seq<LevelModel>, n: nat) -> Extent
    decreases n,
{
    if n == 0 {
        Extent::zero()
    } else {
        largest_level(levels, (n - 1) as nat).larger(levels[n - 1].extent.size_of())
    }
}

/// What a fragment shader needs to ask the atlas how much of a point a clip lets
/// through.
#[derive(Clone, Copy, Debug, PartialEq, Eq)]
pub struct ClipMask {
    /// The only part of the window that the clip can reach. Outside it nothing
    /// is let through, and it is empty for a clip that lets nothing through
    /// anywhere.
    pub tile: Bounds<ScaledPixels>,
    /// Added to a device position to reach the coverage texel in the atlas, in
    /// whole pixels.
    pub atlas_offset: Point<i32>,
    /// One for a clip that got a tile, and zero for one that got none, whose
    /// `tile` is then the whole answer.
    pub sampled: u32,
    pub pad: u32,
}

/// A mask, as what it says.
pub struct MaskModel {
    pub tile: Rect,
    pub atlas_offset: (int, int),
    pub sampled: int,
}

impl View for ClipMask {
    type V = MaskModel;

    open spec fn view(&self) -> MaskModel {
        MaskModel {
            tile: self.tile@,
            atlas_offset: (self.atlas_offset.x as int, self.atlas_offset.y as int),
            sampled: self.sampled as int,
        }
    }
}

impl ClipMask {
    pub open spec fn everything() -> MaskModel {
        MaskModel {
            tile: Rect {
                x: -0x4000_0000_0000_0000,
                y: -0x4000_0000_0000_0000,
                width: 0x7fff_ffff_ffff_ffff,
                height: 0x7fff_ffff_ffff_ffff,
            },
            atlas_offset: (0, 0),
            sampled: 0,
        }
    }

    /// The mask of a primitive that no clip applies to. It lets everything
    /// through.
    pub fn unclipped() -> (r: ClipMask)
        ensures
            r@ == ClipMask::everything(),
    {
        ClipMask {
            tile: Bounds::from_units(
                -0x4000_0000_0000_0000,
                -0x4000_0000_0000_0000,
                0x7fff_ffff_ffff_ffff,
                0x7fff_ffff_ffff_ffff,
            ),
            atlas_offset: Point { x: 0, y: 0 },
            sampled: 0,
            pad: 0,
        }
    }
}

/// The per-clip constants that the cover half of stencil-and-cover reads.
#[derive(Clone, Copy, Debug, PartialEq, Eq)]
pub struct ClipCover {
    /// The clip's tile, in the attachment its level is drawn through.
    pub tile: Bounds<ScaledPixels>,
    /// Added to a position in this tile to reach the same point in the parent's
    /// tile, in whole pixels.
    pub parent_offset: Point<i32>,
    /// Zero for a clip whose coverage is its own shape alone, and one for any
    /// other.
    pub has_parent: u32,
    pub pad: u32,
}

/// A clip that got a tile, and everything the two mask passes need.
#[derive(Debug)]
pub struct PlannedClip {
    /// Where the finished coverage lies in the atlas.
    pub atlas: DeviceRect,
    /// The same tile in the attachment its level is drawn through.
    pub work: DeviceRect,
    pub vertices: Range<usize>,
    pub fill_rule: FillRule,
    pub cover: ClipCover,
}

/// A planned clip, as what it says.
pub struct PlannedModel {
    pub atlas: DeviceRect,
    pub work: DeviceRect,
    pub start: int,
    pub end: int,
    pub fill_rule: FillRule,
    pub cover_tile: Rect,
    pub parent_offset: (int, int),
    pub has_parent: int,
}

impl View for PlannedClip {
    type V = PlannedModel;

    open spec fn view(&self) -> PlannedModel {
        PlannedModel {
            atlas: self.atlas,
            work: self.work,
            start: self.vertices.start as int,
            end: self.vertices.end as int,
            fill_rule: self.fill_rule,
            cover_tile: self.cover.tile@,
            parent_offset: (
                self.cover.parent_offset.x as int,
                self.cover.parent_offset.y as int,
            ),
            has_parent: self.cover.has_parent as int,
        }
    }
}

/// A nesting depth: a render pass that reads the tiles the depth above it wrote.
#[derive(Debug)]
pub struct ClipLevel {
    /// The clips at this depth that got a tile, in packing order.
    pub clips: Vec<usize>,
    /// The atlas rectangle that their tiles span.
    pub extent: DeviceRect,
}

impl View for ClipLevel {
    type V = LevelModel;

    open spec fn view(&self) -> LevelModel {
        LevelModel { clips: as_ints(self.clips@), extent: self.extent }
    }
}

pub open spec fn level_views(levels: Seq<ClipLevel>) -> Seq<LevelModel> {
    levels.map_values(|level: ClipLevel| level@)
}

pub open spec fn mask_views(masks: Seq<ClipMask>) -> Seq<MaskModel> {
    masks.map_values(|mask: ClipMask| mask@)
}

pub open spec fn planned_views(clips: Seq<Option<PlannedClip>>) -> Seq<Option<PlannedModel>> {
    clips.map_values(
        |clip: Option<PlannedClip>|
            match clip {
                None => None,
                Some(clip) => Some(clip@),
            },
    )
}

/// Added to a device position to reach a placed clip's texel in the atlas.
pub open spec fn atlas_offset_of(shape: ShapeModel, at: (int, int)) -> (int, int) {
    (at.0 - shape.device.x, at.1 - shape.device.y)
}

/// Added to a device position to reach a placed clip's texel in the attachment
/// its level is drawn through.
pub open spec fn work_offset_of(shape: ShapeModel, at: (int, int), extent: DeviceRect) -> (
    int,
    int,
) {
    (at.0 - shape.device.x - extent.x, at.1 - shape.device.y - extent.y)
}

/// The mask of a clip, where it has been placed or left out.
pub open spec fn mask_of(shape: ShapeModel, placement: Option<(int, int)>) -> MaskModel {
    MaskModel {
        tile: shape.device.in_units(),
        atlas_offset: match placement {
            None => (0, 0),
            Some(at) => atlas_offset_of(shape, at),
        },
        sampled: if placement is Some {
            1
        } else {
            0
        },
    }
}

/// A point moved by a whole number of pixels.
pub open spec fn moved(at: Place, offset: (int, int)) -> Place {
    Place { x: saturate(at.x + offset.0 * ONE), y: saturate(at.y + offset.1 * ONE) }
}

/// The first `n` triangles of the fan from a contour's first point.
pub open spec fn fan_of(contour: Seq<Place>, offset: (int, int), n: nat) -> Seq<Place>
    decreases n,
{
    if n == 0 {
        Seq::empty()
    } else {
        fan_of(contour, offset, (n - 1) as nat).push(moved(contour[0], offset)).push(
            moved(contour[n as int], offset),
        ).push(moved(contour[n as int + 1], offset))
    }
}

/// The triangles of the first `n` contours.
pub open spec fn fans_of(contours: Seq<Seq<Place>>, offset: (int, int), n: nat) -> Seq<Place>
    decreases n,
{
    if n == 0 {
        Seq::empty()
    } else {
        let contour = contours[n - 1];
        fans_of(contours, offset, (n - 1) as nat) + fan_of(
            contour,
            offset,
            if contour.len() >= 2 {
                (contour.len() - 2) as nat
            } else {
                0
            },
        )
    }
}

/// The triangles of the first `n` clips, of those that got a tile.
pub open spec fn vertices_of(
    shapes: Seq<ShapeModel>,
    placements: Seq<Option<(int, int)>>,
    levels: Seq<LevelModel>,
    n: nat,
) -> Seq<Place>
    decreases n,
{
    if n == 0 {
        Seq::empty()
    } else {
        let before = vertices_of(shapes, placements, levels, (n - 1) as nat);
        let shape = shapes[n - 1];
        match placements[n - 1] {
            None => before,
            Some(at) => before + fans_of(
                shape.contours,
                work_offset_of(shape, at, levels[shape.depth].extent),
                shape.contours.len(),
            ),
        }
    }
}

/// Added to a position in a placed clip's tile to reach the same point in its
/// parent's tile; `None` where the parent has no tile.
pub open spec fn parent_offset_of(
    shapes: Seq<ShapeModel>,
    placements: Seq<Option<(int, int)>>,
    levels: Seq<LevelModel>,
    i: int,
) -> Option<(int, int)> {
    let shape = shapes[i];
    let work = work_offset_of(shape, placements[i]->0, levels[shape.depth].extent);
    match shape.parent {
        None => None,
        Some(parent) => match placements[parent] {
            None => None,
            Some(at) => {
                let above = atlas_offset_of(shapes[parent], at);
                Some((above.0 - work.0, above.1 - work.1))
            },
        },
    }
}

/// A placed clip's tile, in the attachment its level is drawn through.
pub open spec fn work_tile_of(shape: ShapeModel, at: (int, int), extent: DeviceRect) -> DeviceRect {
    DeviceRect {
        x: (at.0 - extent.x) as i32,
        y: (at.1 - extent.y) as i32,
        width: shape.device.width,
        height: shape.device.height,
    }
}

/// What is planned for a clip, where it has been placed.
pub open spec fn planned_of(
    shapes: Seq<ShapeModel>,
    placements: Seq<Option<(int, int)>>,
    levels: Seq<LevelModel>,
    i: int,
) -> Option<PlannedModel> {
    match placements[i] {
        None => None,
        Some(at) => {
            let shape = shapes[i];
            let work = work_tile_of(shape, at, levels[shape.depth].extent);
            let parent_offset = parent_offset_of(shapes, placements, levels, i);
            Some(
                PlannedModel {
                    atlas: tile_of(shape, at),
                    work,
                    start: vertices_of(shapes, placements, levels, i as nat).len() as int,
                    end: vertices_of(shapes, placements, levels, (i + 1) as nat).len() as int,
                    fill_rule: shape.fill_rule,
                    cover_tile: work.in_units(),
                    parent_offset: match parent_offset {
                        None => (0, 0),
                        Some(offset) => offset,
                    },
                    has_parent: if parent_offset is Some {
                        1
                    } else {
                        0
                    },
                },
            )
        },
    }
}

/// Where every clip path of a scene is rasterized to, and which could not be.
#[derive(Debug)]
pub struct ClipPlan {
    /// By [`ClipId`], with a first entry for no clip.
    pub masks: Vec<ClipMask>,
    /// By clip index; `None` for a clip that got no tile.
    pub clips: Vec<Option<PlannedClip>>,
    /// Nesting depths, shallowest first.
    pub levels: Vec<ClipLevel>,
    pub vertices: Vec<Point<ScaledPixels>>,
    /// The atlas that the tiles were packed into.
    pub atlas: Extent,
    /// The smallest atlas that would have held them.
    pub minimum_atlas: Extent,
    /// The attachments that the mask passes need: the largest level.
    pub work: Extent,
    /// Whether every clip that asked for a tile got one. The others are clipped
    /// to their rectangles.
    pub all_fit: bool,
    /// How many clips nest too deep, and are clipped to their rectangles.
    pub too_deep: usize,
}

/// A plan, as what it says.
#[verifier::ext_equal]
pub struct PlanModel {
    pub masks: Seq<MaskModel>,
    pub clips: Seq<Option<PlannedModel>>,
    pub levels: Seq<LevelModel>,
    pub vertices: Seq<Place>,
    pub atlas: Extent,
    pub minimum_atlas: Extent,
    pub work: Extent,
    pub all_fit: bool,
    pub too_deep: nat,
}

impl View for ClipPlan {
    type V = PlanModel;

    open spec fn view(&self) -> PlanModel {
        PlanModel {
            masks: mask_views(self.masks@),
            clips: planned_views(self.clips@),
            levels: level_views(self.levels@),
            vertices: places(self.vertices@),
            atlas: self.atlas,
            minimum_atlas: self.minimum_atlas,
            work: self.work,
            all_fit: self.all_fit,
            too_deep: self.too_deep as nat,
        }
    }
}

/// The masks of clips that have been placed so.
pub open spec fn masks_of(
    shapes: Seq<ShapeModel>,
    placements: Seq<Option<(int, int)>>,
) -> Seq<MaskModel> {
    seq![ClipMask::everything()] + Seq::new(
        shapes.len(),
        |i: int| mask_of(shapes[i], placements[i]),
    )
}

/// The plan of some shapes, packed into an atlas of at least `floor`.
pub open spec fn plan_of_shapes(shapes: Seq<ShapeModel>, floor: Extent) -> PlanModel {
    let order = tile_order(shapes);
    let minimum = least_atlas(shapes, order);
    let atlas = minimum.larger(floor);
    let packed = packing(shapes, order, atlas);
    let placements = packed.placements;
    let levels = levels_of(shapes, order, placements, order.len());
    PlanModel {
        masks: masks_of(shapes, placements),
        clips: Seq::new(shapes.len(), |i: int| planned_of(shapes, placements, levels, i)),
        levels,
        vertices: vertices_of(shapes, placements, levels, shapes.len()),
        atlas,
        minimum_atlas: minimum,
        work: largest_level(levels, levels.len()).rounded(CLIP_TEXTURE_QUANTUM as int),
        all_fit: packed.all_fit,
        too_deep: too_deep_of(shapes, shapes.len()),
    }
}

/// The plan of a scene's clips.
pub open spec fn plan_of(
    clips: Seq<ClipModel>,
    viewport_size: Size<DevicePixels>,
    floor: Extent,
) -> PlanModel {
    plan_of_shapes(shapes_of(clips, viewport_of(viewport_size), clips.len()), floor)
}

/// Whether every clip was pushed inside one that was pushed before it.
pub open spec fn parents_come_first(clips: Seq<ClipModel>) -> bool {
    forall|i: int| 0 <= i < clips.len() ==> (#[trigger] clips[i]).parent.0 <= i
}

/// Whether a viewport is no further below nothing than a rectangle may be.
pub open spec fn viewport_is_sane(size: Size<DevicePixels>) -> bool {
    -0x4000_0000 <= size.width.0 && -0x4000_0000 <= size.height.0
}

/// What holds of the rectangle that a clip can reach.
pub open spec fn is_reachable(r: DeviceRect) -> bool {
    &&& -CLIP_COORDINATE_LIMIT <= r.x <= CLIP_COORDINATE_LIMIT
    &&& -CLIP_COORDINATE_LIMIT <= r.y <= CLIP_COORDINATE_LIMIT
    &&& -0x4000_0000 <= r.right() <= CLIP_COORDINATE_LIMIT
    &&& -0x4000_0000 <= r.bottom() <= CLIP_COORDINATE_LIMIT
}

/// What holds of the shape of the `i`th clip.
pub open spec fn shape_holds(shapes: Seq<ShapeModel>, i: int) -> bool {
    let shape = shapes[i];
    &&& is_reachable(shape.device)
    &&& 0 <= shape.depth <= i
    &&& shape.parent matches Some(parent) ==> 0 <= parent < i && shape.depth
        == shapes[parent].depth + 1
    &&& shape.parent is None ==> shape.depth == 0
    &&& shape.wants_mask == (shape.depth < MAX_CLIP_DEPTH)
}

/// What holds of the shapes of some clips.
#[verifier::opaque]
pub open spec fn shapes_hold(shapes: Seq<ShapeModel>) -> bool {
    forall|i: int| 0 <= i < shapes.len() ==> #[trigger] shape_holds(shapes, i)
}

pub proof fn lemma_shape(shapes: Seq<ShapeModel>, i: int)
    requires
        shapes_hold(shapes),
        0 <= i < shapes.len(),
    ensures
        shape_holds(shapes, i),
{
    reveal(shapes_hold);
}

impl ClipPlan {
    /// The plan of a scene that clips nothing.
    pub fn unclipped() -> (r: Self)
        ensures
            r@ == (PlanModel {
                masks: seq![ClipMask::everything()],
                clips: Seq::empty(),
                levels: Seq::empty(),
                vertices: Seq::empty(),
                atlas: Extent::zero(),
                minimum_atlas: Extent::zero(),
                work: Extent::zero(),
                all_fit: true,
                too_deep: 0,
            }),
    {
        let mut masks: Vec<ClipMask> = Vec::new();
        masks.push(ClipMask::unclipped());
        let r = ClipPlan {
            masks,
            clips: Vec::new(),
            levels: Vec::new(),
            vertices: Vec::new(),
            atlas: Extent::none(),
            minimum_atlas: Extent::none(),
            work: Extent::none(),
            all_fit: true,
            too_deep: 0,
        };
        assert(r@ =~= PlanModel {
            masks: seq![ClipMask::everything()],
            clips: Seq::empty(),
            levels: Seq::empty(),
            vertices: Seq::empty(),
            atlas: Extent::zero(),
            minimum_atlas: Extent::zero(),
            work: Extent::zero(),
            all_fit: true,
            too_deep: 0,
        });
        r
    }

    /// The plan of a scene's clips, in a window of `viewport_size` and an atlas
    /// of at least `floor`.
    pub fn new(scene: &Scene, viewport_size: Size<DevicePixels>, floor: Extent) -> (r: Self)
        requires
            parents_come_first(scene@.clips),
            scene@.clips.len() < u32::MAX,
            viewport_is_sane(viewport_size),
            floor.width <= ATLAS_BOUND,
            floor.height <= ATLAS_BOUND,
        ensures
            r@ == plan_of(scene@.clips, viewport_size, floor),
    {
        let shaped = clip_shapes(scene, viewport_size);
        let shapes = shaped.0;
        let too_deep: usize = shaped.1;
        let ghost models = shapes_view(shapes@);
        proof {
            lemma_shapes_hold(scene@.clips, viewport_size, scene@.clips.len());
            assert forall|i: int| 0 <= i < models.len() implies 0 <= (#[trigger] models[i]).depth
                && models[i].device.height <= 0x7fff_ffff by {
                lemma_shape(models, i);
            }
            lemma_order_holds(models);
            lemma_order_is_packable(models, tile_order(models));
        }
        let order = packing_order(&shapes);
        let least = smallest_atlas(&shapes, &order);
        let minimum_atlas = least.0;
        let atlas = minimum_atlas.max(floor);
        let (placements, all_fit) = if atlas == minimum_atlas {
            (least.1, least.2)
        } else {
            pack_clip_tiles(&shapes, &order, atlas)
        };
        let levels = clip_levels(&shapes, &order, &placements, atlas);
        proof {
            let put = placements_view(placements@);
            lemma_levels_hold(models, as_ints(order@), put, atlas, order@.len());
            reveal(levels_hold);
            assert forall|d: int| 0 <= d < levels@.len() implies (
            #[trigger] level_views(levels@)[d]).extent.width <= atlas.width && level_views(
                levels@,
            )[d].extent.height <= atlas.height by {
                assert(level_lies_in(level_views(levels@)[d], atlas));
            }
        }
        let work = working_extent(&levels, atlas);
        place_clips(
            shapes,
            &order,
            placements,
            levels,
            atlas,
            minimum_atlas,
            work,
            all_fit,
            too_deep,
        )
    }
}

proof fn lemma_meet_reachable(a: DeviceRect, b: DeviceRect)
    requires
        is_reachable(a),
        is_reachable(b),
    ensures
        a.edges_fit(),
        b.edges_fit(),
        fits_i32(a.common(b).width),
        fits_i32(a.common(b).height),
        is_reachable(meet(a, b)),
{
}

pub proof fn lemma_meet_viewport(a: DeviceRect, size: Size<DevicePixels>)
    requires
        is_reachable(a),
        viewport_is_sane(size),
    ensures
        viewport_of(size).edges_fit(),
        fits_i32(a.common(viewport_of(size)).width),
        fits_i32(a.common(viewport_of(size)).height),
        is_reachable(meet(a, viewport_of(size))),
{
}

pub proof fn lemma_touched_reachable(bounds: Rect)
    ensures
        is_reachable(device_of(touched(bounds))),
        device_of(touched(bounds)).rect() == touched(bounds),
{
    assert(limited(bounds.x) <= 0x100_0000_0000);
    assert(CLIP_COORDINATE_LIMIT * ONE == 0x100_0000_0000) by (nonlinear_arith)
        requires
            CLIP_COORDINATE_LIMIT == 16_777_216,
            ONE == 65536,
    ;
}

proof fn lemma_shapes_hold(clips: Seq<ClipModel>, size: Size<DevicePixels>, n: nat)
    requires
        parents_come_first(clips),
        n <= clips.len(),
        viewport_is_sane(size),
    ensures
        shapes_of(clips, viewport_of(size), n).len() == n,
        shapes_hold(shapes_of(clips, viewport_of(size), n)),
    decreases n,
{
    if n > 0 {
        lemma_shapes_hold(clips, size, (n - 1) as nat);
        let earlier = shapes_of(clips, viewport_of(size), (n - 1) as nat);
        let all = shapes_of(clips, viewport_of(size), n);
        let clip = clips[n - 1];
        let shape = all[n - 1];
        assert(clip.parent.0 <= n - 1);
        lemma_touched_reachable(clip.path.bounds@);
        lemma_touched_reachable(clip.visible);
        lemma_meet_reachable(
            device_of(touched(clip.path.bounds@)),
            device_of(touched(clip.visible)),
        );
        let both = meet(device_of(touched(clip.path.bounds@)), device_of(touched(clip.visible)));
        if clip.parent.0 == 0 {
            lemma_meet_viewport(both, size);
        } else {
            lemma_shape(earlier, clip.parent.0 - 1);
            lemma_meet_reachable(both, earlier[clip.parent.0 - 1].device);
        }
        if clip.parent.0 != 0 {
            lemma_shape(earlier, clip.parent.0 - 1);
        }
        assert(shape_holds(all, n - 1));
        assert forall|i: int| 0 <= i < all.len() implies #[trigger] shape_holds(all, i) by {
            if i < n - 1 {
                lemma_shape(earlier, i);
                assert(all[i] == earlier[i]);
            }
        }
    }
    reveal(shapes_hold);
}

/// The shapes of a scene's clips, and how many nest too deep to be given a mask.
fn clip_shapes(scene: &Scene, viewport_size: Size<DevicePixels>) -> (r: (Vec<ClipShape>, usize))
    requires
        parents_come_first(scene@.clips),
        scene@.clips.len() < u32::MAX,
        viewport_is_sane(viewport_size),
    ensures
        shapes_view(r.0@) == shapes_of(
            scene@.clips,
            viewport_of(viewport_size),
            scene@.clips.len(),
        ),
        r.1 == too_deep_of(shapes_view(r.0@), scene@.clips.len()),
{
    let viewport = DeviceRect {
        x: 0,
        y: 0,
        width: viewport_size.width.0,
        height: viewport_size.height.0,
    };
    let ghost clips = scene@.clips;
    let mut shapes: Vec<ClipShape> = Vec::new();
    let mut too_deep: usize = 0;
    let mut index: usize = 0;
    assert(shapes_view(shapes@) =~= Seq::<ShapeModel>::empty());
    while index < scene.clips.len()
        invariant
            index <= scene.clips@.len(),
            scene.clips@.len() < u32::MAX,
            clips == clips_view(scene.clips@),
            parents_come_first(clips),
            viewport_is_sane(viewport_size),
            viewport == viewport_of(viewport_size),
            shapes@.len() == index,
            shapes_view(shapes@) == shapes_of(clips, viewport, index as nat),
            too_deep == too_deep_of(shapes_view(shapes@), index as nat),
            too_deep <= index,
        decreases scene.clips@.len() - index,
    {
        let ghost earlier = shapes_view(shapes@);
        let ghost prior = shapes@;
        let scene_clip = &scene.clips[index];
        let ghost clip = clips[index as int];
        proof {
            assert(clip == scene_clip@);
            assert(clip.parent.0 <= index);
            lemma_shapes_hold(clips, viewport_size, index as nat);
            lemma_touched_reachable(clip.path.bounds@);
            lemma_touched_reachable(clip.visible);
        }
        let parent = scene_clip.parent.index();
        let depth: usize = match parent {
            None => 0,
            Some(parent) => {
                proof {
                    assert(earlier[parent as int] == shapes@[parent as int]@);
                    lemma_shape(earlier, parent as int);
                }
                shapes[parent].depth + 1
            },
        };
        let outer = match parent {
            None => viewport,
            Some(parent) => shapes[parent].device,
        };
        let own = covering_rect(&scene_clip.path.bounds());
        let visible = covering_rect(&scene_clip.visible);
        proof {
            assert(own == device_of(touched(clip.path.bounds@)));
            assert(visible == device_of(touched(clip.visible)));
            lemma_meet_reachable(own, visible);
        }
        let both = own.intersect(&visible);
        proof {
            assert(both == meet(own, visible));
            if parent is None {
                lemma_meet_viewport(both, viewport_size);
            } else {
                lemma_shape(earlier, parent->0 as int);
                lemma_meet_reachable(both, outer);
            }
        }
        let reachable = both.intersect(&outer);
        let wants_mask = depth < MAX_CLIP_DEPTH;
        if !wants_mask {
            too_deep += 1;
        }
        let contours: Vec<Vec<Point<ScaledPixels>>> = if wants_mask && !reachable.is_empty() {
            flatten_clip_path(&scene_clip.path)
        } else {
            Vec::new()
        };
        // A path that encloses no area lets nothing through. That is not a clip
        // that falls back to its rectangle, which still has a shape inside it.
        let device = if wants_mask && contours.len() == 0 {
            DeviceRect::empty()
        } else {
            reachable
        };
        let shape = ClipShape {
            contours,
            device,
            fill_rule: scene_clip.path.fill_rule(),
            parent,
            depth,
            wants_mask,
        };
        proof {
            assert(reachable == reach_of(clip, outer));
            assert(contours_view(contours@).len() == contours@.len());
            assert(shape@ =~= shape_of(clip, earlier, viewport));
        }
        shapes.push(shape);
        proof {
            assert(shapes_view(shapes@) =~= earlier.push(shape@));
            lemma_too_deep_prefix(earlier, shapes_view(shapes@), index as nat);
        }
        index += 1;
    }
    (shapes, too_deep)
}

proof fn lemma_too_deep_prefix(a: Seq<ShapeModel>, b: Seq<ShapeModel>, n: nat)
    requires
        n <= a.len() <= b.len(),
        forall|i: int| 0 <= i < a.len() ==> a[i] == b[i],
    ensures
        too_deep_of(a, n) == too_deep_of(b, n),
    decreases n,
{
    if n > 0 {
        lemma_too_deep_prefix(a, b, (n - 1) as nat);
    }
}

/// Whether a level lies within the atlas.
pub open spec fn level_lies_in(level: LevelModel, atlas: Extent) -> bool {
    &&& 0 <= level.extent.x
    &&& 0 <= level.extent.y
    &&& 0 <= level.extent.width
    &&& 0 <= level.extent.height
    &&& level.extent.right() <= atlas.width
    &&& level.extent.bottom() <= atlas.height
}

/// Whether the level of a placed clip holds its tile.
pub open spec fn level_holds_tile(
    levels: Seq<LevelModel>,
    shape: ShapeModel,
    placement: Option<(int, int)>,
) -> bool {
    placement matches Some(at) ==> {
        let tile = tile_of(shape, at);
        let extent = levels[shape.depth].extent;
        &&& shape.depth < levels.len()
        &&& extent.x <= tile.x && tile.right() <= extent.right()
        &&& extent.y <= tile.y && tile.bottom() <= extent.bottom()
    }
}

/// What holds of the levels of the first `n` tiles of `order`.
#[verifier::opaque]
pub open spec fn levels_hold(
    levels: Seq<LevelModel>,
    shapes: Seq<ShapeModel>,
    order: Seq<int>,
    placements: Seq<Option<(int, int)>>,
    atlas: Extent,
    n: int,
) -> bool {
    &&& forall|d: int| 0 <= d < levels.len() ==> level_lies_in(#[trigger] levels[d], atlas)
    &&& forall|k: int|
        0 <= k < n ==> level_holds_tile(
            levels,
            shapes[#[trigger] order[k]],
            placements[order[k]],
        )
}

/// A tile that lies within the atlas keeps the levels within it, and its level
/// holds it.
proof fn lemma_tile_added(
    levels: Seq<LevelModel>,
    shape: ShapeModel,
    index: int,
    at: (int, int),
    atlas: Extent,
)
    requires
        forall|d: int| 0 <= d < levels.len() ==> level_lies_in(#[trigger] levels[d], atlas),
        atlas_is_sane(atlas),
        0 <= shape.depth,
        0 < shape.device.width,
        0 < shape.device.height,
        0 <= at.0 && at.0 + shape.device.width <= atlas.width,
        0 <= at.1 && at.1 + shape.device.height <= atlas.height,
    ensures
        ({
            let tile = tile_of(shape, at);
            let level = padded(levels, shape.depth + 1)[shape.depth];
            let next = with_tile(levels, shape.depth, index, tile);
            &&& tile.edges_fit()
            &&& level.extent.edges_fit()
            &&& fits_i32(level.extent.joined(tile).width)
            &&& fits_i32(level.extent.joined(tile).height)
            &&& forall|d: int| 0 <= d < next.len() ==> level_lies_in(#[trigger] next[d], atlas)
            &&& level_holds_tile(next, shape, Some(at))
            &&& next.len() >= levels.len()
        }),
{
    let all = padded(levels, shape.depth + 1);
    assert forall|d: int| 0 <= d < all.len() implies level_lies_in(#[trigger] all[d], atlas) by {
        if d < levels.len() {
            assert(all[d] == levels[d]);
        }
    }
    assert(level_lies_in(all[shape.depth], atlas));
}

/// A tile that a level holds is still held after another is added.
proof fn lemma_tile_stays(
    levels: Seq<LevelModel>,
    shape: ShapeModel,
    placement: Option<(int, int)>,
    other: ShapeModel,
    index: int,
    at: (int, int),
    atlas: Extent,
)
    requires
        forall|d: int| 0 <= d < levels.len() ==> level_lies_in(#[trigger] levels[d], atlas),
        atlas_is_sane(atlas),
        0 <= shape.depth,
        0 <= other.depth,
        0 < shape.device.width,
        0 < shape.device.height,
        placement matches Some(p) ==> 0 <= p.0 && p.0 + shape.device.width <= atlas.width && 0
            <= p.1 && p.1 + shape.device.height <= atlas.height,
        0 < other.device.width,
        0 < other.device.height,
        0 <= at.0 && at.0 + other.device.width <= atlas.width,
        0 <= at.1 && at.1 + other.device.height <= atlas.height,
        level_holds_tile(levels, shape, placement),
    ensures
        level_holds_tile(
            with_tile(levels, other.depth, index, tile_of(other, at)),
            shape,
            placement,
        ),
{
    if placement is Some {
        lemma_tile_added(levels, other, index, at, atlas);
        let all = padded(levels, other.depth + 1);
        assert(all[shape.depth] == levels[shape.depth]);
        assert(level_lies_in(levels[shape.depth], atlas));
    }
}

proof fn lemma_levels_step(
    levels: Seq<LevelModel>,
    shapes: Seq<ShapeModel>,
    order: Seq<int>,
    placements: Seq<Option<(int, int)>>,
    atlas: Extent,
    n: int,
)
    requires
        shapes_hold(shapes),
        order_holds(shapes, order),
        atlas_is_sane(atlas),
        placements == packing(shapes, order, atlas).placements,
        0 <= n < order.len(),
        levels_hold(levels, shapes, order, placements, atlas, n),
        placements[order[n]] is Some,
    ensures
        ({
            let shape = shapes[order[n]];
            let tile = tile_of(shape, placements[order[n]]->0);
            let level = padded(levels, shape.depth + 1)[shape.depth];
            &&& tile.edges_fit()
            &&& level.extent.edges_fit()
            &&& fits_i32(level.extent.joined(tile).width)
            &&& fits_i32(level.extent.joined(tile).height)
            &&& levels_hold(
                with_tile(levels, shape.depth, order[n], tile),
                shapes,
                order,
                placements,
                atlas,
                n + 1,
            )
        }),
{
    reveal(levels_hold);
    let index = order[n];
    lemma_order_member(shapes, order, n);
    let shape = shapes[index];
    lemma_shape(shapes, index);
    let k = lemma_placement(shapes, order, atlas, index);
    let at = placements[index]->0;
    lemma_tile_added(levels, shape, index, at, atlas);
    let next = with_tile(levels, shape.depth, index, tile_of(shape, at));
    assert forall|k: int| 0 <= k < n + 1 implies level_holds_tile(
        next,
        shapes[#[trigger] order[k]],
        placements[order[k]],
    ) by {
        if k < n {
            lemma_order_member(shapes, order, k);
            lemma_shape(shapes, order[k]);
            if placements[order[k]] is Some {
                let j = lemma_placement(shapes, order, atlas, order[k]);
            }
            lemma_tile_stays(
                levels,
                shapes[order[k]],
                placements[order[k]],
                shape,
                index,
                at,
                atlas,
            );
        }
    }
}

proof fn lemma_levels_hold(
    shapes: Seq<ShapeModel>,
    order: Seq<int>,
    placements: Seq<Option<(int, int)>>,
    atlas: Extent,
    n: nat,
)
    requires
        shapes_hold(shapes),
        order_holds(shapes, order),
        atlas_is_sane(atlas),
        placements == packing(shapes, order, atlas).placements,
        n <= order.len(),
    ensures
        levels_hold(
            levels_of(shapes, order, placements, n),
            shapes,
            order,
            placements,
            atlas,
            n as int,
        ),
    decreases n,
{
    reveal(levels_hold);
    if n > 0 {
        lemma_levels_hold(shapes, order, placements, atlas, (n - 1) as nat);
        if placements[order[n - 1]] is Some {
            lemma_levels_step(
                levels_of(shapes, order, placements, (n - 1) as nat),
                shapes,
                order,
                placements,
                atlas,
                n - 1,
            );
        }
    }
}

/// The levels that placed clips are drawn in.
fn clip_levels(
    shapes: &Vec<ClipShape>,
    order: &Vec<usize>,
    placements: &Vec<Option<(i32, i32)>>,
    atlas: Extent,
) -> (r: Vec<ClipLevel>)
    requires
        shapes_hold(shapes_view(shapes@)),
        order_holds(shapes_view(shapes@), as_ints(order@)),
        atlas_is_sane(atlas),
        shapes@.len() < u32::MAX,
        placements_view(placements@) == packing(
            shapes_view(shapes@),
            as_ints(order@),
            atlas,
        ).placements,
    ensures
        level_views(r@) == levels_of(
            shapes_view(shapes@),
            as_ints(order@),
            placements_view(placements@),
            order@.len(),
        ),
{
    let ghost models = shapes_view(shapes@);
    let ghost places = as_ints(order@);
    let ghost put = placements_view(placements@);
    let mut levels: Vec<ClipLevel> = Vec::new();
    let mut n: usize = 0;
    assert(level_views(levels@) =~= Seq::<LevelModel>::empty());
    proof {
        lemma_order_is_packable(models, places);
        lemma_placements_len(models, places, atlas);
    }
    while n < order.len()
        invariant
            n <= order@.len(),
            models == shapes_view(shapes@),
            places == as_ints(order@),
            put == placements_view(placements@),
            put.len() == models.len(),
            shapes_hold(models),
            order_holds(models, places),
            atlas_is_sane(atlas),
            shapes@.len() < u32::MAX,
            put == packing(models, places, atlas).placements,
            level_views(levels@) == levels_of(models, places, put, n as nat),
        decreases order@.len() - n,
    {
        let index: usize = order[n];
        proof {
            assert(places[n as int] == index);
            lemma_order_member(models, places, n as int);
            assert(models[index as int] == shapes@[index as int]@);
            lemma_shape(models, index as int);
        }
        let shape = &shapes[index];
        let ghost before = level_views(levels@);
        match placements[index] {
            None => {},
            Some((x, y)) => {
                let tile = DeviceRect {
                    x,
                    y,
                    width: shape.device.width,
                    height: shape.device.height,
                };
                proof {
                    assert(put[index as int] == Some((x as int, y as int)));
                    lemma_levels_hold(models, places, put, atlas, n as nat);
                    lemma_levels_step(before, models, places, put, atlas, n as int);
                }
                let depth: usize = shape.depth;
                assert(level_views(levels@) =~= padded(before, levels@.len() as int));
                while levels.len() <= depth
                    invariant
                        depth < u32::MAX,
                        levels@.len() >= before.len(),
                        levels@.len() <= depth + 1 || levels@.len() == before.len(),
                        level_views(levels@) == padded(before, levels@.len() as int),
                    decreases depth + 1 - levels@.len(),
                {
                    let ghost prior = levels@;
                    let level = ClipLevel { clips: Vec::new(), extent: DeviceRect::empty() };
                    assert(level@ =~= no_level());
                    levels.push(level);
                    assert(level_views(levels@) =~= level_views(prior).push(no_level()));
                    assert(level_views(levels@) =~= padded(before, levels@.len() as int));
                }
                let ghost all = levels@;
                assert(level_views(all) =~= padded(before, depth + 1));
                assert(level_views(all)[depth as int] == all[depth as int]@);
                let extent = levels[depth].extent.union(&tile);
                levels[depth].extent = extent;
                levels[depth].clips.push(index);
                proof {
                    let level = all[depth as int];
                    assert(as_ints(level.clips@.push(index)) =~= as_ints(level.clips@).push(
                        index as int,
                    ));
                    assert(level_views(levels@) =~= with_tile(
                        before,
                        depth as int,
                        index as int,
                        tile,
                    ));
                }
            },
        }
        n += 1;
    }
    levels
}

/// The attachments that some levels are drawn through.
fn working_extent(levels: &Vec<ClipLevel>, atlas: Extent) -> (r: Extent)
    requires
        atlas_is_sane(atlas),
        forall|d: int|
            0 <= d < levels@.len() ==> (#[trigger] level_views(levels@)[d]).extent.width
                <= atlas.width && level_views(levels@)[d].extent.height <= atlas.height,
    ensures
        r == largest_level(level_views(levels@), levels@.len()).rounded(
            CLIP_TEXTURE_QUANTUM as int,
        ),
{
    let mut largest = Extent::none();
    let mut d: usize = 0;
    while d < levels.len()
        invariant
            d <= levels@.len(),
            atlas_is_sane(atlas),
            forall|d: int|
                0 <= d < levels@.len() ==> (#[trigger] level_views(levels@)[d]).extent.width
                    <= atlas.width && level_views(levels@)[d].extent.height <= atlas.height,
            largest == largest_level(level_views(levels@), d as nat),
            largest.width <= ATLAS_BOUND,
            largest.height <= ATLAS_BOUND,
        decreases levels@.len() - d,
    {
        assert(level_views(levels@)[d as int] == levels@[d as int]@);
        largest = largest.max(levels[d].extent.extent());
        d += 1;
    }
    largest.quantized()
}

/// `at`, moved by a whole number of pixels.
fn shifted(at: Point<ScaledPixels>, x: i32, y: i32) -> (r: Point<ScaledPixels>)
    ensures
        r@ == moved(at@, (x as int, y as int)),
{
    assert(x * ONE == x * 65536 && y * ONE == y * 65536);
    Point {
        x: ScaledPixels(plus(at.x.0, x as i64 * 65536)),
        y: ScaledPixels(plus(at.y.0, y as i64 * 65536)),
    }
}

/// Add the triangles of a contour's fan.
fn push_fan(
    vertices: &mut Vec<Point<ScaledPixels>>,
    contour: &Vec<Point<ScaledPixels>>,
    x: i32,
    y: i32,
)
    ensures
        places(final(vertices)@) == places(old(vertices)@) + fan_of(
            places(contour@),
            (x as int, y as int),
            if contour@.len() >= 2 {
                (contour@.len() - 2) as nat
            } else {
                0
            },
        ),
{
    let ghost before = places(vertices@);
    let ghost offset = (x as int, y as int);
    assert(places(vertices@) =~= before + fan_of(places(contour@), offset, 0));
    if contour.len() < 2 {
        return;
    }
    let mut corner: usize = 1;
    while corner < contour.len() - 1
        invariant
            2 <= contour@.len(),
            1 <= corner <= contour@.len() - 1,
            offset == (x as int, y as int),
            places(vertices@) == before + fan_of(places(contour@), offset, (corner - 1) as nat),
        decreases contour@.len() - corner,
    {
        let ghost prior = vertices@;
        let a = shifted(contour[0], x, y);
        let b = shifted(contour[corner], x, y);
        let c = shifted(contour[corner + 1], x, y);
        vertices.push(a);
        vertices.push(b);
        vertices.push(c);
        proof {
            let all = places(contour@);
            assert(all[0] == contour@[0]@);
            assert(all[corner as int] == contour@[corner as int]@);
            assert(all[corner + 1] == contour@[corner + 1]@);
            assert(places(vertices@) =~= places(prior).push(a@).push(b@).push(c@));
            assert(fan_of(all, offset, corner as nat) == fan_of(
                all,
                offset,
                (corner - 1) as nat,
            ).push(a@).push(b@).push(c@));
            assert(places(vertices@) =~= before + fan_of(all, offset, corner as nat));
        }
        corner += 1;
    }
}

/// Add the triangles of a shape's contours.
fn push_fans(
    vertices: &mut Vec<Point<ScaledPixels>>,
    contours: &Vec<Vec<Point<ScaledPixels>>>,
    x: i32,
    y: i32,
)
    ensures
        places(final(vertices)@) == places(old(vertices)@) + fans_of(
            contours_view(contours@),
            (x as int, y as int),
            contours@.len(),
        ),
{
    let ghost before = places(vertices@);
    let ghost offset = (x as int, y as int);
    let mut n: usize = 0;
    assert(places(vertices@) =~= before + fans_of(contours_view(contours@), offset, 0));
    while n < contours.len()
        invariant
            n <= contours@.len(),
            offset == (x as int, y as int),
            places(vertices@) == before + fans_of(contours_view(contours@), offset, n as nat),
        decreases contours@.len() - n,
    {
        assert(contours_view(contours@)[n as int] == places(contours@[n as int]@));
        push_fan(vertices, &contours[n], x, y);
        n += 1;
        assert(places(vertices@) =~= before + fans_of(contours_view(contours@), offset, n as nat));
    }
}

/// The triangles of some clips are no more than those of more clips.
pub proof fn lemma_vertices_ascend(
    shapes: Seq<ShapeModel>,
    placements: Seq<Option<(int, int)>>,
    levels: Seq<LevelModel>,
    i: nat,
    n: nat,
)
    requires
        i <= n,
    ensures
        vertices_of(shapes, placements, levels, i).len() <= vertices_of(
            shapes,
            placements,
            levels,
            n,
        ).len(),
    decreases n,
{
    if i < n {
        lemma_vertices_ascend(shapes, placements, levels, i, (n - 1) as nat);
    }
}

/// No level is larger than the largest.
pub proof fn lemma_largest_level(levels: Seq<LevelModel>, n: nat, d: int)
    requires
        0 <= d < n <= levels.len(),
    ensures
        levels[d].extent.width <= largest_level(levels, n).width,
        levels[d].extent.height <= largest_level(levels, n).height,
    decreases n,
{
    if d < n - 1 {
        lemma_largest_level(levels, (n - 1) as nat, d);
    }
}

proof fn lemma_largest_level_fits(levels: Seq<LevelModel>, n: nat, atlas: Extent)
    requires
        n <= levels.len(),
        atlas_is_sane(atlas),
        forall|d: int| 0 <= d < levels.len() ==> level_lies_in(#[trigger] levels[d], atlas),
    ensures
        0 <= largest_level(levels, n).width <= atlas.width,
        0 <= largest_level(levels, n).height <= atlas.height,
    decreases n,
{
    if n > 0 {
        lemma_largest_level_fits(levels, (n - 1) as nat, atlas);
        assert(level_lies_in(levels[n - 1], atlas));
    }
}

/// The attachments of a plan hold its largest level.
pub proof fn lemma_levels_lie_in(shapes: Seq<ShapeModel>, floor: Extent)
    requires
        shapes_hold(shapes),
        order_holds(shapes, tile_order(shapes)),
        atlas_is_sane(plan_of_shapes(shapes, floor).atlas),
    ensures
        ({
            let plan = plan_of_shapes(shapes, floor);
            let largest = largest_level(plan.levels, plan.levels.len());
            &&& largest.width <= plan.work.width
            &&& largest.height <= plan.work.height
        }),
{
    let plan = plan_of_shapes(shapes, floor);
    let order = tile_order(shapes);
    let placements = packing(shapes, order, plan.atlas).placements;
    lemma_levels_hold(shapes, order, placements, plan.atlas, order.len());
    reveal(levels_hold);
    lemma_largest_level_fits(plan.levels, plan.levels.len(), plan.atlas);
}

/// What a plan is made of holds what it should.
pub proof fn lemma_plan_shapes(clips: Seq<ClipModel>, size: Size<DevicePixels>, floor: Extent)
    requires
        parents_come_first(clips),
        viewport_is_sane(size),
        floor.width <= ATLAS_BOUND,
        floor.height <= ATLAS_BOUND,
    ensures
        ({
            let shapes = shapes_of(clips, viewport_of(size), clips.len());
            &&& shapes.len() == clips.len()
            &&& shapes_hold(shapes)
            &&& order_holds(shapes, tile_order(shapes))
            &&& atlas_is_sane(plan_of_shapes(shapes, floor).atlas)
        }),
{
    let shapes = shapes_of(clips, viewport_of(size), clips.len());
    lemma_shapes_hold(clips, size, clips.len());
    assert forall|i: int| 0 <= i < shapes.len() implies 0 <= (#[trigger] shapes[i]).depth
        && shapes[i].device.height <= 0x7fff_ffff by {
        lemma_shape(shapes, i);
    }
    lemma_order_holds(shapes);
    let order = tile_order(shapes);
    lemma_first_atlas(shapes, order);
    let first = first_atlas(shapes, order);
    lemma_grown_atlas(shapes, order, first, atlas_cap(first));
}

/// The reach of a clip is exact, and does not overflow.
pub proof fn lemma_reach(clips: Seq<ClipModel>, size: Size<DevicePixels>, i: int)
    requires
        parents_come_first(clips),
        viewport_is_sane(size),
        0 <= i < clips.len(),
    ensures
        ({
            let shapes = shapes_of(clips, viewport_of(size), clips.len());
            let outer = if clips[i].parent.0 == 0 {
                viewport_of(size)
            } else {
                shapes[clips[i].parent.0 - 1].device
            };
            let own = device_of(touched(clips[i].path.bounds@));
            let visible = device_of(touched(clips[i].visible));
            &&& meet(own, visible).rect() == own.common(visible)
            &&& reach_of(clips[i], outer).rect() == meet(own, visible).common(outer)
        }),
{
    let shapes = shapes_of(clips, viewport_of(size), clips.len());
    lemma_shapes_hold(clips, size, clips.len());
    let own = device_of(touched(clips[i].path.bounds@));
    let visible = device_of(touched(clips[i].visible));
    lemma_touched_reachable(clips[i].path.bounds@);
    lemma_touched_reachable(clips[i].visible);
    lemma_meet_reachable(own, visible);
    let both = meet(own, visible);
    assert(clips[i].parent.0 <= i);
    if clips[i].parent.0 == 0 {
        lemma_meet_viewport(both, size);
    } else {
        lemma_shape(shapes, clips[i].parent.0 - 1);
        lemma_meet_reachable(both, shapes[clips[i].parent.0 - 1].device);
    }
}

/// What a placed clip's numbers stay within.
pub proof fn lemma_placed_numbers(
    shapes: Seq<ShapeModel>,
    order: Seq<int>,
    placements: Seq<Option<(int, int)>>,
    levels: Seq<LevelModel>,
    atlas: Extent,
    i: int,
)
    requires
        shapes_hold(shapes),
        order_holds(shapes, order),
        atlas_is_sane(atlas),
        placements == packing(shapes, order, atlas).placements,
        levels == levels_of(shapes, order, placements, order.len()),
        0 <= i < shapes.len(),
        placements[i] is Some,
    ensures
        0 <= shapes[i].depth < levels.len(),
        0 <= (placements[i]->0).0 <= ATLAS_BOUND,
        0 <= (placements[i]->0).1 <= ATLAS_BOUND,
        0 <= levels[shapes[i].depth].extent.x <= (placements[i]->0).0,
        0 <= levels[shapes[i].depth].extent.y <= (placements[i]->0).1,
        (placements[i]->0).0 + shapes[i].device.width <= levels[shapes[i].depth].extent.right(),
        (placements[i]->0).1 + shapes[i].device.height <= levels[shapes[i].depth].extent.bottom(),
        0 < shapes[i].device.width,
        0 < shapes[i].device.height,
{
    lemma_levels_hold(shapes, order, placements, atlas, order.len());
    reveal(levels_hold);
    lemma_shape(shapes, i);
    let k = lemma_placement(shapes, order, atlas, i);
    assert(level_holds_tile(levels, shapes[order[k]], placements[order[k]]));
    assert(level_lies_in(levels[shapes[i].depth], atlas));
}

/// Put placed clips and their levels together.
fn place_clips(
    shapes: Vec<ClipShape>,
    order: &Vec<usize>,
    placements: Vec<Option<(i32, i32)>>,
    levels: Vec<ClipLevel>,
    atlas: Extent,
    minimum_atlas: Extent,
    work: Extent,
    all_fit: bool,
    too_deep: usize,
) -> (r: ClipPlan)
    requires
        shapes_hold(shapes_view(shapes@)),
        order_holds(shapes_view(shapes@), as_ints(order@)),
        atlas_is_sane(atlas),
        placements_view(placements@) == packing(
            shapes_view(shapes@),
            as_ints(order@),
            atlas,
        ).placements,
        level_views(levels@) == levels_of(
            shapes_view(shapes@),
            as_ints(order@),
            placements_view(placements@),
            order@.len(),
        ),
    ensures
        r@ == (PlanModel {
            masks: masks_of(shapes_view(shapes@), placements_view(placements@)),
            clips: Seq::new(
                shapes@.len(),
                |i: int|
                    planned_of(
                        shapes_view(shapes@),
                        placements_view(placements@),
                        level_views(levels@),
                        i,
                    ),
            ),
            levels: level_views(levels@),
            vertices: vertices_of(
                shapes_view(shapes@),
                placements_view(placements@),
                level_views(levels@),
                shapes@.len(),
            ),
            atlas,
            minimum_atlas,
            work,
            all_fit,
            too_deep: too_deep as nat,
        }),
{
    let ghost models = shapes_view(shapes@);
    let ghost put = placements_view(placements@);
    let ghost depths = level_views(levels@);
    let ghost tiled = as_ints(order@);
    let mut masks: Vec<ClipMask> = Vec::new();
    masks.push(ClipMask::unclipped());
    let mut clips: Vec<Option<PlannedClip>> = Vec::new();
    let mut vertices: Vec<Point<ScaledPixels>> = Vec::new();
    let mut index: usize = 0;
    proof {
        lemma_order_is_packable(models, tiled);
        lemma_placements_len(models, tiled, atlas);
        assert(places(vertices@) =~= Seq::<Place>::empty());
        assert(mask_views(masks@) =~= masks_of(models, put).take(1));
    }
    while index < shapes.len()
        invariant
            index <= shapes@.len(),
            models == shapes_view(shapes@),
            put == placements_view(placements@),
            put.len() == models.len(),
            depths == level_views(levels@),
            tiled == as_ints(order@),
            shapes_hold(models),
            order_holds(models, tiled),
            atlas_is_sane(atlas),
            put == packing(models, tiled, atlas).placements,
            depths == levels_of(models, tiled, put, tiled.len()),
            masks@.len() == index + 1,
            mask_views(masks@) == masks_of(models, put).take(index + 1),
            clips@.len() == index,
            forall|i: int|
                0 <= i < index ==> (#[trigger] planned_views(clips@)[i]) == planned_of(
                    models,
                    put,
                    depths,
                    i,
                ),
            places(vertices@) == vertices_of(models, put, depths, index as nat),
        decreases shapes@.len() - index,
    {
        let shape = &shapes[index];
        let ghost drawn = vertices@;
        let ghost masked = masks@;
        let ghost planned = clips@;
        proof {
            assert(models[index as int] == shape@);
        }
        match placements[index] {
            None => {
                let mask = ClipMask {
                    tile: shape.device.bounds(),
                    atlas_offset: Point { x: 0, y: 0 },
                    sampled: 0,
                    pad: 0,
                };
                assert(mask@ == mask_of(models[index as int], put[index as int]));
                masks.push(mask);
                clips.push(None);
            },
            Some((atlas_x, atlas_y)) => {
                proof {
                    assert(put[index as int] == Some((atlas_x as int, atlas_y as int)));
                    lemma_shape(models, index as int);
                    lemma_placed_numbers(models, tiled, put, depths, atlas, index as int);
                }
                let tile = DeviceRect {
                    x: atlas_x,
                    y: atlas_y,
                    width: shape.device.width,
                    height: shape.device.height,
                };
                assert(depths[shape.depth as int] == levels@[shape.depth as int]@);
                let extent = levels[shape.depth].extent;
                let work_tile = DeviceRect {
                    x: tile.x - extent.x,
                    y: tile.y - extent.y,
                    width: tile.width,
                    height: tile.height,
                };
                let atlas_offset = Point {
                    x: tile.x - shape.device.x,
                    y: tile.y - shape.device.y,
                };
                let work_offset = Point {
                    x: atlas_offset.x - extent.x,
                    y: atlas_offset.y - extent.y,
                };
                let start: usize = vertices.len();
                push_fans(&mut vertices, &shape.contours, work_offset.x, work_offset.y);
                proof {
                    assert(shape@.contours.len() == shape.contours@.len());
                    assert(places(vertices@) == vertices_of(
                        models,
                        put,
                        depths,
                        (index + 1) as nat,
                    ));
                    assert(places(vertices@).len() == vertices@.len());
                    assert(places(drawn).len() == drawn.len());
                }
                let mut parent_offset = Point { x: 0i32, y: 0i32 };
                let mut has_parent: u32 = 0;
                if let Some(parent) = shape.parent {
                    proof {
                        lemma_shape(models, index as int);
                        assert(mask_views(masks@)[parent + 1] == masks_of(models, put)[parent + 1]);
                        assert(mask_views(masks@)[parent + 1] == masks@[parent + 1]@);
                    }
                    let above = masks[parent + 1];
                    if above.sampled != 0 {
                        proof {
                            lemma_placed_numbers(
                                models,
                                tiled,
                                put,
                                depths,
                                atlas,
                                parent as int,
                            );
                            lemma_shape(models, parent as int);
                        }
                        parent_offset =
                        Point {
                            x: above.atlas_offset.x - work_offset.x,
                            y: above.atlas_offset.y - work_offset.y,
                        };
                        has_parent = 1;
                    }
                }
                let mask = ClipMask {
                    tile: shape.device.bounds(),
                    atlas_offset,
                    sampled: 1,
                    pad: 0,
                };
                assert(mask@ == mask_of(models[index as int], put[index as int]));
                masks.push(mask);
                let clip = PlannedClip {
                    atlas: tile,
                    work: work_tile,
                    vertices: start..vertices.len(),
                    fill_rule: shape.fill_rule,
                    cover: ClipCover {
                        tile: work_tile.bounds(),
                        parent_offset,
                        has_parent,
                        pad: 0,
                    },
                };
                assert(Some(clip@) == planned_of(models, put, depths, index as int));
                clips.push(Some(clip));
            },
        }
        proof {
            assert(mask_views(masks@) =~= mask_views(masked).push(
                mask_of(models[index as int], put[index as int]),
            ));
            assert(mask_views(masks@) =~= masks_of(models, put).take(index + 2));
            assert forall|i: int| 0 <= i < index + 1 implies (
            #[trigger] planned_views(clips@)[i]) == planned_of(models, put, depths, i) by {
                if i < index {
                    assert(planned_views(clips@)[i] == planned_views(planned)[i]);
                }
            }
        }
        index += 1;
    }
    let r = ClipPlan {
        masks,
        clips,
        levels,
        vertices,
        atlas,
        minimum_atlas,
        work,
        all_fit,
        too_deep,
    };
    proof {
        assert(masks_of(models, put).take(index + 1) =~= masks_of(models, put));
        assert(r@.clips =~= Seq::new(
            models.len(),
            |i: int| planned_of(models, put, depths, i),
        ));
    }
    r
}

} // verus!
