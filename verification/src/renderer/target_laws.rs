//! Which groups are given targets, and what is said of those that are not.

use crate::fixed::ONE;
use crate::geometry::{DevicePixels, Point, ScaledPixels, Size};
use crate::renderer::brush::{any_brushed, PathBrushRecord, PathRaster};
use crate::renderer::clip_plan::{shape_holds, too_deep_of, ClipMask};
use crate::renderer::extent::DeviceRect;
use crate::renderer::filter_ops::FilterEdge;
use crate::renderer::frame::{backdrop_rect, group_rect, FrameEnvironment, IsolatedModel};
use crate::renderer::notice::Notice;
use crate::renderer::packing::ShapeModel;
use crate::renderer::passes::PlanModel;
use crate::renderer::scratch::FilterImage;
use crate::renderer::targets::{TargetsModel, Texture, GROUP_TARGET_BUDGET_BYTES};
use crate::renderer::walk::{window_target, WalkModel};
use crate::scene::blend::{ComposeMode, MixMode};
use crate::scene::filter::{FilterModel, GAUSSIAN_BLUR_EXTENT};
use crate::scene::group::GroupModel;
use crate::scene::path::PathModel;
use vstd::prelude::*;

verus! {

/// A group is given a target of its own unless it covers no pixel of the window,
/// eight groups are open already, or the memory is refused; of the last two
/// something is said. Its target covers the group's pixels, and what it is laid
/// on is what was drawn into when it was pushed.
pub proof fn groups_are_given_targets(walk: WalkModel, spec: GroupModel, env: FrameEnvironment)
    ensures
        ({
            let after = walk.group_pushed(spec, env);
            let rect = group_rect(spec, env.viewport);
            let depth = walk.open.len();
            let granted = walk.plan.targets.acquired(
                depth,
                rect,
                GROUP_TARGET_BUDGET_BYTES,
                false,
            ).1;
            &&& after.open.len() == depth + 1
            &&& after.open.drop_last() == walk.open
            &&& after.open.last() is Some <==> rect.width > 0 && rect.height > 0 && depth < 8
                && granted is Some
            &&& after.open.last() is None && rect.width > 0 && rect.height > 0
                ==> after.plan.targets.reported is Some
            &&& after.open.last() is None ==> after.plan.commands == walk.plan.commands
                && after.target == walk.target
            &&& after.open.last() matches Some(group) ==> {
                &&& group.spec == spec
                &&& group.parent == walk.target
                &&& group.target == after.target
                &&& group.target.texture == Texture::Group(depth as usize)
                &&& group.target.render_target.origin.x.0 == rect.x
                &&& group.target.render_target.origin.y.0 == rect.y
                &&& group.target.render_target.size.width.0 == rect.width
                &&& group.target.render_target.size.height.0 == rect.height
                &&& group.target.texture_size.width.0 == (granted->0).width
                &&& group.target.texture_size.height.0 == (granted->0).height
                &&& !group.target.is_window
            }
        }),
{
    reveal(TargetsModel::acquired);
    let after = walk.group_pushed(spec, env);
    assert(after.open.drop_last() =~= walk.open);
}

/// The frame's own target is the window, from its corner and as large.
pub proof fn windows_are_drawn_whole(viewport: Size<DevicePixels>)
    ensures
        ({
            let target = window_target(viewport);
            &&& target.texture == Texture::Window
            &&& target.is_window
            &&& target.texture_size == viewport
            &&& target.render_target.size == viewport
            &&& target.render_target.origin.x.0 == 0
            &&& target.render_target.origin.y.0 == 0
        }),
{
}

/// Something is said of a group that is mixed in any way but the plain one, and
/// of one whose operator no single blend can express; of any other nothing is.
pub proof fn what_cannot_be_mixed_is_reported(plan: PlanModel, group: IsolatedModel)
    ensures
        ({
            let after = plan.blend_reported(group);
            let compose = group.spec.blend.compose;
            let is_inexpressible = {
                ||| compose == ComposeMode::Copy
                ||| compose == ComposeMode::Dest
                ||| compose == ComposeMode::DestOver
                ||| compose == ComposeMode::SrcIn
                ||| compose == ComposeMode::SrcOut
                ||| compose == ComposeMode::DestAtop
            };
            &&& after.commands == plan.commands
            &&& after.scratch == plan.scratch
            &&& after.targets.levels == plan.targets.levels
            &&& group.spec.blend.mix == MixMode::Normal && !is_inexpressible ==> after == plan
            &&& plan.targets.reported is None && group.spec.blend.mix != MixMode::Normal
                ==> after.targets.reported == Some(Notice::UnknownMix(group.spec.blend.mix))
            &&& plan.targets.reported is None && group.spec.blend.mix == MixMode::Normal
                && is_inexpressible ==> after.targets.reported == Some(
                Notice::UnknownCompose(compose),
            )
            &&& plan.targets.reported is Some ==> after.targets.reported == plan.targets.reported
        }),
{
}

/// A backdrop filter of a group that is not laid over what is underneath it, or
/// that lies on a window which cannot be read, is left out, and that is said;
/// of any other group neither is.
pub proof fn backdrops_that_are_left_out_are_reported(
    plan: PlanModel,
    group: IsolatedModel,
    filter: FilterModel,
    env: FrameEnvironment,
)
    requires
        plan.targets.reported is None,
    ensures
        ({
            let (after, backdrop) = plan.backdrop_prepared(group, filter, env);
            let compose = group.spec.blend.compose;
            let is_unreadable = group.parent.is_window && !env.drawable_is_readable;
            &&& compose != ComposeMode::SrcOver ==> backdrop is None && after.commands
                == plan.commands && after.targets.reported == Some(Notice::BackdropUnder(compose))
            &&& compose == ComposeMode::SrcOver && is_unreadable ==> backdrop is None
                && after.commands == plan.commands && after.targets.reported == Some(
                Notice::UnreadableDrawable,
            )
            &&& compose == ComposeMode::SrcOver && !is_unreadable && backdrop_rect(
                group,
                filter,
                env,
            ).encloses_nothing() ==> backdrop is None && after == plan
        }),
{
}

/// Something is said of a blur whose tail is longer than the ninety-six texels
/// that can be read on one side, with its deviation and how long the tail is;
/// of a shorter one nothing is.
pub proof fn coarse_blurs_are_reported(
    plan: PlanModel,
    rect: DeviceRect,
    from: FilterImage,
    sigma: i64,
    direction: Point<i64>,
    edge: FilterEdge,
)
    requires
        plan.targets.reported is None,
        plan.smeared(rect, from, sigma, direction, edge).1 is Some,
        0 < sigma <= 0x2000_0000_0000,
    ensures
        ({
            let said = plan.smeared(rect, from, sigma, direction, edge).0.targets.reported;
            &&& 3 * sigma <= 96 * ONE ==> said is None
            &&& 3 * sigma > 96 * ONE ==> (said matches Some(
                Notice::CoarseBlur { sigma: deviation, tail, stride },
            ) && deviation == sigma && (tail - 1) * ONE < 3 * sigma <= tail * ONE && (stride - 1)
                * 96 < tail <= stride * 96)
        }),
{
    assert(sigma * GAUSSIAN_BLUR_EXTENT == 3 * sigma) by (nonlinear_arith)
        requires
            GAUSSIAN_BLUR_EXTENT == 3,
    ;
}

/// The first thing that is said in a frame is what is kept, and a frame starts
/// with nothing said.
pub proof fn the_first_notice_is_kept(targets: TargetsModel, first: Notice, second: Notice)
    ensures
        targets.begun().reported is None,
        targets.begun().having_said(first).having_said(second).reported == Some(first),
        targets.having_said(first).levels == targets.levels,
{
}

/// The mask of what no clip applies to holds every point that a window may have,
/// and samples nothing.
pub proof fn no_clip_lets_everything_through(x: int, y: int)
    requires
        -0x3fff_ffff_ffff_ffff <= x <= 0x3fff_ffff_ffff_fffe,
        -0x3fff_ffff_ffff_ffff <= y <= 0x3fff_ffff_ffff_fffe,
    ensures
        ClipMask::everything().tile.holds(x, y),
        ClipMask::everything().sampled == 0,
{
}

/// A batch of paths carries each path's own: its content mask, its clip where
/// the batch is clipped, and its brush where it has one; a path without a brush
/// is told apart from one that has.
pub proof fn paths_carry_their_own(
    raster: PathRaster,
    paths: Seq<PathModel<ScaledPixels>>,
    clipped: bool,
    i: int,
)
    requires
        raster.rasterizes(paths, clipped),
        0 <= i < paths.len(),
    ensures
        raster.content_masks@.len() == paths.len(),
        raster.content_masks@[i] == paths[i].content_mask,
        clipped ==> raster.clip_ids@.len() == paths.len() && raster.clip_ids@[i]
            == paths[i].clip.0,
        !clipped ==> raster.clip_ids@.len() == 0,
        raster.brush_count == 0 || raster.brush_count == paths.len(),
        paths[i].brush matches Some(brush) ==> {
            &&& raster.brush_count == paths.len()
            &&& raster.brushes@.len() == paths.len()
            &&& raster.brushes@[i] == (PathBrushRecord { brush, enabled: 1 })
        },
        paths[i].brush is None && raster.brush_count > 0 ==> raster.brushes@[i].enabled == 0,
        raster.brushes@.len() > 0,
{
    if paths[i].brush is Some {
        assert(any_brushed(paths));
    }
}

/// A clip is counted as too deep for each of the first that nest eight deep or
/// more, and for no other.
pub proof fn clips_too_deep_are_counted(shapes: Seq<ShapeModel>, n: nat)
    requires
        0 < n <= shapes.len(),
        shape_holds(shapes, n - 1),
    ensures
        too_deep_of(shapes, 0) == 0,
        too_deep_of(shapes, n) == too_deep_of(shapes, (n - 1) as nat) + if shapes[n - 1].depth >= 8 {
            1int
        } else {
            0
        },
{
}

} // verus!
