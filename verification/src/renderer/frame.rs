//! The walk through a scene that decides what a frame draws into what.

use crate::fixed::{max, min, ONE};
use crate::geometry::{DevicePixels, Point, Size};
use crate::renderer::clip_plan::{
    device_of, is_reachable, lemma_meet_viewport, lemma_touched_reachable, meet, viewport_is_sane,
    viewport_of,
};
use crate::renderer::compose::{GroupComposeMode, GroupComposite, RenderTarget};
use crate::renderer::extent::{covering_rect, touched, DeviceRect, CLIP_COORDINATE_LIMIT};
use crate::renderer::filter_ops::{
    ops_view, steps_of, FilterEdge, FilterOp, GroupFilter, StepModel,
};
use crate::renderer::notice::Notice;
use crate::renderer::passes::{ActiveTarget, Command, CommandModel, FramePlan, PlanModel};
use crate::renderer::scratch::{as_size, FilterImage};
use crate::renderer::targets::{Texture, GROUP_TARGET_BUDGET_BYTES, MAX_GROUP_DEPTH};
use crate::scene::blend::MixMode;
use crate::scene::filter::{FilterModel, SceneFilter};
use crate::scene::group::{GroupModel, GroupSpec};
use vstd::prelude::*;

verus! {

/// What a frame is drawn under.
#[derive(Clone, Copy, Debug)]
pub struct FrameEnvironment {
    /// The size of the window.
    pub viewport: Size<DevicePixels>,
    /// Whether the frame's own target can be read back.
    pub drawable_is_readable: bool,
    /// Whether there are clip textures.
    pub has_clip_textures: bool,
    /// Whether there is an intermediate texture for paths.
    pub has_path_texture: bool,
}

/// Why a frame cannot be drawn.
#[derive(Clone, Copy, Debug, PartialEq, Eq, Structural)]
pub enum FrameError {
    /// The scene draws paths, and there is no texture to rasterize them into.
    MissingPathTexture,
}

/// A group whose target is being drawn into, and what it takes to lay its
/// picture down.
#[derive(Debug)]
pub struct IsolatedGroup<'a> {
    pub spec: &'a GroupSpec,
    /// The pixels of the window that the group covers.
    pub rect: DeviceRect,
    pub target: ActiveTarget,
    /// What the group is composited onto.
    pub parent: ActiveTarget,
}

/// An isolated group, as what it says.
pub struct IsolatedModel {
    pub spec: GroupModel,
    pub rect: DeviceRect,
    pub target: ActiveTarget,
    pub parent: ActiveTarget,
}

impl<'a> View for IsolatedGroup<'a> {
    type V = IsolatedModel;

    open spec fn view(&self) -> IsolatedModel {
        IsolatedModel {
            spec: self.spec@,
            rect: self.rect,
            target: self.target,
            parent: self.parent,
        }
    }
}

/// What compositing a group needs beside the group.
#[derive(Clone, Copy, Debug)]
pub struct PreparedGroup {
    /// The image that is laid down: the group's own target, or what the last
    /// pass of its filter wrote.
    pub source: FilterImage,
    /// The run of colour matrices that ends the filter, which the composite
    /// applies itself.
    pub filter: GroupFilter,
    pub backdrop: Option<PreparedBackdrop>,
}

/// What was underneath a group, and what its backdrop filter made of that.
#[derive(Clone, Copy, Debug)]
pub struct PreparedBackdrop {
    pub original: FilterImage,
    pub filtered: FilterImage,
}

/// A prepared group, as what it says.
pub struct PreparedModel {
    pub source: FilterImage,
    pub filter: Seq<[i64; 20]>,
    pub backdrop: Option<PreparedBackdrop>,
}

impl View for PreparedGroup {
    type V = PreparedModel;

    open spec fn view(&self) -> PreparedModel {
        PreparedModel { source: self.source, filter: self.filter@, backdrop: self.backdrop }
    }
}

/// The pixels of the window that a target covers.
pub open spec fn rect_of(target: RenderTarget) -> DeviceRect {
    DeviceRect {
        x: target.origin.x.0,
        y: target.origin.y.0,
        width: target.size.width.0,
        height: target.size.height.0,
    }
}

/// Whether a target's pixels are near enough to the origin.
pub open spec fn target_is_sane(target: ActiveTarget) -> bool {
    let r = rect_of(target.render_target);
    &&& -CLIP_COORDINATE_LIMIT <= r.x <= CLIP_COORDINATE_LIMIT
    &&& -CLIP_COORDINATE_LIMIT <= r.y <= CLIP_COORDINATE_LIMIT
    &&& -0x4000_0000 <= r.right() <= i32::MAX
    &&& -0x4000_0000 <= r.bottom() <= i32::MAX
}

impl IsolatedModel {
    pub open spec fn wf(self) -> bool {
        &&& is_reachable(self.rect)
        &&& !self.rect.encloses_nothing()
        &&& target_is_sane(self.target)
        &&& target_is_sane(self.parent)
        &&& self.target.render_target == placed(self.rect)
    }

    /// The image in the group's own target.
    pub open spec fn picture(self) -> FilterImage {
        FilterImage {
            texture: self.target.texture,
            texture_size: self.target.texture_size,
            rect: self.rect,
            slot: None,
        }
    }
}

/// A target that covers a rectangle of the window.
pub open spec fn placed(rect: DeviceRect) -> RenderTarget {
    RenderTarget {
        size: Size { width: DevicePixels(rect.width), height: DevicePixels(rect.height) },
        origin: Point { x: DevicePixels(rect.x), y: DevicePixels(rect.y) },
    }
}

/// The pixels of the window that a group covers.
pub open spec fn group_rect(spec: GroupModel, viewport: Size<DevicePixels>) -> DeviceRect {
    meet(device_of(touched(spec.bounds)), viewport_of(viewport))
}

/// The image with nothing to hand back.
pub open spec fn borrowed(image: FilterImage) -> FilterImage {
    FilterImage { slot: None, ..image }
}

/// The steps before the run of colour matrices that ends them, where one does.
pub open spec fn steps_before_colours(steps: Seq<StepModel>) -> Seq<StepModel> {
    if steps.len() > 0 && steps.last() is Matrices {
        steps.drop_last()
    } else {
        steps
    }
}

/// The run of colour matrices that ends the steps.
pub open spec fn last_colours(steps: Seq<StepModel>) -> Seq<[i64; 20]> {
    if steps.len() > 0 && steps.last() is Matrices {
        steps.last()->Matrices_0
    } else {
        Seq::empty()
    }
}

/// The pixels that a backdrop filter works from: as far past the group as it
/// reaches, within the target underneath and the window.
pub open spec fn backdrop_rect(
    group: IsolatedModel,
    filter: FilterModel,
    env: FrameEnvironment,
) -> DeviceRect {
    meet(
        meet(
            device_of(touched(filter.reach(group.rect.in_units()))),
            rect_of(group.parent.render_target),
        ),
        viewport_of(env.viewport),
    )
}

impl PlanModel {
    /// A group about to be pushed at `depth`, and its target: `None` where it
    /// is painted straight onto what is underneath.
    pub open spec fn group_opened(
        self,
        spec: GroupModel,
        parent: ActiveTarget,
        env: FrameEnvironment,
        depth: nat,
    ) -> (PlanModel, Option<IsolatedModel>) {
        let rect = group_rect(spec, env.viewport);
        if rect.encloses_nothing() {
            (self, None)
        } else if depth >= MAX_GROUP_DEPTH {
            (self.having_said(Notice::TooDeep), None)
        } else {
            let (targets, granted) = self.targets.acquired(
                depth,
                rect,
                GROUP_TARGET_BUDGET_BYTES,
                false,
            );
            let plan = PlanModel { targets, ..self };
            match granted {
                None => (plan, None),
                Some(extent) => (
                    plan,
                    Some(
                        IsolatedModel {
                            spec,
                            rect,
                            target: ActiveTarget {
                                texture: Texture::Group(depth as usize),
                                texture_size: as_size(extent),
                                render_target: placed(rect),
                                is_window: false,
                            },
                            parent,
                        },
                    ),
                ),
            }
        }
    }

    /// A group's backdrop filter: the copy of what is underneath the group, and
    /// what the filter makes of it.
    pub open spec fn backdrop_prepared(
        self,
        group: IsolatedModel,
        filter: FilterModel,
        env: FrameEnvironment,
    ) -> (PlanModel, Option<PreparedBackdrop>) {
        let rect = backdrop_rect(group, filter, env);
        if GroupComposeMode::expressing(group.spec.blend.compose) != Some(
            GroupComposeMode::SrcOver,
        ) {
            (self.having_said(Notice::BackdropUnder(group.spec.blend.compose)), None)
        } else if !env.drawable_is_readable && group.parent.is_window {
            (self.having_said(Notice::UnreadableDrawable), None)
        } else if rect.encloses_nothing() {
            (self, None)
        } else {
            let (plan, image) = self.acquired(rect);
            match image {
                None => (plan, None),
                Some(original) => {
                    let parent = rect_of(group.parent.render_target);
                    let copied = plan.emitted(
                        CommandModel::CopyBackdrop {
                            from: group.parent.texture,
                            origin: Point {
                                x: (rect.x - parent.x) as i32,
                                y: (rect.y - parent.y) as i32,
                            },
                            to: original,
                        },
                    );
                    let (after, filtered) = copied.filtered(
                        steps_of(filter),
                        borrowed(original),
                        FilterEdge::Clamp,
                    );
                    (after, Some(PreparedBackdrop { original, filtered }))
                },
            }
        }
    }

    /// Everything that a group's filters ask for, before it is composited.
    pub open spec fn group_prepared(self, group: IsolatedModel, env: FrameEnvironment) -> (
        PlanModel,
        PreparedModel,
    ) {
        let (plan, source, colours) = match group.spec.filter {
            None => (self, group.picture(), Seq::empty()),
            Some(filter) => {
                let steps = steps_of(filter);
                let (plan, source) = self.filtered(
                    steps_before_colours(steps),
                    group.picture(),
                    FilterEdge::Transparent,
                );
                (plan, source, last_colours(steps))
            },
        };
        let (after, backdrop) = match group.spec.backdrop_filter {
            None => (plan, None),
            Some(filter) => plan.backdrop_prepared(group, filter, env),
        };
        (after, PreparedModel { source, filter: colours, backdrop })
    }

    /// What is said of the blend and the operator that a group asks for.
    pub open spec fn blend_reported(self, group: IsolatedModel) -> PlanModel {
        let mixed = if group.spec.blend.mix != MixMode::Normal {
            self.having_said(Notice::UnknownMix(group.spec.blend.mix))
        } else {
            self
        };
        if GroupComposeMode::expressing(group.spec.blend.compose) is None {
            mixed.having_said(Notice::UnknownCompose(group.spec.blend.compose))
        } else {
            mixed
        }
    }

    /// A finished group laid on the target underneath it.
    pub open spec fn group_composited(
        self,
        group: IsolatedModel,
        prepared: PreparedModel,
        env: FrameEnvironment,
    ) -> PlanModel {
        self.blend_reported(group).emitted(composite_of(group, prepared, env))
    }

    /// The working textures of a prepared group given back.
    pub open spec fn prepared_released(self, prepared: PreparedModel) -> PlanModel {
        let plan = self.released(prepared.source);
        match prepared.backdrop {
            None => plan,
            Some(backdrop) => plan.released(backdrop.original).released(backdrop.filtered),
        }
    }
}

/// The command that lays a group's picture down.
pub open spec fn composite_of(
    group: IsolatedModel,
    prepared: PreparedModel,
    env: FrameEnvironment,
) -> CommandModel {
    let rect = match prepared.backdrop {
        None => DeviceRect::nothing(),
        Some(backdrop) => backdrop.original.rect,
    };
    CommandModel::Composite {
        compose: match GroupComposeMode::expressing(group.spec.blend.compose) {
            Some(compose) => compose,
            None => GroupComposeMode::SrcOver,
        },
        clipped: group.spec.clip.clips() && env.has_clip_textures,
        composite: GroupComposite {
            bounds: group.rect.as_box(),
            texture_size: prepared.source.texture_size,
            clip: group.spec.clip,
            opacity: max(0, min(group.spec.opacity as int, ONE as int)) as i64,
            backdrop_origin: placed(rect).origin,
            backdrop_size: placed(rect).size,
        },
        filter: prepared.filter,
        source: prepared.source.texture,
        backdrop: match prepared.backdrop {
            None => None,
            Some(backdrop) => Some((backdrop.original.texture, backdrop.filtered.texture)),
        },
    }
}

fn backdrop_area(group: &IsolatedGroup<'_>, filter: &SceneFilter, env: &FrameEnvironment) -> (r:
    DeviceRect)
    requires
        group@.wf(),
        viewport_is_sane(env.viewport),
    ensures
        r == backdrop_rect(group@, filter.model(), *env),
        is_reachable(r),
{
    let under = group.parent.render_target;
    let parent = DeviceRect {
        x: under.origin.x.0,
        y: under.origin.y.0,
        width: under.size.width.0,
        height: under.size.height.0,
    };
    let viewport = DeviceRect {
        x: 0,
        y: 0,
        width: env.viewport.width.0,
        height: env.viewport.height.0,
    };
    let reached = filter.painted_bounds(group.rect.bounds());
    proof {
        lemma_touched_reachable(reached@);
    }
    let wanted = covering_rect(&reached);
    assert(wanted == device_of(touched(reached@)));
    let inside = wanted.intersect(&parent);
    proof {
        assert(inside == meet(wanted, parent));
        lemma_meet_viewport(inside, env.viewport);
    }
    let rect = inside.intersect(&viewport);
    rect
}

impl FramePlan {
    pub(crate) fn open_group<'a>(
        &mut self,
        spec: &'a GroupSpec,
        parent: &ActiveTarget,
        env: &FrameEnvironment,
        depth: usize,
    ) -> (r: Option<IsolatedGroup<'a>>)
        requires
            old(self)@.wf(),
            target_is_sane(*parent),
            viewport_is_sane(env.viewport),
        ensures
            final(self)@ == old(self)@.group_opened(spec@, *parent, *env, depth as nat).0,
            final(self)@.wf(),
            match r {
                None => old(self)@.group_opened(spec@, *parent, *env, depth as nat).1 is None,
                Some(group) => {
                    &&& old(self)@.group_opened(spec@, *parent, *env, depth as nat).1 == Some(
                        group@,
                    )
                    &&& group@.wf()
                },
            },
    {
        let viewport = DeviceRect {
            x: 0,
            y: 0,
            width: env.viewport.width.0,
            height: env.viewport.height.0,
        };
        proof {
            lemma_touched_reachable(spec@.bounds);
            lemma_meet_viewport(device_of(touched(spec@.bounds)), env.viewport);
        }
        let rect = covering_rect(&spec.bounds).intersect(&viewport);
        assert(rect == group_rect(spec@, env.viewport));
        if rect.is_empty() {
            return None;
        }
        if depth >= MAX_GROUP_DEPTH {
            self.report(Notice::TooDeep);
            return None;
        }
        match self.targets.acquire(depth, rect, GROUP_TARGET_BUDGET_BYTES, false) {
            None => None,
            Some(extent) => {
                let target = ActiveTarget {
                    texture: Texture::Group(depth),
                    texture_size: Size {
                        width: DevicePixels(extent.width),
                        height: DevicePixels(extent.height),
                    },
                    render_target: RenderTarget {
                        size: Size {
                            width: DevicePixels(rect.width),
                            height: DevicePixels(rect.height),
                        },
                        origin: Point { x: DevicePixels(rect.x), y: DevicePixels(rect.y) },
                    },
                    is_window: false,
                };
                Some(IsolatedGroup { spec, rect, target, parent: *parent })
            },
        }
    }

    fn prepare_backdrop(
        &mut self,
        group: &IsolatedGroup<'_>,
        filter: &SceneFilter,
        env: &FrameEnvironment,
    ) -> (r: Option<PreparedBackdrop>)
        requires
            old(self)@.wf(),
            group@.wf(),
            viewport_is_sane(env.viewport),
        ensures
            (final(self)@, r) == old(self)@.backdrop_prepared(group@, filter.model(), *env),
            final(self)@.wf(),
            r matches Some(backdrop) ==> backdrop.original.wf() && backdrop.filtered.wf(),
    {
        let compose = group.spec.blend.compose;
        let over = match GroupComposeMode::of(compose) {
            Some(GroupComposeMode::SrcOver) => true,
            _ => false,
        };
        if !over {
            self.report(Notice::BackdropUnder(compose));
            return None;
        }
        if !env.drawable_is_readable && group.parent.is_window {
            self.report(Notice::UnreadableDrawable);
            return None;
        }
        let rect = backdrop_area(group, filter, env);
        let under = group.parent.render_target.origin;
        if rect.is_empty() {
            return None;
        }
        match self.scratch.acquire(rect) {
            None => None,
            Some(original) => {
                self.emit(
                    Command::CopyBackdrop {
                        from: group.parent.texture,
                        origin: Point { x: rect.x - under.x.0, y: rect.y - under.y.0 },
                        to: original,
                    },
                );
                let mut lent = original;
                lent.slot = None;
                let ops = FilterOp::flatten(filter);
                assert(ops_view(ops@).take(ops@.len() as int) =~= ops_view(ops@));
                let filtered = self.run_filter_ops(&ops, ops.len(), lent, FilterEdge::Clamp);
                Some(PreparedBackdrop { original, filtered })
            },
        }
    }

    pub(crate) fn prepare_group(&mut self, group: &IsolatedGroup<'_>, env: &FrameEnvironment) -> (r:
        PreparedGroup)
        requires
            old(self)@.wf(),
            group@.wf(),
            viewport_is_sane(env.viewport),
        ensures
            (final(self)@, r@) == old(self)@.group_prepared(group@, *env),
            final(self)@.wf(),
            r.source.wf(),
            r.backdrop matches Some(backdrop) ==> backdrop.original.wf() && backdrop.filtered.wf(),
    {
        let mut source = FilterImage {
            texture: group.target.texture,
            texture_size: group.target.texture_size,
            rect: group.rect,
            slot: None,
        };
        let mut colours = GroupFilter::none();
        if let Some(filter) = &group.spec.filter {
            let ops = FilterOp::flatten(filter);
            let ghost steps = ops_view(ops@);
            let mut count: usize = ops.len();
            if count > 0 {
                assert(steps.last() == ops@[count - 1]@);
                if let FilterOp::Matrices(matrices) = ops[count - 1] {
                    colours = matrices;
                    count -= 1;
                    assert(steps.drop_last() =~= steps.take(count as int));
                } else {
                    assert(steps.take(count as int) =~= steps);
                }
            } else {
                assert(steps.take(count as int) =~= steps);
            }
            source = self.run_filter_ops(&ops, count, source, FilterEdge::Transparent);
        }
        let mut backdrop: Option<PreparedBackdrop> = None;
        if let Some(filter) = &group.spec.backdrop_filter {
            backdrop = self.prepare_backdrop(group, filter, env);
        }
        PreparedGroup { source, filter: colours, backdrop }
    }

    pub(crate) fn composite_group(
        &mut self,
        group: &IsolatedGroup<'_>,
        prepared: &PreparedGroup,
        env: &FrameEnvironment,
    )
        requires
            old(self)@.wf(),
            group@.wf(),
        ensures
            final(self)@ == old(self)@.group_composited(group@, prepared@, *env),
            final(self)@.wf(),
    {
        let blend = group.spec.blend;
        let plain = match blend.mix {
            MixMode::Normal => true,
            _ => false,
        };
        if !plain {
            self.report(Notice::UnknownMix(blend.mix));
        }
        let compose = match GroupComposeMode::of(blend.compose) {
            Some(compose) => compose,
            None => {
                self.report(Notice::UnknownCompose(blend.compose));
                GroupComposeMode::SrcOver
            },
        };
        assert(self@ == old(self)@.blend_reported(group@));
        let rect = match prepared.backdrop {
            None => DeviceRect::empty(),
            Some(backdrop) => backdrop.original.rect,
        };
        let opacity: i64 = if group.spec.opacity < 0 {
            0
        } else if group.spec.opacity > ONE {
            ONE
        } else {
            group.spec.opacity
        };
        let composite = GroupComposite {
            bounds: group.rect.bounds(),
            texture_size: prepared.source.texture_size,
            clip: group.spec.clip,
            opacity,
            backdrop_origin: Point { x: DevicePixels(rect.x), y: DevicePixels(rect.y) },
            backdrop_size: Size {
                width: DevicePixels(rect.width),
                height: DevicePixels(rect.height),
            },
        };
        let backdrop = match prepared.backdrop {
            None => None,
            Some(backdrop) => Some((backdrop.original.texture, backdrop.filtered.texture)),
        };
        self.emit(
            Command::Composite {
                compose,
                clipped: group.spec.clip.is_clipped() && env.has_clip_textures,
                composite,
                filter: prepared.filter,
                source: prepared.source.texture,
                backdrop,
            },
        );
    }

    pub(crate) fn release_prepared(&mut self, prepared: &PreparedGroup)
        requires
            old(self)@.wf(),
            prepared.source.wf(),
            prepared.backdrop matches Some(backdrop) ==> backdrop.original.wf()
                && backdrop.filtered.wf(),
        ensures
            final(self)@ == old(self)@.prepared_released(prepared@),
            final(self)@.wf(),
    {
        self.release(&prepared.source);
        if let Some(backdrop) = &prepared.backdrop {
            self.release(&backdrop.original);
            self.release(&backdrop.filtered);
        }
    }
}

} // verus!
