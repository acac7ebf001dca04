//! The walk through a scene that decides what a frame draws into what.

use crate::geometry::{DevicePixels, Size};
use crate::renderer::clip_plan::viewport_is_sane;
use crate::renderer::compose::RenderTarget;
use crate::renderer::frame::{
    target_is_sane, FrameEnvironment, FrameError, IsolatedGroup, IsolatedModel,
};
use crate::renderer::passes::{ActiveTarget, Clear, Command, CommandModel, FramePlan, PlanModel};
use crate::renderer::scratch::{FilterScratch, ScratchModel};
use crate::renderer::targets::{
    frames_keep_targets_to_their_budget, GroupTargets, TargetsModel, Texture, FILTER_SCRATCH_BUDGET_BYTES,
    GROUP_TARGET_BUDGET_BYTES,
};
use crate::scene::batch::{
    batches_of, is_within, left_over, lemma_next_batch, lemma_run_is_within, BatchIterator,
    BatchModel, PrimitiveBatch,
};
use crate::scene::group::GroupModel;
use crate::scene::model::{Arrays, RunModel, SceneModel, SceneStepRecord};
use crate::scene::recording::{segment_view, Scene, SceneStep};
use crate::scene::segment::{PrimitiveKind, Segment};
use crate::scene::soundness::depth_after;
use vstd::prelude::*;

verus! {

/// The frame's own target.
pub open spec fn window_target(viewport: Size<DevicePixels>) -> ActiveTarget {
    ActiveTarget {
        texture: Texture::Window,
        texture_size: viewport,
        render_target: RenderTarget::covering(viewport),
        is_window: true,
    }
}

/// A walk through a scene: the plan so far, the target that is being drawn
/// into, and the groups that are open, with `None` for one that is painted
/// without a target of its own.
#[verifier::ext_equal]
pub struct WalkModel {
    pub plan: PlanModel,
    pub target: ActiveTarget,
    pub open: Seq<Option<IsolatedModel>>,
    /// Whether the frame has been given up.
    pub failed: bool,
}

/// Whether a batch's primitives are clipped to a path.
pub open spec fn batch_is_clipped(arrays: Arrays, batch: BatchModel) -> bool {
    arrays.draws(batch.kind)[batch.start].clipped
}

impl PlanModel {
    /// The plan at the start of a frame.
    pub open spec fn begun(self, viewport: Size<DevicePixels>) -> PlanModel {
        PlanModel {
            targets: self.targets.begun(),
            scratch: self.scratch.begun(),
            commands: seq![
                CommandModel::BeginPass {
                    target: window_target(viewport),
                    clear: Clear::Window,
                },
            ],
        }
    }

    /// One batch drawn into `target`. Paths are rasterized elsewhere first, in
    /// a pass of their own.
    pub open spec fn batch_drawn(
        self,
        arrays: Arrays,
        batch: BatchModel,
        target: ActiveTarget,
        env: FrameEnvironment,
    ) -> PlanModel {
        let clipped = batch_is_clipped(arrays, batch);
        if batch.kind != PrimitiveKind::Path {
            self.emitted(CommandModel::Draw { batch, clipped })
        } else if !env.has_path_texture {
            self.emitted(CommandModel::EndPass)
        } else {
            self.emitted(CommandModel::EndPass).emitted(
                CommandModel::RasterizePaths { start: batch.start, end: batch.end, clipped },
            ).emitted(CommandModel::BeginPass { target, clear: Clear::Keep }).emitted(
                CommandModel::CopyPaths { start: batch.start, end: batch.end },
            )
        }
    }

    /// The first `n` batches drawn into `target`, and whether the frame was
    /// given up.
    pub open spec fn batches_drawn(
        self,
        arrays: Arrays,
        batches: Seq<BatchModel>,
        n: nat,
        target: ActiveTarget,
        env: FrameEnvironment,
    ) -> (PlanModel, bool)
        decreases n,
    {
        if n == 0 {
            (self, false)
        } else {
            let (plan, failed) = self.batches_drawn(arrays, batches, (n - 1) as nat, target, env);
            if failed {
                (plan, true)
            } else {
                let batch = batches[n - 1];
                (
                    plan.batch_drawn(arrays, batch, target, env),
                    batch.kind == PrimitiveKind::Path && !env.has_path_texture,
                )
            }
        }
    }
}

impl WalkModel {
    pub open spec fn begun(plan: PlanModel, env: FrameEnvironment) -> WalkModel {
        WalkModel {
            plan: plan.begun(env.viewport),
            target: window_target(env.viewport),
            open: Seq::empty(),
            failed: false,
        }
    }

    /// The walk past the start of a group.
    pub open spec fn group_pushed(self, spec: GroupModel, env: FrameEnvironment) -> WalkModel {
        let (plan, opened) = self.plan.group_opened(spec, self.target, env, self.open.len());
        match opened {
            None => WalkModel { plan, open: self.open.push(None), ..self },
            Some(group) => WalkModel {
                plan: plan.emitted(CommandModel::EndPass).emitted(
                    CommandModel::BeginPass { target: group.target, clear: Clear::Transparent },
                ),
                target: group.target,
                open: self.open.push(Some(group)),
                ..self
            },
        }
    }

    /// The walk past the end of the innermost group.
    pub open spec fn group_popped(self, env: FrameEnvironment) -> WalkModel {
        match self.open.last() {
            None => WalkModel { open: self.open.drop_last(), ..self },
            Some(group) => {
                let (plan, prepared) = self.plan.emitted(CommandModel::EndPass).group_prepared(
                    group,
                    env,
                );
                WalkModel {
                    plan: plan.emitted(
                        CommandModel::BeginPass { target: group.parent, clear: Clear::Keep },
                    ).group_composited(group, prepared, env).prepared_released(prepared),
                    target: group.parent,
                    open: self.open.drop_last(),
                    ..self
                }
            },
        }
    }

    /// The walk past a run of primitives.
    pub open spec fn run_drawn(self, arrays: Arrays, run: RunModel, env: FrameEnvironment) -> WalkModel {
        let batches = batches_of(arrays, run);
        let (plan, failed) = self.plan.batches_drawn(
            arrays,
            batches,
            batches.len(),
            self.target,
            env,
        );
        WalkModel { plan, failed, ..self }
    }

    /// The walk past the `i`th step of a scene.
    pub open spec fn stepped(self, scene: SceneModel, i: int, env: FrameEnvironment) -> WalkModel {
        if self.failed {
            self
        } else {
            match scene.steps[i] {
                SceneStepRecord::Run(id) => self.run_drawn(
                    scene.arrays,
                    scene.segments[id.0 as int],
                    env,
                ),
                SceneStepRecord::PushGroup(id) => self.group_pushed(
                    scene.groups[id.0 as int],
                    env,
                ),
                SceneStepRecord::PopGroup => self.group_popped(env),
            }
        }
    }

    /// The walk past the first `n` steps of a scene.
    pub open spec fn walked(self, scene: SceneModel, n: nat, env: FrameEnvironment) -> WalkModel
        decreases n,
    {
        if n == 0 {
            self
        } else {
            self.walked(scene, (n - 1) as nat, env).stepped(scene, n - 1, env)
        }
    }

    /// The walk's end.
    pub open spec fn ended(self) -> WalkModel {
        if self.failed {
            self
        } else {
            WalkModel { plan: self.plan.emitted(CommandModel::EndPass), ..self }
        }
    }
}

/// The walk through a whole scene.
pub open spec fn frame_of(plan: PlanModel, scene: SceneModel, env: FrameEnvironment) -> WalkModel {
    WalkModel::begun(plan, env).walked(scene, scene.steps.len(), env).ended()
}

pub open spec fn open_views(open: Seq<Option<IsolatedGroup<'_>>>) -> Seq<Option<IsolatedModel>> {
    open.map_values(
        |group: Option<IsolatedGroup<'_>>|
            match group {
                None => None,
                Some(group) => Some(group@),
            },
    )
}

pub open spec fn groups_are_sane(open: Seq<Option<IsolatedModel>>) -> bool {
    forall|i: int|
        0 <= i < open.len() ==> ((#[trigger] open[i]) matches Some(group) ==> group.wf())
}

proof fn lemma_failure_lasts(
    walk: WalkModel,
    scene: SceneModel,
    n: nat,
    m: nat,
    env: FrameEnvironment,
)
    requires
        n <= m,
        walk.walked(scene, n, env).failed,
    ensures
        walk.walked(scene, m, env) == walk.walked(scene, n, env),
    decreases m,
{
    if n < m {
        lemma_failure_lasts(walk, scene, n, (m - 1) as nat, env);
    }
}

proof fn lemma_drawing_failure_lasts(
    plan: PlanModel,
    arrays: Arrays,
    batches: Seq<BatchModel>,
    n: nat,
    m: nat,
    target: ActiveTarget,
    env: FrameEnvironment,
)
    requires
        n <= m,
        plan.batches_drawn(arrays, batches, n, target, env).1,
    ensures
        plan.batches_drawn(arrays, batches, m, target, env) == plan.batches_drawn(
            arrays,
            batches,
            n,
            target,
            env,
        ),
    decreases m,
{
    if n < m {
        lemma_drawing_failure_lasts(plan, arrays, batches, n, (m - 1) as nat, target, env);
    }
}

fn is_clipped(scene: &Scene, batch: &PrimitiveBatch) -> (r: bool)
    requires
        0 <= batch@.start < scene@.arrays.marks().at(batch@.kind),
    ensures
        r == batch_is_clipped(scene@.arrays, batch@),
{
    match batch {
        PrimitiveBatch::Shadows(range) => scene.shadows[range.start].clip.is_clipped(),
        PrimitiveBatch::Quads(range) => scene.quads[range.start].clip.is_clipped(),
        PrimitiveBatch::Paths(range) => scene.paths[range.start].clip.is_clipped(),
        PrimitiveBatch::Underlines(range) => scene.underlines[range.start].clip.is_clipped(),
        PrimitiveBatch::MonochromeSprites { range, .. } => {
            scene.monochrome_sprites[range.start].clip.is_clipped()
        },
        PrimitiveBatch::SubpixelSprites { range, .. } => {
            scene.subpixel_sprites[range.start].clip.is_clipped()
        },
        PrimitiveBatch::PolychromeSprites { range, .. } => {
            scene.polychrome_sprites[range.start].clip.is_clipped()
        },
        PrimitiveBatch::Surfaces(range) => scene.surfaces[range.start].clip.is_clipped(),
    }
}

fn paths_of(batch: &PrimitiveBatch) -> (r: Option<(usize, usize)>)
    ensures
        match r {
            None => batch@.kind != PrimitiveKind::Path,
            Some((start, end)) => batch@.kind == PrimitiveKind::Path && start == batch@.start && end
                == batch@.end,
        },
{
    match batch {
        PrimitiveBatch::Paths(range) => Some((range.start, range.end)),
        _ => None,
    }
}

impl FramePlan {
    fn draw_batch(
        &mut self,
        scene: &Scene,
        batch: PrimitiveBatch,
        target: &ActiveTarget,
        env: &FrameEnvironment,
    ) -> (r: bool)
        requires
            old(self)@.wf(),
            0 <= batch@.start < scene@.arrays.marks().at(batch@.kind),
        ensures
            final(self)@ == old(self)@.batch_drawn(scene@.arrays, batch@, *target, *env),
            final(self)@.wf(),
            r == (batch@.kind != PrimitiveKind::Path || env.has_path_texture),
    {
        let clipped = is_clipped(scene, &batch);
        match paths_of(&batch) {
            None => {
                self.emit(Command::Draw { batch, clipped });
                true
            },
            Some((start, end)) => {
                self.emit(Command::EndPass);
                if !env.has_path_texture {
                    return false;
                }
                self.emit(Command::RasterizePaths { paths: start..end, clipped });
                self.emit(Command::BeginPass { target: *target, clear: Clear::Keep });
                self.emit(Command::CopyPaths { paths: start..end });
                true
            },
        }
    }

    fn draw_run(
        &mut self,
        scene: &Scene,
        run: &Segment,
        target: &ActiveTarget,
        env: &FrameEnvironment,
    ) -> (r: bool)
        requires
            old(self)@.wf(),
            is_within(scene@.arrays, segment_view(*run)),
        ensures
            ({
                let batches = batches_of(scene@.arrays, segment_view(*run));
                (final(self)@, !r) == old(self)@.batches_drawn(
                    scene@.arrays,
                    batches,
                    batches.len(),
                    *target,
                    *env,
                )
            }),
            final(self)@.wf(),
    {
        let mut iterator = BatchIterator::over(scene, run);
        let ghost arrays = scene@.arrays;
        let ghost all = batches_of(arrays, segment_view(*run));
        let ghost plan = self@;
        let ghost mut drawn: nat = 0;
        assert(all.skip(0) =~= all);
        loop
            invariant_except_break
                all.skip(drawn as int) == batches_of(arrays, segment_view(iterator.rest)),
                drawn <= all.len(),
            invariant
                self@.wf(),
                arrays == scene@.arrays,
                iterator.wf(),
                iterator.scene == scene,
                all == batches_of(arrays, segment_view(*run)),
                plan == old(self)@,
                (self@, false) == plan.batches_drawn(arrays, all, drawn, *target, *env),
            ensures
                drawn == all.len(),
            decreases left_over(segment_view(iterator.rest)),
        {
            let ghost rest = segment_view(iterator.rest);
            match iterator.next() {
                None => {
                    assert(all.skip(drawn as int).len() == 0);
                    break;
                },
                Some(batch) => {
                    proof {
                        lemma_next_batch(arrays, rest);
                        let after = segment_view(iterator.rest);
                        assert(all.skip(drawn as int)[0] == batch@);
                        assert(all[drawn as int] == batch@);
                        assert(all.skip(drawn as int + 1) =~= batches_of(arrays, after)) by {
                            let now = all.skip(drawn as int);
                            assert(now == seq![batch@] + batches_of(arrays, after));
                            assert(all.skip(drawn as int + 1) =~= now.skip(1));
                            assert(now.skip(1) =~= batches_of(arrays, after));
                        }
                    }
                    let kept = self.draw_batch(scene, batch, target, env);
                    proof {
                        drawn = drawn + 1;
                    }
                    if !kept {
                        proof {
                            lemma_drawing_failure_lasts(
                                plan,
                                arrays,
                                all,
                                drawn,
                                all.len(),
                                *target,
                                *env,
                            );
                        }
                        return false;
                    }
                },
            }
        }
        true
    }

    /// Plan a frame: what the scene draws, into what, and in which order.
    ///
    /// The scene is walked as steps, so that a group boundary can end one pass
    /// and begin another. The scene may hold no subpixel sprites, which this
    /// renderer has no way to draw.
    pub fn draw_scene(&mut self, scene: &Scene, env: &FrameEnvironment) -> (r: Result<
        (),
        FrameError,
    >)
        requires
            old(self)@.targets.wf(GROUP_TARGET_BUDGET_BYTES as int),
            old(self)@.scratch.targets.wf(FILTER_SCRATCH_BUDGET_BYTES as int),
            scene@.wf(),
            scene@.arrays.subpixel_sprites.len() == 0,
            viewport_is_sane(env.viewport),
        ensures
            final(self)@ == frame_of(old(self)@, scene@, *env).plan,
            r == if frame_of(old(self)@, scene@, *env).failed {
                Err::<(), FrameError>(FrameError::MissingPathTexture)
            } else {
                Ok(())
            },
            final(self)@.wf(),
    {
        let ghost begun = WalkModel::begun(self@, *env);
        proof {
            frames_keep_targets_to_their_budget(
                self@.targets,
                GROUP_TARGET_BUDGET_BYTES as int,
            );
            frames_keep_targets_to_their_budget(
                self@.scratch.targets,
                FILTER_SCRATCH_BUDGET_BYTES as int,
            );
        }
        self.targets.begin_frame();
        self.scratch.begin_frame();
        let mut target = ActiveTarget {
            texture: Texture::Window,
            texture_size: env.viewport,
            render_target: RenderTarget::whole(env.viewport),
            is_window: true,
        };
        self.commands = Vec::new();
        assert(self@.commands =~= Seq::<CommandModel>::empty());
        self.emit(Command::BeginPass { target, clear: Clear::Window });
        assert(self@.commands =~= begun.plan.commands);
        let mut open: Vec<Option<IsolatedGroup<'_>>> = Vec::new();
        assert(open_views(open@) =~= Seq::<Option<IsolatedModel>>::empty());
        let steps = scene.steps();
        let mut index: usize = 0;
        proof {
            reveal(SceneModel::wf);
            assert(scene@.steps.take(0) =~= Seq::<SceneStepRecord>::empty());
        }
        while index < steps.len()
            invariant
                self@.wf(),
                scene@.wf(),
                viewport_is_sane(env.viewport),
                begun == WalkModel::begun(old(self)@, *env),
                index <= steps@.len(),
                steps@.len() == scene@.steps.len(),
                forall|i: int|
                    0 <= i < steps@.len() ==> #[trigger] steps@[i] == match scene@.steps[i] {
                        SceneStepRecord::Run(id) => SceneStep::Run(&scene.segments@[id.0 as int]),
                        SceneStepRecord::PushGroup(id) => SceneStep::PushGroup(
                            &scene.groups@[id.0 as int],
                        ),
                        SceneStepRecord::PopGroup => SceneStep::PopGroup,
                    },
                target_is_sane(target),
                groups_are_sane(open_views(open@)),
                open@.len() == depth_after(scene@.steps.take(index as int)),
                begun.walked(scene@, index as nat, *env) == (WalkModel {
                    plan: self@,
                    target,
                    open: open_views(open@),
                    failed: false,
                }),
            decreases steps@.len() - index,
        {
            let ghost walk = begun.walked(scene@, index as nat, *env);
            let ghost before = open_views(open@);
            proof {
                lemma_step(scene@, index as int);
                assert(begun.walked(scene@, (index + 1) as nat, *env) == walk.stepped(
                    scene@,
                    index as int,
                    *env,
                ));
            }
            match &steps[index] {
                SceneStep::PushGroup(spec) => {
                    proof {
                        let id = scene@.steps[index as int]->PushGroup_0;
                        assert(scene@.groups[id.0 as int] == spec@);
                    }
                    match self.open_group(spec, &target, env, open.len()) {
                        Some(group) => {
                            self.emit(Command::EndPass);
                            target = group.target;
                            self.emit(Command::BeginPass { target, clear: Clear::Transparent });
                            open.push(Some(group));
                            assert(open_views(open@) =~= before.push(Some(group@)));
                        },
                        None => {
                            open.push(None);
                            assert(open_views(open@) =~= before.push(None));
                        },
                    }
                },
                SceneStep::PopGroup => {
                    let ghost groups = open@;
                    let popped = open.pop();
                    assert(open_views(open@) =~= before.drop_last());
                    assert(before.last() == open_views(groups)[groups.len() - 1]);
                    assert(before[before.len() - 1] matches Some(group) ==> group.wf());
                    if let Some(Some(group)) = popped {
                        self.emit(Command::EndPass);
                        let prepared = self.prepare_group(&group, env);
                        target = group.parent;
                        self.emit(Command::BeginPass { target, clear: Clear::Keep });
                        self.composite_group(&group, &prepared, env);
                        self.release_prepared(&prepared);
                    }
                },
                SceneStep::Run(run) => {
                    proof {
                        let id = scene@.steps[index as int]->Run_0;
                        assert(scene@.segments[id.0 as int] == segment_view(**run));
                        lemma_run_is_within(scene@, id.0 as int);
                    }
                    if !self.draw_run(scene, run, &target, env) {
                        proof {
                            lemma_failure_lasts(
                                begun,
                                scene@,
                                (index + 1) as nat,
                                scene@.steps.len(),
                                *env,
                            );
                        }
                        return Err(FrameError::MissingPathTexture);
                    }
                },
            }
            index += 1;
        }
        self.emit(Command::EndPass);
        Ok(())
    }

    /// Take note of what the frame allocated and what it needed, once it has
    /// been drawn.
    pub fn end_frame(&mut self)
        requires
            old(self)@.wf(),
        ensures
            final(self)@ == (PlanModel {
                targets: old(self)@.targets.ended(),
                scratch: old(self)@.scratch.ended(),
                ..old(self)@
            }),
            final(self)@.targets.wf(GROUP_TARGET_BUDGET_BYTES as int),
            final(self)@.scratch.targets.wf(FILTER_SCRATCH_BUDGET_BYTES as int),
    {
        proof {
            frames_keep_targets_to_their_budget(
                self@.targets,
                GROUP_TARGET_BUDGET_BYTES as int,
            );
            frames_keep_targets_to_their_budget(
                self@.scratch.targets,
                FILTER_SCRATCH_BUDGET_BYTES as int,
            );
        }
        self.targets.end_frame();
        self.scratch.end_frame();
    }
}

impl Default for FramePlan {
    fn default() -> (r: Self)
        ensures
            r@.wf(),
            r@.commands == Seq::<CommandModel>::empty(),
            r@.targets == TargetsModel::empty(),
            r@.scratch == ScratchModel::empty(),
    {
        let plan = FramePlan {
            targets: GroupTargets::default(),
            scratch: FilterScratch::default(),
            commands: Vec::new(),
        };
        assert(plan@.commands =~= Seq::<CommandModel>::empty());
        plan
    }
}

/// What holds of one step of a scene.
proof fn lemma_step(scene: SceneModel, i: int)
    requires
        scene.wf(),
        0 <= i < scene.steps.len(),
    ensures
        depth_after(scene.steps.take(i + 1)) == depth_after(scene.steps.take(i))
            + match scene.steps[i] {
            SceneStepRecord::Run(_) => 0int,
            SceneStepRecord::PushGroup(_) => 1,
            SceneStepRecord::PopGroup => -1,
        },
        depth_after(scene.steps.take(i + 1)) >= 0,
        match scene.steps[i] {
            SceneStepRecord::Run(id) => id.0 < scene.segments.len(),
            SceneStepRecord::PushGroup(id) => id.0 < scene.groups.len(),
            SceneStepRecord::PopGroup => true,
        },
{
    reveal(SceneModel::wf);
    assert(scene.steps.take(i + 1).drop_last() =~= scene.steps.take(i));
    assert(scene.steps.take(i + 1).last() == scene.steps[i]);
}

} // verus!
