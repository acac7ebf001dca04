//! What holds of the walk through a scene.

use crate::renderer::frame::{composite_of, steps_before_colours, FrameEnvironment, IsolatedModel};
use crate::renderer::frame_laws::{is_offscreen, lemma_filters, lemma_prepares, reads_elsewhere};
use crate::renderer::passes::{ActiveTarget, Clear, CommandModel, PlanModel};
use crate::renderer::scratch::ScratchModel;
use crate::renderer::targets::{TargetsModel, Texture, MAX_GROUP_DEPTH};
use crate::renderer::walk::{batch_is_clipped, frame_of, window_target, WalkModel};
use crate::scene::batch::{
    batches_are_uniform, batches_of, batches_of_runs, batches_stay_in_the_run, is_within,
    lemma_run_is_within, BatchModel,
};
use crate::scene::group::GroupModel;
use crate::scene::model::{Arrays, RunModel, SceneModel, SceneStepRecord};
use crate::scene::segment::PrimitiveKind;
use crate::scene::soundness::{depth_after, runs_drawn};
use crate::renderer::filter_ops::steps_of;
use vstd::prelude::*;

verus! {

/// What a GPU is doing between two commands.
pub enum Encoder {
    /// Nothing is being drawn into.
    Closed,
    /// A target is being drawn into.
    Open(ActiveTarget),
    /// The commands were not in an order that can be followed.
    Misused,
}

impl Encoder {
    /// What a command leaves behind. A pass is not begun inside another; what
    /// is drawn is drawn inside one; work with passes of its own is done
    /// outside any; and a group's picture is not laid on itself.
    pub open spec fn after(self, command: CommandModel) -> Encoder {
        match command {
            CommandModel::BeginPass { target, .. } => if self is Closed {
                Encoder::Open(target)
            } else {
                Encoder::Misused
            },
            CommandModel::EndPass => if self is Open {
                Encoder::Closed
            } else {
                Encoder::Misused
            },
            CommandModel::Draw { .. } => if self is Open {
                self
            } else {
                Encoder::Misused
            },
            CommandModel::CopyPaths { .. } => if self is Open {
                self
            } else {
                Encoder::Misused
            },
            CommandModel::Composite { source, .. } => if self is Open && source
                != self->Open_0.texture {
                self
            } else {
                Encoder::Misused
            },
            CommandModel::RasterizePaths { .. } => if self is Closed {
                self
            } else {
                Encoder::Misused
            },
            CommandModel::Filter { .. } => if self is Closed && reads_elsewhere(command) {
                self
            } else {
                Encoder::Misused
            },
            CommandModel::CopyBackdrop { .. } => if self is Closed && reads_elsewhere(command) {
                self
            } else {
                Encoder::Misused
            },
        }
    }
}

/// What the commands leave behind.
pub open spec fn encoder_after(commands: Seq<CommandModel>) -> Encoder
    decreases commands.len(),
{
    if commands.len() == 0 {
        Encoder::Closed
    } else {
        encoder_after(commands.drop_last()).after(commands.last())
    }
}

/// The batches that the commands draw.
pub open spec fn drawn_by(commands: Seq<CommandModel>) -> Seq<BatchModel>
    decreases commands.len(),
{
    if commands.len() == 0 {
        Seq::empty()
    } else {
        let before = drawn_by(commands.drop_last());
        match commands.last() {
            CommandModel::Draw { batch, .. } => before.push(batch),
            CommandModel::RasterizePaths { start, end, .. } => before.push(
                BatchModel { kind: PrimitiveKind::Path, start, end, texture: None },
            ),
            _ => before,
        }
    }
}

/// The target of the innermost group that has one, or the window's.
pub open spec fn innermost(open: Seq<Option<IsolatedModel>>, window: ActiveTarget) -> ActiveTarget
    decreases open.len(),
{
    if open.len() == 0 {
        window
    } else {
        match open.last() {
            Some(group) => group.target,
            None => innermost(open.drop_last(), window),
        }
    }
}

/// Whether each open group has the target of its own depth, and is laid on that
/// of the group around it.
pub open spec fn groups_nest(open: Seq<Option<IsolatedModel>>, window: ActiveTarget) -> bool {
    forall|i: int|
        0 <= i < open.len() ==> ((#[trigger] open[i]) matches Some(group) ==> {
            &&& i < MAX_GROUP_DEPTH
            &&& group.target.texture == Texture::Group(i as usize)
            &&& group.parent == innermost(open.take(i), window)
        })
}

/// What holds of a walk.
pub open spec fn walk_holds(walk: WalkModel, env: FrameEnvironment) -> bool {
    &&& encoder_after(walk.plan.commands) == Encoder::Open(walk.target)
    &&& walk.plan.scratch.in_use == ScratchModel::all_free()
    &&& walk.target == innermost(walk.open, window_target(env.viewport))
    &&& groups_nest(walk.open, window_target(env.viewport))
}

proof fn lemma_encoder_emits(plan: PlanModel, command: CommandModel)
    ensures
        encoder_after(plan.emitted(command).commands) == encoder_after(plan.commands).after(
            command,
        ),
        drawn_by(plan.emitted(command).commands) == match command {
            CommandModel::Draw { batch, .. } => drawn_by(plan.commands).push(batch),
            CommandModel::RasterizePaths { start, end, .. } => drawn_by(plan.commands).push(
                BatchModel { kind: PrimitiveKind::Path, start, end, texture: None },
            ),
            _ => drawn_by(plan.commands),
        },
{
    assert(plan.commands.push(command).drop_last() =~= plan.commands);
}

proof fn lemma_encoder_goes_on(before: Seq<CommandModel>, after: Seq<CommandModel>)
    requires
        before.len() <= after.len(),
        after.take(before.len() as int) == before,
        forall|i: int| before.len() <= i < after.len() ==> is_offscreen(#[trigger] after[i]),
        encoder_after(before) is Closed,
    ensures
        encoder_after(after) is Closed,
        drawn_by(after) == drawn_by(before),
    decreases after.len(),
{
    if before.len() == after.len() {
        assert(after =~= before);
    } else {
        let rest = after.drop_last();
        assert(rest.take(before.len() as int) =~= after.take(before.len() as int));
        assert forall|i: int| before.len() <= i < rest.len() implies is_offscreen(
            #[trigger] rest[i],
        ) by {
            assert(rest[i] == after[i]);
        }
        lemma_encoder_goes_on(before, rest);
        assert(is_offscreen(after[after.len() - 1]));
    }
}

pub proof fn lemma_innermost_texture(
    open: Seq<Option<IsolatedModel>>,
    window: ActiveTarget,
)
    requires
        window.texture is Window,
        groups_nest(open, window),
    ensures
        innermost(open, window).texture is Window || (innermost(open, window).texture is Group
            && innermost(open, window).texture->Group_0 < open.len()),
    decreases open.len(),
{
    if open.len() > 0 {
        assert(open[open.len() - 1] == open.last());
        let rest = open.drop_last();
        lemma_nest_shrinks(open, window);
        lemma_innermost_texture(rest, window);
    }
}

pub proof fn lemma_nest_shrinks(open: Seq<Option<IsolatedModel>>, window: ActiveTarget)
    requires
        groups_nest(open, window),
        open.len() > 0,
    ensures
        groups_nest(open.drop_last(), window),
{
    let rest = open.drop_last();
    assert forall|i: int| 0 <= i < rest.len() implies ((
    #[trigger] rest[i]) matches Some(group) ==> {
        &&& i < MAX_GROUP_DEPTH
        &&& group.target.texture == Texture::Group(i as usize)
        &&& group.parent == innermost(rest.take(i), window)
    }) by {
        assert(rest[i] == open[i]);
        assert(rest.take(i) =~= open.take(i));
    }
}

proof fn lemma_batches(
    plan: PlanModel,
    arrays: Arrays,
    run: RunModel,
    n: nat,
    target: ActiveTarget,
    env: FrameEnvironment,
)
    requires
        is_within(arrays, run),
        n <= batches_of(arrays, run).len(),
        encoder_after(plan.commands) == Encoder::Open(target),
    ensures
        ({
            let all = batches_of(arrays, run);
            let (after, failed) = plan.batches_drawn(arrays, all, n, target, env);
            &&& after.scratch == plan.scratch
            &&& after.targets == plan.targets
            &&& !failed ==> encoder_after(after.commands) == Encoder::Open(target)
            &&& failed ==> encoder_after(after.commands) is Closed
            &&& !failed ==> drawn_by(after.commands) == drawn_by(plan.commands) + all.take(n as int)
        }),
    decreases n,
{
    let all = batches_of(arrays, run);
    if n == 0 {
        assert(drawn_by(plan.commands) + all.take(0) =~= drawn_by(plan.commands));
    } else {
        lemma_batches(plan, arrays, run, (n - 1) as nat, target, env);
        let (before, failed) = plan.batches_drawn(arrays, all, (n - 1) as nat, target, env);
        if !failed {
            let batch = all[n - 1];
            batches_stay_in_the_run(arrays, run, n - 1);
            batches_are_uniform(arrays, run, n - 1, batch.start);
            let clipped = batch_is_clipped(arrays, batch);
            assert(drawn_by(before.commands).push(batch) =~= drawn_by(plan.commands) + all.take(
                n as int,
            ));
            if batch.kind != PrimitiveKind::Path {
                lemma_encoder_emits(before, CommandModel::Draw { batch, clipped });
            } else {
                let ended = before.emitted(CommandModel::EndPass);
                lemma_encoder_emits(before, CommandModel::EndPass);
                let rasterize = CommandModel::RasterizePaths {
                    start: batch.start,
                    end: batch.end,
                    clipped,
                };
                lemma_encoder_emits(ended, rasterize);
                let rasterized = ended.emitted(rasterize);
                let begin = CommandModel::BeginPass { target, clear: Clear::Keep };
                lemma_encoder_emits(rasterized, begin);
                let begun = rasterized.emitted(begin);
                let copy = CommandModel::CopyPaths { start: batch.start, end: batch.end };
                lemma_encoder_emits(begun, copy);
                assert(batch.texture == arrays.draws(PrimitiveKind::Path)[batch.start].texture);
                assert(arrays.draws(PrimitiveKind::Path)[batch.start].texture is None);
                assert(batch == (BatchModel {
                    kind: PrimitiveKind::Path,
                    start: batch.start,
                    end: batch.end,
                    texture: None,
                }));
            }
        }
    }
}

proof fn lemma_pushes(walk: WalkModel, spec: GroupModel, env: FrameEnvironment)
    requires
        walk_holds(walk, env),
        !walk.failed,
    ensures
        walk_holds(walk.group_pushed(spec, env), env),
        !walk.group_pushed(spec, env).failed,
        drawn_by(walk.group_pushed(spec, env).plan.commands) == drawn_by(walk.plan.commands),
{
    reveal(TargetsModel::acquired);
    let window = window_target(env.viewport);
    let (plan, opened) = walk.plan.group_opened(spec, walk.target, env, walk.open.len());
    let after = walk.group_pushed(spec, env);
    assert(after.open.drop_last() =~= walk.open);
    assert forall|i: int| 0 <= i < after.open.len() implies ((
    #[trigger] after.open[i]) matches Some(group) ==> {
        &&& i < MAX_GROUP_DEPTH
        &&& group.target.texture == Texture::Group(i as usize)
        &&& group.parent == innermost(after.open.take(i), window)
    }) by {
        if i < walk.open.len() {
            assert(after.open[i] == walk.open[i]);
            assert(after.open.take(i) =~= walk.open.take(i));
        } else {
            assert(after.open.take(i) =~= walk.open);
        }
    }
    if let Some(group) = opened {
        lemma_encoder_emits(plan, CommandModel::EndPass);
        lemma_encoder_emits(
            plan.emitted(CommandModel::EndPass),
            CommandModel::BeginPass { target: group.target, clear: Clear::Transparent },
        );
    }
}

proof fn lemma_pops(walk: WalkModel, env: FrameEnvironment)
    requires
        walk_holds(walk, env),
        !walk.failed,
        0 < walk.open.len(),
    ensures
        walk_holds(walk.group_popped(env), env),
        !walk.group_popped(env).failed,
        drawn_by(walk.group_popped(env).plan.commands) == drawn_by(walk.plan.commands),
{
    let window = window_target(env.viewport);
    let n = walk.open.len() - 1;
    assert(walk.open[n] == walk.open.last());
    assert(walk.open.take(n) =~= walk.open.drop_last());
    lemma_nest_shrinks(walk.open, window);
    lemma_innermost_texture(walk.open.drop_last(), window);
    if let Some(group) = walk.open.last() {
        let ended = walk.plan.emitted(CommandModel::EndPass);
        lemma_encoder_emits(walk.plan, CommandModel::EndPass);
        lemma_prepares(ended, group, env);
        let (ready, prepared) = ended.group_prepared(group, env);
        lemma_encoder_goes_on(ended.commands, ready.commands);
        let begin = CommandModel::BeginPass { target: group.parent, clear: Clear::Keep };
        lemma_encoder_emits(ready, begin);
        let begun = ready.emitted(begin);
        let command = composite_of(group, prepared, env);
        lemma_encoder_emits(begun.blend_reported(group), command);
        lemma_prepared_source(ended, group, env);
        let laid = begun.group_composited(group, prepared, env);
        assert(laid.prepared_released(prepared).scratch.in_use == ready.prepared_released(
            prepared,
        ).scratch.in_use);
    }
}

/// A group's picture is in its own target, or in a working texture.
proof fn lemma_prepared_source(plan: PlanModel, group: IsolatedModel, env: FrameEnvironment)
    requires
        plan.scratch.in_use == ScratchModel::all_free(),
        group.target.texture is Group,
    ensures
        ({
            let source = plan.group_prepared(group, env).1.source;
            source.texture == group.target.texture || source.texture is Scratch
        }),
{
    match group.spec.filter {
        None => {},
        Some(filter) => {
            let steps = steps_before_colours(
                steps_of(filter),
            );
            lemma_filters(
                plan,
                steps,
                group.picture(),
                crate::renderer::filter_ops::FilterEdge::Transparent,
            );
        },
    }
}

pub proof fn lemma_begins(plan: PlanModel, env: FrameEnvironment)
    ensures
        walk_holds(WalkModel::begun(plan, env), env),
        drawn_by(WalkModel::begun(plan, env).plan.commands) == Seq::<BatchModel>::empty(),
{
    let begun = WalkModel::begun(plan, env);
    let none = Seq::<CommandModel>::empty();
    let before = PlanModel { commands: none, ..begun.plan };
    let begin = CommandModel::BeginPass {
        target: window_target(env.viewport),
        clear: Clear::Window,
    };
    assert(encoder_after(none) is Closed);
    assert(drawn_by(none) =~= Seq::<BatchModel>::empty());
    lemma_encoder_emits(before, begin);
    assert(before.emitted(begin).commands =~= begun.plan.commands);
}

pub proof fn lemma_walks(plan: PlanModel, scene: SceneModel, n: nat, env: FrameEnvironment)
    requires
        scene.wf(),
        n <= scene.steps.len(),
    ensures
        ({
            let walk = WalkModel::begun(plan, env).walked(scene, n, env);
            &&& walk.open.len() <= n
            &&& !walk.failed ==> walk.open.len() == depth_after(scene.steps.take(n as int))
            &&& !walk.failed ==> walk_holds(walk, env)
            &&& walk.failed ==> encoder_after(walk.plan.commands) is Closed
            &&& walk.failed ==> !env.has_path_texture
            &&& !walk.failed ==> drawn_by(walk.plan.commands) == batches_of_runs(
                scene.arrays,
                scene.segments,
                runs_drawn(scene.steps.take(n as int)),
            )
        }),
    decreases n,
{
    let begun = WalkModel::begun(plan, env);
    reveal(SceneModel::wf);
    if n == 0 {
        lemma_begins(plan, env);
        assert(scene.steps.take(0) =~= Seq::<SceneStepRecord>::empty());
    } else {
        lemma_walks(plan, scene, (n - 1) as nat, env);
        let walk = begun.walked(scene, (n - 1) as nat, env);
        let steps = scene.steps;
        assert(steps.take(n as int).drop_last() =~= steps.take(n - 1));
        assert(steps.take(n as int).last() == steps[n - 1]);
        assert(depth_after(steps.take(n as int)) >= 0);
        if !walk.failed {
            match steps[n - 1] {
                SceneStepRecord::Run(id) => {
                    lemma_run_is_within(scene, id.0 as int);
                    let run = scene.segments[id.0 as int];
                    let all = batches_of(scene.arrays, run);
                    lemma_batches(walk.plan, scene.arrays, run, all.len(), walk.target, env);
                    lemma_failing_wants_paths(
                        walk.plan,
                        scene.arrays,
                        all,
                        all.len(),
                        walk.target,
                        env,
                    );
                    assert(all.take(all.len() as int) =~= all);
                },
                SceneStepRecord::PushGroup(id) => {
                    lemma_pushes(walk, scene.groups[id.0 as int], env);
                },
                SceneStepRecord::PopGroup => {
                    lemma_pops(walk, env);
                },
            }
        }
    }
}

proof fn lemma_failing_wants_paths(
    plan: PlanModel,
    arrays: Arrays,
    batches: Seq<BatchModel>,
    n: nat,
    target: ActiveTarget,
    env: FrameEnvironment,
)
    ensures
        plan.batches_drawn(arrays, batches, n, target, env).1 ==> !env.has_path_texture,
    decreases n,
{
    if n > 0 {
        lemma_failing_wants_paths(plan, arrays, batches, (n - 1) as nat, target, env);
    }
}

/// A frame's commands can be followed: no pass is begun inside another, what is
/// drawn is drawn inside one, a group's passes are outside any, nothing reads
/// the texture it writes, and at the end no pass is open.
pub proof fn passes_follow_one_another(plan: PlanModel, scene: SceneModel, env: FrameEnvironment)
    requires
        scene.wf(),
    ensures
        encoder_after(frame_of(plan, scene, env).plan.commands) is Closed,
{
    lemma_walks(plan, scene, scene.steps.len(), env);
    let walk = WalkModel::begun(plan, env).walked(scene, scene.steps.len(), env);
    lemma_encoder_emits(walk.plan, CommandModel::EndPass);
}

/// A frame draws every batch of the scene once, and in the scene's order,
/// unless there is no texture to rasterize paths into.
pub proof fn a_frame_draws_every_batch(plan: PlanModel, scene: SceneModel, env: FrameEnvironment)
    requires
        scene.wf(),
        env.has_path_texture,
    ensures
        !frame_of(plan, scene, env).failed,
        drawn_by(frame_of(plan, scene, env).plan.commands) == batches_of_runs(
            scene.arrays,
            scene.segments,
            scene.segments.len(),
        ),
{
    lemma_walks(plan, scene, scene.steps.len(), env);
    let walk = WalkModel::begun(plan, env).walked(scene, scene.steps.len(), env);
    lemma_encoder_emits(walk.plan, CommandModel::EndPass);
    assert(scene.steps.take(scene.steps.len() as int) =~= scene.steps);
    reveal(SceneModel::wf);
}

/// At every step, what is drawn lands in the target of the innermost group that
/// has one, and else in the window; and every working texture is free.
pub proof fn what_is_drawn_lands_in_its_group(
    plan: PlanModel,
    scene: SceneModel,
    n: nat,
    env: FrameEnvironment,
)
    requires
        scene.wf(),
        n <= scene.steps.len(),
        !WalkModel::begun(plan, env).walked(scene, n, env).failed,
    ensures
        ({
            let walk = WalkModel::begun(plan, env).walked(scene, n, env);
            &&& encoder_after(walk.plan.commands) == Encoder::Open(
                innermost(walk.open, window_target(env.viewport)),
            )
            &&& groups_nest(walk.open, window_target(env.viewport))
            &&& walk.open.len() == depth_after(scene.steps.take(n as int))
            &&& walk.plan.scratch.in_use == ScratchModel::all_free()
        }),
{
    lemma_walks(plan, scene, n, env);
}

/// Opening a group leaves the targets of the groups around it alone.
pub proof fn a_new_group_disturbs_no_open_group(
    plan: PlanModel,
    spec: GroupModel,
    parent: ActiveTarget,
    env: FrameEnvironment,
    depth: nat,
    i: int,
)
    requires
        0 <= i < depth,
        i < plan.targets.levels.len(),
    ensures
        plan.group_opened(spec, parent, env, depth).0.targets.levels[i] == plan.targets.levels[i],
{
    reveal(TargetsModel::acquired);
}

} // verus!
