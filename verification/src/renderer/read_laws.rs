//! What a frame writes for its filters, it reads.

use crate::color::Hsla;
use crate::geometry::Point;
use crate::renderer::filter_ops::{
    steps_of, with_filter, FilterEdge, FilterPipeline, StepModel,
};
use crate::renderer::frame::{
    backdrop_rect, borrowed, composite_of, rect_of, steps_before_colours, FrameEnvironment,
};
use crate::renderer::frame_laws::{
    is_held, lemma_acquires, lemma_blurs, lemma_filters, lemma_prepares, lemma_prepares_backdrop,
    lemma_releases, lemma_smears, lemma_some_are_free, lemma_steps, lemma_taken, owns_its_slot,
    taken,
};
use crate::renderer::passes::{
    downwards, rightwards, ActiveTarget, Clear, CommandModel, PlanModel,
};
use crate::renderer::picture_laws::{
    group_is_held, groups_are_held, groups_open, lemma_none_taken, lemma_starts_emit,
    lemma_walk_grows, open_groups_are_the_scenes, start_with,
};
use crate::renderer::pictures::{
    filter_is_held, lemma_given_back, lemma_none_are_still, none_are_still, step_is_held,
    steps_are_held, steps_do_what_the_filter_does, Picture,
};
use crate::renderer::scratch::FilterImage;
use crate::renderer::targets::{TargetsModel, Texture, MAX_FILTER_SCRATCH};
use crate::renderer::walk::{frame_of, window_target, WalkModel};
use crate::renderer::walk_laws::{
    lemma_innermost_texture, lemma_nest_shrinks, lemma_walks, walk_holds,
};
use crate::scene::batch::{batches_of, BatchModel};
use crate::scene::filter::FilterModel;
use crate::scene::model::{Arrays, SceneModel, SceneStepRecord};
use crate::scene::soundness::depth_after;
use vstd::prelude::*;

verus! {

/// The texture that a command fills for others to read.
pub open spec fn written_by(command: CommandModel) -> Option<Texture> {
    match command {
        CommandModel::Filter { destination, .. } => Some(destination.texture),
        CommandModel::CopyBackdrop { to, .. } => Some(to.texture),
        _ => None,
    }
}

/// Whether a command reads a texture.
pub open spec fn reads(command: CommandModel, texture: Texture) -> bool {
    match command {
        CommandModel::Filter { source, blurred, .. } => source == texture || blurred == texture,
        CommandModel::CopyBackdrop { from, .. } => from == texture,
        CommandModel::Composite { source, backdrop, .. } => source == texture || match backdrop {
            None => false,
            Some((original, filtered)) => original == texture || filtered == texture,
        },
        _ => false,
    }
}

/// Whether the commands from one place to another take a picture from texture
/// to texture: the first reads `input`, each reads what the one before it wrote,
/// and the last writes `output`.
pub open spec fn hands_on(
    commands: Seq<CommandModel>,
    from: int,
    to: int,
    input: Texture,
    output: Texture,
) -> bool {
    &&& from <= to <= commands.len()
    &&& from == to ==> input == output
    &&& from < to ==> reads(commands[from], input) && written_by(commands[to - 1]) == Some(output)
    &&& forall|i: int|
        from <= i < to - 1 ==> written_by(#[trigger] commands[i]) is Some && reads(
            commands[i + 1],
            written_by(commands[i])->0,
        )
}

proof fn lemma_hands_on_joins(
    commands: Seq<CommandModel>,
    from: int,
    mid: int,
    to: int,
    input: Texture,
    between: Texture,
    output: Texture,
)
    requires
        hands_on(commands, from, mid, input, between),
        hands_on(commands, mid, to, between, output),
    ensures
        hands_on(commands, from, to, input, output),
{
}

proof fn lemma_hands_on_stays(
    commands: Seq<CommandModel>,
    more: Seq<CommandModel>,
    from: int,
    to: int,
    input: Texture,
    output: Texture,
)
    requires
        hands_on(commands, from, to, input, output),
        0 <= from,
        commands.len() <= more.len(),
        more.take(commands.len() as int) == commands,
    ensures
        hands_on(more, from, to, input, output),
{
    assert forall|i: int| from <= i < to implies more[i] == commands[i] by {
        assert(more.take(commands.len() as int)[i] == commands[i]);
    }
}

/// A drop shadow with a positive radius, whose passes are all drawn, is three
/// passes: one that blurs the source across at that radius, one that blurs what
/// that wrote downwards at that radius, and the shadow's own, which reads its
/// silhouette from what the second blur wrote, moves and tints it as it is
/// asked, and lays the source over it. What is outside the silhouette counts as
/// transparent.
pub proof fn shadows_read_the_blurred_silhouette(
    plan: PlanModel,
    source: FilterImage,
    offset: Point<i64>,
    sigma: i64,
    color: Hsla,
    edge: FilterEdge,
)
    requires
        plan.scratch.in_use.len() == MAX_FILTER_SCRATCH,
        is_held(plan.scratch.in_use, source),
        taken(plan.scratch.in_use) <= 3,
        sigma > 0,
        plan.shadowed(source, offset, sigma, color, edge).0.scratch.targets.reported is None,
    ensures
        ({
            let (after, image) = plan.shadowed(source, offset, sigma, color, edge);
            let n = plan.commands.len() as int;
            &&& after.commands.len() == n + 3
            &&& after.commands.take(n) == plan.commands
            &&& image is Some
            &&& after.commands[n] matches CommandModel::Filter {
                pipeline,
                pass,
                source: from,
                destination: across,
                ..
            } && {
                &&& pipeline == FilterPipeline::Blur
                &&& pass.sigma == sigma && pass.direction.x == 1 && pass.direction.y == 0
                &&& pass.edge == 0
                &&& from == source.texture
                &&& after.commands[n + 1] matches CommandModel::Filter {
                    pipeline,
                    pass,
                    source: from,
                    destination: blurred,
                    ..
                } && {
                    &&& pipeline == FilterPipeline::Blur
                    &&& pass.sigma == sigma && pass.direction.x == 0 && pass.direction.y == 1
                    &&& pass.edge == 0
                    &&& from == across.texture
                    &&& after.commands[n + 2] matches CommandModel::Filter {
                        pipeline,
                        pass,
                        source: from,
                        blurred: silhouette,
                        destination,
                        ..
                    } && {
                        &&& pipeline == FilterPipeline::DropShadow
                        &&& silhouette == blurred.texture
                        &&& from == source.texture
                        &&& pass.offset == offset
                        &&& pass.color == color
                        &&& destination == image->0
                    }
                }
            }
        }),
{
    let slots = plan.scratch.in_use;
    lemma_some_are_free(slots);
    let transparent = FilterEdge::Transparent;
    let (spread, blurred) = plan.blurred(source, sigma, sigma, transparent);
    lemma_blurs(plan, source, sigma, sigma, transparent);
    lemma_acquires(spread, source.rect);
    let (across, first) = plan.smeared(source.rect, source, sigma, rightwards(), transparent);
    lemma_smears(plan, source.rect, source, sigma, rightwards(), transparent);
    let across_image = first->0;
    let (down, second) = across.smeared(
        source.rect,
        across_image,
        sigma,
        downwards(),
        transparent,
    );
    if first is Some {
        lemma_smears(across, source.rect, across_image, sigma, downwards(), transparent);
        lemma_taken(slots, across_image.slot->0 as int);
        lemma_some_are_free(across.scratch.in_use);
    }
    assert(first is Some);
    assert(second is Some);
    lemma_taken(slots, (blurred->0).slot->0 as int);
    lemma_some_are_free(spread.scratch.in_use);
    let after = plan.shadowed(source, offset, sigma, color, edge).0;
    assert(after.commands.take(plan.commands.len() as int) =~= plan.commands);
}

/// A blur that is drawn hands its source on to the image it ends with.
proof fn lemma_blur_hands_on(
    plan: PlanModel,
    source: FilterImage,
    sigma_x: i64,
    sigma_y: i64,
    edge: FilterEdge,
)
    requires
        plan.scratch.in_use.len() == MAX_FILTER_SCRATCH,
        is_held(plan.scratch.in_use, source),
    ensures
        ({
            let (after, image) = plan.blurred(source, sigma_x, sigma_y, edge);
            image matches Some(image) ==> hands_on(
                after.commands,
                plan.commands.len() as int,
                after.commands.len() as int,
                source.texture,
                image.texture,
            )
        }),
{
    if sigma_x > 0 {
        lemma_smears(plan, source.rect, source, sigma_x, rightwards(), edge);
    }
}

/// A step that is drawn hands its source on to the image it ends with.
proof fn lemma_step_hands_on(
    plan: PlanModel,
    step: StepModel,
    source: FilterImage,
    edge: FilterEdge,
)
    requires
        plan.scratch.in_use.len() == MAX_FILTER_SCRATCH,
        is_held(plan.scratch.in_use, source),
    ensures
        ({
            let (after, image) = plan.stepped(step, source, edge);
            image matches Some(image) ==> hands_on(
                after.commands,
                plan.commands.len() as int,
                after.commands.len() as int,
                source.texture,
                image.texture,
            )
        }),
{
    reveal(PlanModel::stepped);
    match step {
        StepModel::Matrices(_) => {},
        StepModel::Blur { sigma_x, sigma_y } => {
            lemma_blur_hands_on(plan, source, sigma_x as i64, sigma_y as i64, edge);
        },
        StepModel::DropShadow { offset_x, offset_y, sigma, color } => {
            let sigma = sigma as i64;
            let transparent = FilterEdge::Transparent;
            let (after, image) = plan.stepped(step, source, edge);
            if sigma > 0 && image is Some {
                lemma_blur_hands_on(plan, source, sigma, sigma, transparent);
                lemma_blurs(plan, source, sigma, sigma, transparent);
                let (spread, blurred) = plan.blurred(source, sigma, sigma, transparent);
                let from = plan.commands.len() as int;
                let mid = spread.commands.len() as int;
                assert(after.commands.take(mid) =~= spread.commands);
                lemma_hands_on_stays(
                    spread.commands,
                    after.commands,
                    from,
                    mid,
                    source.texture,
                    (blurred->0).texture,
                );
                assert(hands_on(
                    after.commands,
                    mid,
                    after.commands.len() as int,
                    (blurred->0).texture,
                    (image->0).texture,
                ));
                lemma_hands_on_joins(
                    after.commands,
                    from,
                    mid,
                    after.commands.len() as int,
                    source.texture,
                    (blurred->0).texture,
                    (image->0).texture,
                );
            }
        },
    }
}

/// A filter hands its input on to its last image, where the memory is not
/// refused.
proof fn lemma_filter_hands_on(
    plan: PlanModel,
    steps: Seq<StepModel>,
    input: FilterImage,
    edge: FilterEdge,
)
    requires
        plan.scratch.in_use.len() == MAX_FILTER_SCRATCH,
        is_held(plan.scratch.in_use, input),
        owns_its_slot(input),
        taken(plan.scratch.in_use) <= if input.slot is None {
            2int
        } else {
            3
        },
        none_are_still(steps),
        steps_are_held(steps),
        plan.filtered(steps, input, edge).0.scratch.targets.reported is None,
    ensures
        ({
            let (after, image) = plan.filtered(steps, input, edge);
            hands_on(
                after.commands,
                plan.commands.len() as int,
                after.commands.len() as int,
                input.texture,
                image.texture,
            )
        }),
    decreases steps.len(),
{
    if steps.len() > 0 {
        let slots = plan.scratch.in_use;
        lemma_steps(plan, steps[0], input, edge);
        lemma_step_hands_on(plan, steps[0], input, edge);
        let (mid, next) = plan.stepped(steps[0], input, edge);
        let rest = steps.skip(1);
        assert(!steps[0].is_still());
        assert(step_is_held(steps[0]));
        if let Some(image) = next {
            let freed = mid.released(input);
            lemma_releases(mid, input);
            lemma_filters(freed, rest, image, edge);
            lemma_taken(slots, image.slot->0 as int);
            if let Some(old_slot) = input.slot {
                assert(mid.scratch.in_use[old_slot as int]);
                lemma_given_back(mid.scratch.in_use, old_slot as int);
            }
            assert forall|i: int| 0 <= i < rest.len() implies !(#[trigger] rest[i]).is_still()
                && step_is_held(rest[i]) by {
                assert(rest[i] == steps[i + 1]);
            }
            lemma_filter_hands_on(freed, rest, image, edge);
            let (after, last) = plan.filtered(steps, input, edge);
            let from = plan.commands.len() as int;
            let at = mid.commands.len() as int;
            lemma_hands_on_stays(
                mid.commands,
                after.commands,
                from,
                at,
                input.texture,
                image.texture,
            );
            lemma_hands_on_joins(
                after.commands,
                from,
                at,
                after.commands.len() as int,
                input.texture,
                image.texture,
                last.texture,
            );
        }
    }
}

/// Whether what the command at `k` writes for others is read by a later one.
pub open spec fn is_read_later(commands: Seq<CommandModel>, k: int) -> bool {
    written_by(commands[k]) matches Some(texture) ==> exists|j: int|
        k < j < commands.len() && reads(#[trigger] commands[j], texture)
}

proof fn lemma_handed_on_is_read(
    commands: Seq<CommandModel>,
    from: int,
    to: int,
    input: Texture,
    output: Texture,
    end: int,
    k: int,
)
    requires
        hands_on(commands, from, to, input, output),
        0 <= from <= k < to <= end < commands.len(),
        reads(commands[end], output),
    ensures
        is_read_later(commands, k),
{
    if k < to - 1 {
        assert(reads(commands[k + 1], written_by(commands[k])->0));
    }
}

/// Everything that laying a group down writes on the way is read on the way.
#[verifier::rlimit(40)]
proof fn lemma_popped_is_read(walk: WalkModel, env: FrameEnvironment, k: int)
    requires
        walk_holds(walk, env),
        walk.open.len() > 0,
        walk.open.last() matches Some(group) ==> group_is_held(group.spec),
        walk.group_popped(env).plan.scratch.targets.reported is None,
        walk.plan.commands.len() <= k < walk.group_popped(env).plan.commands.len(),
    ensures
        is_read_later(walk.group_popped(env).plan.commands, k),
{
    let window = window_target(env.viewport);
    let group = walk.open.last()->0;
    let last = walk.open.len() - 1;
    assert(walk.open[last] == walk.open.last());
    assert(walk.open.take(last) =~= walk.open.drop_last());
    lemma_nest_shrinks(walk.open, window);
    lemma_innermost_texture(walk.open.drop_last(), window);
    let ended = walk.plan.emitted(CommandModel::EndPass);
    let (ready, prepared) = ended.group_prepared(group, env);
    let begin = CommandModel::BeginPass { target: group.parent, clear: Clear::Keep };
    let begun = ready.emitted(begin);
    let command = composite_of(group, prepared, env);
    let all = walk.group_popped(env).plan.commands;
    assert(all == begun.commands.push(command));
    let end = all.len() - 1;
    lemma_none_taken();
    lemma_prepares(ended, group, env);
    assert forall|i: int| 0 <= i < ready.commands.len() implies all[i] == ready.commands[i] by {}
    assert(all.take(ready.commands.len() as int) =~= ready.commands);
    let picture = group.picture();
    let edge = FilterEdge::Transparent;
    let from = ended.commands.len() as int;
    let (mid, source) = match group.spec.filter {
        None => (ended, picture),
        Some(filter) => ended.filtered(steps_before_colours(steps_of(filter)), picture, edge),
    };
    if let Some(filter) = group.spec.filter {
        lemma_filters(ended, steps_before_colours(steps_of(filter)), picture, edge);
    }
    let at = mid.commands.len() as int;
    if let Some(filter) = group.spec.backdrop_filter {
        lemma_prepares_backdrop(mid, group, filter, env);
    }
    assert(mid.scratch.targets.reported is None);
    if let Some(filter) = group.spec.filter {
        let before = steps_before_colours(steps_of(filter));
        lemma_steps_of(filter);
        assert forall|i: int| 0 <= i < before.len() implies !(#[trigger] before[i]).is_still()
            && step_is_held(before[i]) by {
            assert(before[i] == steps_of(filter)[i]);
        }
        lemma_filter_hands_on(ended, before, picture, edge);
        if let Some(slot) = source.slot {
            let freed = mid.released(source).scratch.in_use;
            assert(freed == ended.scratch.in_use);
            lemma_taken(freed, slot as int);
            assert(freed.update(slot as int, true) =~= mid.scratch.in_use);
        }
    }
    assert(taken(mid.scratch.in_use) <= 1);
    assert(ready.commands.take(at) =~= mid.commands);
    assert(all.take(at) =~= mid.commands);
    lemma_hands_on_stays(mid.commands, all, from, at, group.target.texture, source.texture);
    if from <= k < at {
        lemma_handed_on_is_read(
            all,
            from,
            at,
            group.target.texture,
            source.texture,
            end,
            k,
        );
    } else if at <= k < ready.commands.len() {
        let filter = group.spec.backdrop_filter->0;
        let rect = backdrop_rect(group, filter, env);
        lemma_acquires(mid, rect);
        let (got, image) = mid.acquired(rect);
        let original = image->0;
        let parent = rect_of(group.parent.render_target);
        let copy = CommandModel::CopyBackdrop {
            from: group.parent.texture,
            origin: Point { x: (rect.x - parent.x) as i32, y: (rect.y - parent.y) as i32 },
            to: original,
        };
        let copied = got.emitted(copy);
        let lent = borrowed(original);
        let steps = steps_of(filter);
        lemma_taken(mid.scratch.in_use, original.slot->0 as int);
        lemma_steps_of(filter);
        lemma_filters(copied, steps, lent, FilterEdge::Clamp);
        lemma_filter_hands_on(copied, steps, lent, FilterEdge::Clamp);
        let (done, filtered) = copied.filtered(steps, lent, FilterEdge::Clamp);
        assert(done.commands == ready.commands);
        let next = copied.commands.len() as int;
        assert(next == at + 1);
        lemma_hands_on_stays(
            done.commands,
            all,
            next,
            done.commands.len() as int,
            original.texture,
            filtered.texture,
        );
        if k == at {
            assert(all[at] == done.commands[at]);
            assert(done.commands.take(next)[at] == copied.commands[at]);
            assert(reads(all[end], original.texture));
        } else {
            lemma_handed_on_is_read(
                all,
                next,
                done.commands.len() as int,
                original.texture,
                filtered.texture,
                end,
                k,
            );
        }
    } else if k < from {
        assert(all[k] == ready.commands[k]);
        assert(ready.commands.take(from)[k] == ended.commands[k]);
    }
}

proof fn lemma_steps_of(filter: FilterModel)
    requires
        filter_is_held(filter),
    ensures
        steps_are_held(steps_of(filter)),
        none_are_still(steps_of(filter)),
{
    lemma_none_are_still(with_filter(Seq::empty(), filter));
    steps_do_what_the_filter_does(filter, Picture::Nothing, 0);
}

proof fn lemma_read_stays(commands: Seq<CommandModel>, more: Seq<CommandModel>, k: int)
    requires
        start_with(more, commands),
        0 <= k < commands.len(),
        is_read_later(commands, k),
    ensures
        is_read_later(more, k),
{
    assert(more.take(commands.len() as int)[k] == commands[k]);
    if let Some(texture) = written_by(commands[k]) {
        let j = choose|j: int| k < j < commands.len() && reads(#[trigger] commands[j], texture);
        assert(more.take(commands.len() as int)[j] == commands[j]);
    }
}

#[verifier::rlimit(40)]
proof fn lemma_walked_is_read(
    plan: PlanModel,
    scene: SceneModel,
    n: nat,
    env: FrameEnvironment,
    k: int,
)
    requires
        scene.wf(),
        groups_are_held(scene),
        n <= scene.steps.len(),
        ({
            let walk = WalkModel::begun(plan, env).walked(scene, n, env);
            walk.plan.scratch.targets.reported is None && 0 <= k < walk.plan.commands.len()
        }),
    ensures
        is_read_later(WalkModel::begun(plan, env).walked(scene, n, env).plan.commands, k),
    decreases n,
{
    let begun = WalkModel::begun(plan, env);
    if n > 0 {
        let walk = begun.walked(scene, (n - 1) as nat, env);
        let after = begun.walked(scene, n, env);
        reveal(SceneModel::wf);
        lemma_walks(plan, scene, (n - 1) as nat, env);
        assert(scene.steps.take(n as int).drop_last() =~= scene.steps.take(n - 1));
        assert(scene.steps.take(n as int).last() == scene.steps[n - 1]);
        lemma_walk_grows(plan, scene, (n - 1) as nat, n, env);
        let from = walk.plan.commands.len() as int;
        if k < from {
            lemma_walked_is_read(plan, scene, (n - 1) as nat, env, k);
            lemma_read_stays(walk.plan.commands, after.plan.commands, k);
        } else if !walk.failed {
            assert(depth_after(scene.steps.take(n as int)) >= 0);
            match scene.steps[n - 1] {
                SceneStepRecord::Run(id) => {
                    let batches = batches_of(scene.arrays, scene.segments[id.0 as int]);
                    lemma_batches_write_nothing(
                        walk.plan,
                        scene.arrays,
                        batches,
                        batches.len(),
                        walk.target,
                        env,
                        k,
                    );
                },
                SceneStepRecord::PushGroup(_) => {
                    reveal(TargetsModel::acquired);
                },
                SceneStepRecord::PopGroup => {
                    open_groups_are_the_scenes(plan, scene, (n - 1) as nat, env);
                    let last = walk.open.len() - 1;
                    let ids = groups_open(scene.steps.take(n - 1));
                    assert(walk.open[last] == walk.open.last());
                    if walk.open.last() is Some {
                        lemma_open_ids(scene, (n - 1) as nat);
                        assert(group_is_held(scene.groups[ids[last].0 as int]));
                        lemma_popped_is_read(walk, env, k);
                    }
                },
            }
        }
    }
}

proof fn lemma_batches_write_nothing(
    plan: PlanModel,
    arrays: Arrays,
    batches: Seq<BatchModel>,
    n: nat,
    target: ActiveTarget,
    env: FrameEnvironment,
    k: int,
)
    requires
        plan.commands.len() <= k < plan.batches_drawn(
            arrays,
            batches,
            n,
            target,
            env,
        ).0.commands.len(),
    ensures
        written_by(
            plan.batches_drawn(arrays, batches, n, target, env).0.commands[k],
        ) is None,
    decreases n,
{
    if n > 0 {
        let before = plan.batches_drawn(arrays, batches, (n - 1) as nat, target, env).0;
        if k < before.commands.len() {
            lemma_batches_write_nothing(plan, arrays, batches, (n - 1) as nat, target, env, k);
        }
    }
}

proof fn lemma_open_ids(scene: SceneModel, n: nat)
    requires
        scene.wf(),
        n <= scene.steps.len(),
    ensures
        groups_open(scene.steps.take(n as int)).len() == depth_after(scene.steps.take(n as int)),
        forall|i: int|
            0 <= i < groups_open(scene.steps.take(n as int)).len() ==> (
            #[trigger] groups_open(scene.steps.take(n as int))[i]).0 < scene.groups.len(),
    decreases n,
{
    reveal(SceneModel::wf);
    if n == 0 {
        assert(scene.steps.take(0) =~= Seq::<SceneStepRecord>::empty());
    } else {
        lemma_open_ids(scene, (n - 1) as nat);
        assert(scene.steps.take(n as int).drop_last() =~= scene.steps.take(n - 1));
        assert(scene.steps.take(n as int).last() == scene.steps[n - 1]);
        assert(depth_after(scene.steps.take(n as int)) >= 0);
        let before = groups_open(scene.steps.take(n - 1));
        let ids = groups_open(scene.steps.take(n as int));
        assert forall|i: int| 0 <= i < ids.len() implies (#[trigger] ids[i]).0
            < scene.groups.len() by {
            if i < before.len() && i < ids.len() {
                assert(ids[i] == before[i]);
            }
        }
    }
}

/// Every texture that a frame fills for its filters, with a pass or a copy, is
/// read by a later command of the frame. This is so where the filters' memory
/// was not refused.
pub proof fn what_filters_write_is_read(
    plan: PlanModel,
    scene: SceneModel,
    env: FrameEnvironment,
    k: int,
)
    requires
        scene.wf(),
        groups_are_held(scene),
        frame_of(plan, scene, env).plan.scratch.targets.reported is None,
        0 <= k < frame_of(plan, scene, env).plan.commands.len(),
    ensures
        is_read_later(frame_of(plan, scene, env).plan.commands, k),
{
    let walk = WalkModel::begun(plan, env).walked(scene, scene.steps.len(), env);
    let commands = frame_of(plan, scene, env).plan.commands;
    if k < walk.plan.commands.len() {
        lemma_walked_is_read(plan, scene, scene.steps.len(), env, k);
        if !walk.failed {
            lemma_starts_emit(walk.plan, CommandModel::EndPass);
        } else {
            assert(commands.take(commands.len() as int) =~= commands);
        }
        lemma_read_stays(walk.plan.commands, commands, k);
    }
}

} // verus!
