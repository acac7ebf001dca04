//! What a frame leaves in the window.

use crate::fixed::ONE;
use crate::geometry::Point;
use crate::renderer::clip_plan::{
    device_of, is_reachable, lemma_meet_viewport, lemma_touched_reachable, meet, viewport_is_sane,
};
use crate::renderer::compose::{GroupComposeMode, RenderTarget};
use crate::renderer::extent::touched;
use crate::renderer::filter_ops::{steps_of, with_filter, FilterEdge, StepModel};
use crate::renderer::frame::{
    backdrop_rect, borrowed, composite_of, group_rect, last_colours, placed, rect_of,
    steps_before_colours, target_is_sane, FrameEnvironment, IsolatedModel,
};
use crate::renderer::frame_laws::{
    is_held, is_offscreen, lemma_acquires, lemma_filters, lemma_prepares, lemma_prepares_backdrop, lemma_some_are_free, lemma_taken,
    owns_its_slot, taken,
};
use crate::renderer::passes::{ActiveTarget, Clear, CommandModel, PlanModel};
use crate::renderer::pictures::{
    box_of, filter_is_held, filters_are_held, gpu_after, is_free, leaves_alone, lemma_filter_shows, lemma_gpu_emits,
    lemma_leaves_alone_joins, lemma_none_are_still, none_are_still, recoloured_by, shows,
    step_is_held, steps_are_held, steps_do_what_the_filter_does, under_filter, under_steps, Gpu,
    Held, Picture,
};
use crate::renderer::scratch::{FilterImage, ScratchModel};
use crate::renderer::targets::{TargetsModel, Texture, MAX_FILTER_SCRATCH};
use crate::renderer::walk::{frame_of, window_target, WalkModel};
use crate::renderer::walk_laws::{
    innermost, groups_nest, lemma_innermost_texture, lemma_nest_shrinks, lemma_walks, walk_holds,
};
use crate::scene::batch::{batches_of, BatchModel};
use crate::scene::blend::ComposeMode;
use crate::scene::filter::{FilterModel, SceneFilter};
use crate::scene::group::GroupModel;
use crate::scene::ids::GroupId;
use crate::scene::model::{Arrays, SceneModel, SceneStepRecord};
use crate::scene::recording::Scene;
use crate::scene::segment::PrimitiveKind;
use crate::scene::soundness::depth_after;
use vstd::prelude::*;

verus! {

/// What a filter shows: from an image that shows a picture, the last of its
/// passes leaves an image over the same pixels that shows the picture under the
/// filter, and no texture is touched but working ones that were free. Memory
/// may be refused, and then the pool has said so.
pub proof fn filters_show_what_they_say(
    plan: PlanModel,
    filter: FilterModel,
    input: FilterImage,
    edge: FilterEdge,
    picture: Picture,
)
    requires
        plan.wf(),
        filter_is_held(filter),
        is_held(plan.scratch.in_use, input),
        owns_its_slot(input),
        taken(plan.scratch.in_use) <= if input.slot is None {
            2int
        } else {
            3
        },
        shows(gpu_after(plan.commands), input, picture),
        plan.filtered(steps_of(filter), input, edge).0.scratch.targets.reported is None,
    ensures
        ({
            let (after, image) = plan.filtered(steps_of(filter), input, edge);
            let now = gpu_after(after.commands);
            &&& image.rect == input.rect
            &&& shows(now, image, under_filter(filter, picture, edge.code()))
            &&& leaves_alone(plan.released(input).scratch.in_use, gpu_after(plan.commands), now)
        }),
{
    lemma_none_are_still(with_filter(Seq::empty(), filter));
    steps_do_what_the_filter_does(filter, picture, edge.code());
    lemma_filter_shows(plan, steps_of(filter), input, edge, picture);
}

/// What a picture comes to under a filter, where there is one.
pub open spec fn seen_through(filter: Option<FilterModel>, picture: Picture, edge: u32) -> Picture {
    match filter {
        None => picture,
        Some(filter) => under_filter(filter, picture, edge),
    }
}

/// Whether every length of a filter is one that can be held, where there is one.
pub open spec fn optional_is_held(filter: Option<FilterModel>) -> bool {
    filter matches Some(filter) ==> filter_is_held(filter)
}

/// Whether a group's filters hold lengths that can be held.
pub open spec fn group_is_held(spec: GroupModel) -> bool {
    optional_is_held(spec.filter) && optional_is_held(spec.backdrop_filter)
}

/// The operator that lays a group down: its own, or the plain one where its own
/// cannot be had.
pub open spec fn operator_of(compose: ComposeMode) -> GroupComposeMode {
    match compose {
        ComposeMode::DestOut => GroupComposeMode::DestOut,
        ComposeMode::DestIn => GroupComposeMode::DestIn,
        ComposeMode::Clear => GroupComposeMode::Clear,
        ComposeMode::Xor => GroupComposeMode::Xor,
        ComposeMode::SrcAtop => GroupComposeMode::SrcAtop,
        ComposeMode::Plus => GroupComposeMode::Plus,
        ComposeMode::PlusLighter => GroupComposeMode::Plus,
        _ => GroupComposeMode::SrcOver,
    }
}

/// An opacity within none and all of it.
pub open spec fn clamped(opacity: i64) -> i64 {
    if opacity < 0 {
        0
    } else if opacity > ONE {
        ONE
    } else {
        opacity
    }
}

/// Whether a group lies over a filtered copy of what is underneath it: it asks
/// for one, is laid down plainly, on something that can be read and has pixels
/// there.
pub open spec fn has_backdrop(group: IsolatedModel, env: FrameEnvironment) -> bool {
    &&& group.spec.backdrop_filter is Some
    &&& group.spec.blend.compose == ComposeMode::SrcOver
    &&& env.drawable_is_readable || !group.parent.is_window
    &&& !backdrop_rect(group, group.spec.backdrop_filter->0, env).encloses_nothing()
}

/// What `on` comes to once a group whose own target holds `picture` is laid on
/// it: the picture under the group's filter, at the group's opacity, by its
/// operator and within its clip, over the group's pixels.
pub open spec fn laid_on(
    group: IsolatedModel,
    env: FrameEnvironment,
    picture: Picture,
    on: Picture,
) -> Picture {
    let shown = Box::new(seen_through(group.spec.filter, picture, 0));
    let clipped = group.spec.clip.0 != 0 && env.has_clip_textures;
    if has_backdrop(group, env) {
        let under = placed(backdrop_rect(group, group.spec.backdrop_filter->0, env));
        let original = Picture::Cut { of: Box::new(on), place: under };
        Picture::LaidOver {
            on: Box::new(on),
            picture: shown,
            place: placed(group.rect),
            opacity: clamped(group.spec.opacity),
            compose: operator_of(group.spec.blend.compose),
            clip: group.spec.clip,
            clipped,
            original: Box::new(original),
            filtered: Box::new(under_filter(group.spec.backdrop_filter->0, original, 1)),
            under,
        }
    } else {
        Picture::Laid {
            on: Box::new(on),
            picture: shown,
            place: placed(group.rect),
            opacity: clamped(group.spec.opacity),
            compose: operator_of(group.spec.blend.compose),
            clip: group.spec.clip,
            clipped,
        }
    }
}

/// Whether a target holds a picture.
pub open spec fn target_shows(gpu: Gpu, target: ActiveTarget, picture: Picture) -> bool {
    gpu.held[target.texture] == (Held {
        picture,
        place: target.render_target,
        size: target.texture_size,
    })
}

pub proof fn lemma_none_taken()
    ensures
        taken(ScratchModel::all_free()) == 0,
        ScratchModel::all_free().len() == MAX_FILTER_SCRATCH,
{
    reveal_with_fuel(taken, 6);
}

/// The steps up to the last colours, and then those colours, are all the steps.
proof fn lemma_colours_come_last(steps: Seq<StepModel>, picture: Picture, edge: u32)
    requires
        steps_are_held(steps),
        none_are_still(steps),
    ensures
        recoloured_by(
            under_steps(steps_before_colours(steps), picture, edge),
            last_colours(steps),
        ) == under_steps(steps, picture, edge),
        steps_are_held(steps_before_colours(steps)),
        none_are_still(steps_before_colours(steps)),
{
    let before = steps_before_colours(steps);
    assert forall|i: int| 0 <= i < before.len() implies step_is_held(#[trigger] before[i]) && !(
    before[i]).is_still() by {
        assert(before[i] == steps[i]);
    }
}

/// What filtering a group's own picture shows.
proof fn lemma_source_shows(plan: PlanModel, group: IsolatedModel, picture: Picture)
    requires
        plan.scratch.in_use == ScratchModel::all_free(),
        group.wf(),
        !(group.target.texture is Scratch),
        group_is_held(group.spec),
        group.spec.filter is Some,
        target_shows(gpu_after(plan.commands), group.target, picture),
        plan.filtered(
            steps_before_colours(steps_of(group.spec.filter->0)),
            group.picture(),
            FilterEdge::Transparent,
        ).0.scratch.targets.reported is None,
    ensures
        ({
            let steps = steps_of(group.spec.filter->0);
            let (after, image) = plan.filtered(
                steps_before_colours(steps),
                group.picture(),
                FilterEdge::Transparent,
            );
            let now = gpu_after(after.commands);
            let shown = under_steps(steps_before_colours(steps), picture, 0);
            &&& image.rect == group.rect
            &&& shows(now, image, shown)
            &&& recoloured_by(shown, last_colours(steps)) == under_filter(
                group.spec.filter->0,
                picture,
                0,
            )
            &&& leaves_alone(plan.scratch.in_use, gpu_after(plan.commands), now)
            &&& is_held(after.scratch.in_use, image)
            &&& taken(after.scratch.in_use) <= 1
            &&& after.scratch.in_use.len() == MAX_FILTER_SCRATCH
        }),
{
    let filter = group.spec.filter->0;
    let steps = steps_of(filter);
    let before = steps_before_colours(steps);
    let edge = FilterEdge::Transparent;
    lemma_none_taken();
    lemma_none_are_still(with_filter(Seq::empty(), filter));
    steps_do_what_the_filter_does(filter, picture, 0);
    lemma_colours_come_last(steps, picture, 0);
    lemma_filter_shows(plan, before, group.picture(), edge, picture);
    lemma_filters(plan, before, group.picture(), edge);
    let (after, image) = plan.filtered(before, group.picture(), edge);
    if let Some(slot) = image.slot {
        let freed = after.released(image).scratch.in_use;
        assert(freed == plan.scratch.in_use);
        lemma_taken(freed, slot as int);
        assert(freed.update(slot as int, true) =~= after.scratch.in_use);
    }
}

proof fn lemma_backdrop_is_reachable(
    group: IsolatedModel,
    filter: FilterModel,
    env: FrameEnvironment,
)
    requires
        group.wf(),
        viewport_is_sane(env.viewport),
    ensures
        is_reachable(backdrop_rect(group, filter, env)),
{
    let reached = filter.reach(group.rect.in_units());
    lemma_touched_reachable(reached);
    let inside = meet(device_of(touched(reached)), rect_of(group.parent.render_target));
    lemma_meet_viewport(inside, env.viewport);
}

/// What preparing a group's backdrop shows.
proof fn lemma_backdrop_shows(
    plan: PlanModel,
    group: IsolatedModel,
    env: FrameEnvironment,
    on: Picture,
)
    requires
        plan.scratch.in_use.len() == MAX_FILTER_SCRATCH,
        taken(plan.scratch.in_use) <= 1,
        group.wf(),
        viewport_is_sane(env.viewport),
        !(group.parent.texture is Scratch),
        group_is_held(group.spec),
        group.spec.backdrop_filter is Some,
        target_shows(gpu_after(plan.commands), group.parent, on),
        plan.backdrop_prepared(
            group,
            group.spec.backdrop_filter->0,
            env,
        ).0.scratch.targets.reported is None,
    ensures
        ({
            let filter = group.spec.backdrop_filter->0;
            let (after, backdrop) = plan.backdrop_prepared(group, filter, env);
            let rect = backdrop_rect(group, filter, env);
            let cut = Picture::Cut { of: Box::new(on), place: placed(rect) };
            let now = gpu_after(after.commands);
            &&& leaves_alone(plan.scratch.in_use, gpu_after(plan.commands), now)
            &&& (backdrop is Some) == has_backdrop(group, env)
            &&& backdrop matches Some(backdrop) ==> {
                &&& backdrop.original.rect == rect
                &&& backdrop.filtered.rect == rect
                &&& shows(now, backdrop.original, cut)
                &&& shows(now, backdrop.filtered, under_filter(filter, cut, 1))
            }
        }),
{
    let filter = group.spec.backdrop_filter->0;
    let rect = backdrop_rect(group, filter, env);
    let cut = Picture::Cut { of: Box::new(on), place: placed(rect) };
    let start = gpu_after(plan.commands);
    let (after, backdrop) = plan.backdrop_prepared(group, filter, env);
    if has_backdrop(group, env) {
        let slots = plan.scratch.in_use;
        lemma_some_are_free(slots);
        lemma_acquires(plan, rect);
        lemma_backdrop_is_reachable(group, filter, env);
        let (got, image) = plan.acquired(rect);
        assert(image is Some);
        let original = image->0;
        let parent = rect_of(group.parent.render_target);
        let command = CommandModel::CopyBackdrop {
            from: group.parent.texture,
            origin: Point { x: (rect.x - parent.x) as i32, y: (rect.y - parent.y) as i32 },
            to: original,
        };
        let copied = got.emitted(command);
        lemma_gpu_emits(got, command);
        let between = gpu_after(copied.commands);
        assert(shows(between, original, cut));
        assert(leaves_alone(slots, start, between));
        lemma_taken(slots, original.slot->0 as int);
        let lent = borrowed(original);
        lemma_none_are_still(with_filter(Seq::empty(), filter));
        steps_do_what_the_filter_does(filter, cut, 1);
        lemma_filter_shows(copied, steps_of(filter), lent, FilterEdge::Clamp, cut);
        let now = gpu_after(after.commands);
        lemma_leaves_alone_joins(slots, copied.scratch.in_use, start, between, now);
        assert(!is_free(copied.scratch.in_use, original.texture));
        assert(now.held[original.texture] == between.held[original.texture]);
    }
}

/// What preparing a group shows.
proof fn lemma_prepare_shows(
    plan: PlanModel,
    group: IsolatedModel,
    env: FrameEnvironment,
    picture: Picture,
    on: Picture,
)
    requires
        plan.scratch.in_use == ScratchModel::all_free(),
        group.wf(),
        viewport_is_sane(env.viewport),
        !(group.target.texture is Scratch),
        !(group.parent.texture is Scratch),
        group_is_held(group.spec),
        target_shows(gpu_after(plan.commands), group.target, picture),
        target_shows(gpu_after(plan.commands), group.parent, on),
        plan.group_prepared(group, env).0.scratch.targets.reported is None,
    ensures
        ({
            let (after, prepared) = plan.group_prepared(group, env);
            let now = gpu_after(after.commands);
            &&& leaves_alone(plan.scratch.in_use, gpu_after(plan.commands), now)
            &&& prepared.source.rect == group.rect
            &&& exists|shown: Picture|
                #![trigger shows(now, prepared.source, shown)]
                shows(now, prepared.source, shown) && recoloured_by(shown, prepared.filter)
                    == seen_through(group.spec.filter, picture, 0)
            &&& (prepared.backdrop is Some) == has_backdrop(group, env)
            &&& prepared.backdrop matches Some(backdrop) ==> {
                let filter = group.spec.backdrop_filter->0;
                let rect = backdrop_rect(group, filter, env);
                let cut = Picture::Cut { of: Box::new(on), place: placed(rect) };
                &&& backdrop.original.rect == rect
                &&& backdrop.filtered.rect == rect
                &&& shows(now, backdrop.original, cut)
                &&& shows(now, backdrop.filtered, under_filter(filter, cut, 1))
            }
        }),
{
    let start = gpu_after(plan.commands);
    let slots = plan.scratch.in_use;
    let (after, prepared) = plan.group_prepared(group, env);
    let now = gpu_after(after.commands);
    lemma_none_taken();
    let (mid, source, shown) = match group.spec.filter {
        None => (plan, group.picture(), picture),
        Some(filter) => {
            let before = steps_before_colours(steps_of(filter));
            let (mid, source) = plan.filtered(before, group.picture(), FilterEdge::Transparent);
            (mid, source, under_steps(before, picture, 0))
        },
    };
    let between = gpu_after(mid.commands);
    match group.spec.backdrop_filter {
        None => {},
        Some(filter) => {
            if let Some(own) = group.spec.filter {
                lemma_filters(
                    plan,
                    steps_before_colours(steps_of(own)),
                    group.picture(),
                    FilterEdge::Transparent,
                );
            }
            lemma_prepares_backdrop(mid, group, filter, env);
        },
    }
    assert(mid.scratch.targets.reported is None);
    match group.spec.filter {
        None => {
            assert(recoloured_by(picture, prepared.filter) == picture);
        },
        Some(_) => {
            lemma_source_shows(plan, group, picture);
        },
    }
    assert(shows(between, source, shown));
    assert(leaves_alone(slots, start, between));
    assert(target_shows(between, group.parent, on)) by {
        assert(!is_free(slots, group.parent.texture));
        assert(between.held[group.parent.texture] == start.held[group.parent.texture]);
    }
    match group.spec.backdrop_filter {
        None => {},
        Some(_) => {
            lemma_backdrop_shows(mid, group, env, on);
            lemma_leaves_alone_joins(slots, mid.scratch.in_use, start, between, now);
            assert(!is_free(mid.scratch.in_use, source.texture));
            assert(now.held[source.texture] == between.held[source.texture]);
        },
    }
    assert(shows(now, prepared.source, shown));
}

/// Whether two GPUs hold the same in every texture but working ones and `texture`.
pub open spec fn differ_only_in(before: Gpu, after: Gpu, texture: Texture) -> bool {
    forall|other: Texture|
        other != texture && !(other is Scratch) ==> #[trigger] after.held[other]
            == before.held[other]
}

/// What laying a group down shows.
#[verifier::rlimit(40)]
proof fn lemma_pop_shows(walk: WalkModel, env: FrameEnvironment, picture: Picture, on: Picture)
    requires
        walk.plan.scratch.in_use == ScratchModel::all_free(),
        walk.open.len() > 0,
        walk.open.last() is Some,
        ({
            let group = walk.open.last()->0;
            &&& group.wf()
            &&& group_is_held(group.spec)
            &&& !(group.target.texture is Scratch)
            &&& !(group.parent.texture is Scratch)
            &&& target_shows(gpu_after(walk.plan.commands), group.target, picture)
            &&& target_shows(gpu_after(walk.plan.commands), group.parent, on)
        }),
        viewport_is_sane(env.viewport),
        walk.group_popped(env).plan.scratch.targets.reported is None,
    ensures
        ({
            let group = walk.open.last()->0;
            let before = gpu_after(walk.plan.commands);
            let now = gpu_after(walk.group_popped(env).plan.commands);
            &&& target_shows(now, group.parent, laid_on(group, env, picture, on))
            &&& now.target == Some(group.parent)
            &&& differ_only_in(before, now, group.parent.texture)
        }),
{
    let group = walk.open.last()->0;
    let before = gpu_after(walk.plan.commands);
    let ended = walk.plan.emitted(CommandModel::EndPass);
    lemma_gpu_emits(walk.plan, CommandModel::EndPass);
    let start = gpu_after(ended.commands);
    assert(start.held == before.held);
    let (ready, prepared) = ended.group_prepared(group, env);
    lemma_prepare_shows(ended, group, env, picture, on);
    let shown_gpu = gpu_after(ready.commands);
    let begin = CommandModel::BeginPass { target: group.parent, clear: Clear::Keep };
    lemma_gpu_emits(ready, begin);
    let begun = ready.emitted(begin);
    let open = gpu_after(begun.commands);
    let slots = ended.scratch.in_use;
    assert(!is_free(slots, group.parent.texture));
    assert(shown_gpu.held[group.parent.texture] == start.held[group.parent.texture]);
    assert(open.held == shown_gpu.held);
    let command = composite_of(group, prepared, env);
    lemma_gpu_emits(begun.blend_reported(group), command);
    let shown = choose|shown: Picture|
        #![trigger shows(shown_gpu, prepared.source, shown)]
        shows(shown_gpu, prepared.source, shown) && recoloured_by(shown, prepared.filter)
            == seen_through(group.spec.filter, picture, 0);
    assert(shows(open, prepared.source, shown));
    assert(prepared.source.place() == placed(group.rect));
    assert(box_of(placed(group.rect)) == group.rect.as_box());
    let now = gpu_after(walk.group_popped(env).plan.commands);
    assert(now == open.after(command));
    assert(target_shows(now, group.parent, laid_on(group, env, picture, on)));
    assert forall|other: Texture|
        other != group.parent.texture && !(other is Scratch) implies #[trigger] now.held[other]
        == before.held[other] by {
        assert(!is_free(slots, other));
        assert(shown_gpu.held[other] == start.held[other]);
    }
}

/// What a group that is pushed shows.
proof fn lemma_push_shows(walk: WalkModel, spec: GroupModel, env: FrameEnvironment)
    ensures
        ({
            let after = walk.group_pushed(spec, env);
            let before = gpu_after(walk.plan.commands);
            let now = gpu_after(after.plan.commands);
            match after.open.last() {
                None => now == before,
                Some(group) => {
                    &&& target_shows(now, group.target, Picture::Nothing)
                    &&& now.target == Some(group.target)
                    &&& differ_only_in(before, now, group.target.texture)
                },
            }
        }),
{
    reveal(TargetsModel::acquired);
    let (plan, opened) = walk.plan.group_opened(spec, walk.target, env, walk.open.len());
    assert(plan.commands == walk.plan.commands);
    if let Some(group) = opened {
        let ended = plan.emitted(CommandModel::EndPass);
        lemma_gpu_emits(plan, CommandModel::EndPass);
        lemma_gpu_emits(
            ended,
            CommandModel::BeginPass { target: group.target, clear: Clear::Transparent },
        );
    }
}

/// What `on` comes to once the first `n` batches are drawn on it, in order, at
/// `place` in the window.
pub open spec fn painted_on(
    on: Picture,
    arrays: Arrays,
    batches: Seq<BatchModel>,
    n: nat,
    place: RenderTarget,
) -> Picture
    decreases n,
{
    if n == 0 {
        on
    } else {
        let under = Box::new(painted_on(on, arrays, batches, (n - 1) as nat, place));
        let batch = batches[n - 1];
        let clipped = arrays.draws(batch.kind)[batch.start].clipped;
        if batch.kind == PrimitiveKind::Path {
            Picture::Filled { on: under, start: batch.start, end: batch.end, clipped, place }
        } else {
            Picture::Painted { on: under, batch, clipped, place }
        }
    }
}

/// What drawing some batches shows.
proof fn lemma_batches_show(
    plan: PlanModel,
    arrays: Arrays,
    batches: Seq<BatchModel>,
    n: nat,
    target: ActiveTarget,
    env: FrameEnvironment,
    on: Picture,
)
    requires
        !plan.batches_drawn(arrays, batches, n, target, env).1,
        gpu_after(plan.commands).target == Some(target),
        target_shows(gpu_after(plan.commands), target, on),
    ensures
        ({
            let now = gpu_after(plan.batches_drawn(arrays, batches, n, target, env).0.commands);
            &&& now.target == Some(target)
            &&& target_shows(
                now,
                target,
                painted_on(on, arrays, batches, n, target.render_target),
            )
            &&& differ_only_in(gpu_after(plan.commands), now, target.texture)
        }),
    decreases n,
{
    if n > 0 {
        lemma_batches_show(plan, arrays, batches, (n - 1) as nat, target, env, on);
        let (before, _) = plan.batches_drawn(arrays, batches, (n - 1) as nat, target, env);
        let batch = batches[n - 1];
        let clipped = arrays.draws(batch.kind)[batch.start].clipped;
        if batch.kind != PrimitiveKind::Path {
            lemma_gpu_emits(before, CommandModel::Draw { batch, clipped });
        } else {
            let ended = before.emitted(CommandModel::EndPass);
            lemma_gpu_emits(before, CommandModel::EndPass);
            let rasterize = CommandModel::RasterizePaths {
                start: batch.start,
                end: batch.end,
                clipped,
            };
            lemma_gpu_emits(ended, rasterize);
            let rasterized = ended.emitted(rasterize);
            let begin = CommandModel::BeginPass { target, clear: Clear::Keep };
            lemma_gpu_emits(rasterized, begin);
            let begun = rasterized.emitted(begin);
            let copy = CommandModel::CopyPaths { start: batch.start, end: batch.end };
            lemma_gpu_emits(begun, copy);
        }
    }
}

/// How many groups are open up to and with the innermost one that has a target.
pub open spec fn level_of(open: Seq<Option<IsolatedModel>>) -> nat
    decreases open.len(),
{
    if open.len() == 0 {
        0
    } else if open.last() is Some {
        open.len()
    } else {
        level_of(open.drop_last())
    }
}

proof fn lemma_level(open: Seq<Option<IsolatedModel>>, window: ActiveTarget)
    ensures
        level_of(open) <= open.len(),
        level_of(open) == 0 ==> innermost(open, window) == window,
        level_of(open) > 0 ==> open[level_of(open) - 1] is Some && innermost(open, window) == (
        open[level_of(open) - 1]->0).target,
    decreases open.len(),
{
    if open.len() > 0 && open.last() is None {
        lemma_level(open.drop_last(), window);
    }
}

/// What the window and the open groups show after the first `n` steps of a
/// scene: the window first, then one picture for each open group, outermost
/// first. A run of primitives is painted on the innermost group that has a
/// target of its own; a group starts with nothing in it, and at its end is laid
/// on the next one outwards that has a target.
pub open spec fn pictures_after(
    plan: PlanModel,
    scene: SceneModel,
    n: nat,
    env: FrameEnvironment,
) -> Seq<Picture>
    decreases n,
{
    if n == 0 {
        seq![Picture::Ground]
    } else {
        let before = pictures_after(plan, scene, (n - 1) as nat, env);
        let open = WalkModel::begun(plan, env).walked(scene, (n - 1) as nat, env).open;
        let place = innermost(open, window_target(env.viewport)).render_target;
        match scene.steps[n - 1] {
            SceneStepRecord::Run(id) => {
                let batches = batches_of(scene.arrays, scene.segments[id.0 as int]);
                let at = level_of(open) as int;
                before.update(
                    at,
                    painted_on(before[at], scene.arrays, batches, batches.len(), place),
                )
            },
            SceneStepRecord::PushGroup(_) => before.push(Picture::Nothing),
            SceneStepRecord::PopGroup => match open.last() {
                None => before.drop_last(),
                Some(group) => {
                    let below = before.drop_last();
                    let at = level_of(open.drop_last()) as int;
                    below.update(at, laid_on(group, env, before.last(), below[at]))
                },
            },
        }
    }
}

/// Whether a GPU shows the pictures of a walk.
pub open spec fn walk_shows(walk: WalkModel, env: FrameEnvironment, pictures: Seq<Picture>) -> bool {
    let gpu = gpu_after(walk.plan.commands);
    &&& pictures.len() == walk.open.len() + 1
    &&& target_shows(gpu, window_target(env.viewport), pictures[0])
    &&& gpu.target == Some(walk.target)
    &&& forall|i: int|
        0 <= i < walk.open.len() ==> ((#[trigger] walk.open[i]) matches Some(group) ==> {
            &&& target_shows(gpu, group.target, pictures[i + 1])
            &&& group.wf()
            &&& group_is_held(group.spec)
        })
}

/// Whether every group of a scene has filters whose lengths can be held.
pub open spec fn groups_are_held(scene: SceneModel) -> bool {
    forall|i: int| 0 <= i < scene.groups.len() ==> group_is_held(#[trigger] scene.groups[i])
}

proof fn lemma_filter_is_held(filter: SceneFilter)
    ensures
        filter_is_held(filter.model()),
    decreases filter,
{
    match filter {
        SceneFilter::Chain(filters) => {
            lemma_filters_are_held(filters@);
        },
        _ => {},
    }
}

proof fn lemma_filters_are_held(filters: Seq<SceneFilter>)
    ensures
        filters_are_held(SceneFilter::models(filters)),
    decreases filters,
{
    if filters.len() > 0 {
        lemma_filters_are_held(filters.drop_last());
        lemma_filter_is_held(filters.last());
        let all = SceneFilter::models(filters);
        assert(all.drop_last() =~= SceneFilter::models(filters.drop_last()));
    }
}

/// The groups of any scene that a program holds have filters whose lengths can
/// be held.
pub proof fn scenes_hold_what_can_be_held(scene: Scene)
    ensures
        groups_are_held(scene@),
{
    assert forall|i: int| 0 <= i < scene@.groups.len() implies group_is_held(
        #[trigger] scene@.groups[i],
    ) by {
        let group = scene.groups@[i];
        if let Some(filter) = group.filter {
            lemma_filter_is_held(filter);
        }
        if let Some(filter) = group.backdrop_filter {
            lemma_filter_is_held(filter);
        }
    }
}

/// Drawing on the innermost target changes its picture and no other.
proof fn lemma_level_shows(
    walk: WalkModel,
    after: WalkModel,
    env: FrameEnvironment,
    pictures: Seq<Picture>,
    picture: Picture,
)
    requires
        walk_shows(walk, env, pictures),
        groups_nest(walk.open, window_target(env.viewport)),
        after.open == walk.open,
        after.target == innermost(walk.open, window_target(env.viewport)),
        gpu_after(after.plan.commands).target == Some(after.target),
        target_shows(gpu_after(after.plan.commands), after.target, picture),
        differ_only_in(
            gpu_after(walk.plan.commands),
            gpu_after(after.plan.commands),
            after.target.texture,
        ),
    ensures
        walk_shows(after, env, pictures.update(level_of(walk.open) as int, picture)),
{
    let window = window_target(env.viewport);
    let now = gpu_after(after.plan.commands);
    let then = gpu_after(walk.plan.commands);
    let at = level_of(walk.open) as int;
    let changed = pictures.update(at, picture);
    lemma_level(walk.open, window);
    if at > 0 {
        assert(walk.open[at - 1] is Some);
        assert(now.held[Texture::Window] == then.held[Texture::Window]);
    }
    assert forall|i: int| 0 <= i < after.open.len() implies ((
    #[trigger] after.open[i]) matches Some(group) ==> {
        &&& target_shows(now, group.target, changed[i + 1])
        &&& group.wf()
        &&& group_is_held(group.spec)
    }) by {
        if let Some(group) = after.open[i] {
            assert(walk.open[i] == Some(group));
            if i + 1 != at {
                if at > 0 {
                    assert(walk.open[at - 1] is Some);
                }
                assert(now.held[group.target.texture] == then.held[group.target.texture]);
            }
        }
    }
}

/// An opened group stands for the pixels it was opened for.
proof fn lemma_opened_is_sane(
    plan: PlanModel,
    spec: GroupModel,
    parent: ActiveTarget,
    env: FrameEnvironment,
    depth: nat,
)
    requires
        target_is_sane(parent),
        viewport_is_sane(env.viewport),
    ensures
        plan.group_opened(spec, parent, env, depth).1 matches Some(group) ==> group.wf()
            && group.spec == spec && group.rect == group_rect(spec, env.viewport) && group.parent
            == parent,
{
    lemma_touched_reachable(spec.bounds);
    lemma_meet_viewport(device_of(touched(spec.bounds)), env.viewport);
}

proof fn lemma_walk_target_is_sane(walk: WalkModel, env: FrameEnvironment, pictures: Seq<Picture>)
    requires
        walk_shows(walk, env, pictures),
        viewport_is_sane(env.viewport),
        walk.target == innermost(walk.open, window_target(env.viewport)),
    ensures
        target_is_sane(walk.target),
{
    lemma_level(walk.open, window_target(env.viewport));
}

proof fn lemma_pushed_shows(
    walk: WalkModel,
    spec: GroupModel,
    env: FrameEnvironment,
    pictures: Seq<Picture>,
)
    requires
        walk_shows(walk, env, pictures),
        walk_holds(walk, env),
        viewport_is_sane(env.viewport),
        group_is_held(spec),
    ensures
        walk_shows(walk.group_pushed(spec, env), env, pictures.push(Picture::Nothing)),
{
    let window = window_target(env.viewport);
    let after = walk.group_pushed(spec, env);
    let now = gpu_after(after.plan.commands);
    let then = gpu_after(walk.plan.commands);
    let all = pictures.push(Picture::Nothing);
    lemma_push_shows(walk, spec, env);
    lemma_walk_target_is_sane(walk, env, pictures);
    lemma_opened_is_sane(walk.plan, spec, walk.target, env, walk.open.len());
    assert(after.open.last() is Some ==> now.held[Texture::Window] == then.held[Texture::Window]);
    assert forall|i: int| 0 <= i < after.open.len() implies ((
    #[trigger] after.open[i]) matches Some(group) ==> {
        &&& target_shows(now, group.target, all[i + 1])
        &&& group.wf()
        &&& group_is_held(group.spec)
    }) by {
        if i < walk.open.len() {
            if let Some(group) = after.open[i] {
                assert(walk.open[i] == Some(group));
                assert(group.target.texture == Texture::Group(i as usize));
                assert(now.held[group.target.texture] == then.held[group.target.texture]);
            }
        }
    }
}

#[verifier::rlimit(40)]
proof fn lemma_popped_shows(walk: WalkModel, env: FrameEnvironment, pictures: Seq<Picture>)
    requires
        walk_shows(walk, env, pictures),
        walk_holds(walk, env),
        viewport_is_sane(env.viewport),
        walk.open.len() > 0,
        walk.group_popped(env).plan.scratch.targets.reported is None,
    ensures
        walk_shows(
            walk.group_popped(env),
            env,
            match walk.open.last() {
                None => pictures.drop_last(),
                Some(group) => {
                    let below = pictures.drop_last();
                    let at = level_of(walk.open.drop_last()) as int;
                    below.update(at, laid_on(group, env, pictures.last(), below[at]))
                },
            },
        ),
{
    let window = window_target(env.viewport);
    let after = walk.group_popped(env);
    let below = pictures.drop_last();
    let rest = walk.open.drop_last();
    let last = walk.open.len() - 1;
    assert(walk.open[last] == walk.open.last());
    assert(walk.open.take(last) =~= rest);
    lemma_nest_shrinks(walk.open, window);
    lemma_innermost_texture(rest, window);
    let inside = WalkModel {
        plan: walk.plan,
        target: walk.target,
        open: rest,
        failed: walk.failed,
    };
    assert forall|i: int| 0 <= i < rest.len() implies ((
    #[trigger] rest[i]) matches Some(group) ==> {
        &&& target_shows(gpu_after(walk.plan.commands), group.target, below[i + 1])
        &&& group.wf()
        &&& group_is_held(group.spec)
    }) by {
        assert(rest[i] == walk.open[i]);
    }
    assert(walk_shows(inside, env, below));
    if let Some(group) = walk.open.last() {
        let at = level_of(rest) as int;
        lemma_level(rest, window);
        if at > 0 {
            assert(rest[at - 1] is Some);
        }
        assert(target_shows(gpu_after(walk.plan.commands), group.parent, below[at]));
        lemma_pop_shows(walk, env, pictures.last(), below[at]);
        lemma_level_shows(
            inside,
            after,
            env,
            below,
            laid_on(group, env, pictures.last(), below[at]),
        );
    } else {
        lemma_level(walk.open, window);
        lemma_level(rest, window);
    }
}

#[verifier::rlimit(40)]
proof fn lemma_walk_shows(plan: PlanModel, scene: SceneModel, n: nat, env: FrameEnvironment)
    requires
        scene.wf(),
        groups_are_held(scene),
        viewport_is_sane(env.viewport),
        n <= scene.steps.len(),
        ({
            let walk = WalkModel::begun(plan, env).walked(scene, n, env);
            !walk.failed && walk.plan.scratch.targets.reported is None
        }),
    ensures
        ({
            let walk = WalkModel::begun(plan, env).walked(scene, n, env);
            walk_shows(walk, env, pictures_after(plan, scene, n, env))
        }),
    decreases n,
{
    let begun = WalkModel::begun(plan, env);
    reveal(SceneModel::wf);
    if n == 0 {
        let none = PlanModel { commands: Seq::empty(), ..begun.plan };
        let begin = CommandModel::BeginPass {
            target: window_target(env.viewport),
            clear: Clear::Window,
        };
        lemma_gpu_emits(none, begin);
        assert(none.emitted(begin).commands =~= begun.plan.commands);
    } else {
        lemma_walks(plan, scene, (n - 1) as nat, env);
        lemma_walks(plan, scene, n, env);
        let walk = begun.walked(scene, (n - 1) as nat, env);
        let after = begun.walked(scene, n, env);
        let window = window_target(env.viewport);
        assert(!walk.failed);
        assert(scene.steps.take(n as int).drop_last() =~= scene.steps.take(n - 1));
        assert(scene.steps.take(n as int).last() == scene.steps[n - 1]);
        lemma_step_goes_on(walk, scene, n - 1, env);
        lemma_walk_shows(plan, scene, (n - 1) as nat, env);
        let before = pictures_after(plan, scene, (n - 1) as nat, env);
        match scene.steps[n - 1] {
            SceneStepRecord::Run(id) => {
                let batches = batches_of(scene.arrays, scene.segments[id.0 as int]);
                let at = level_of(walk.open) as int;
                lemma_level(walk.open, window);
                if at > 0 {
                    assert(walk.open[at - 1] is Some);
                }
                lemma_batches_show(
                    walk.plan,
                    scene.arrays,
                    batches,
                    batches.len(),
                    walk.target,
                    env,
                    before[at],
                );
                lemma_level_shows(
                    walk,
                    after,
                    env,
                    before,
                    painted_on(
                        before[at],
                        scene.arrays,
                        batches,
                        batches.len(),
                        walk.target.render_target,
                    ),
                );
            },
            SceneStepRecord::PushGroup(id) => {
                assert(group_is_held(scene.groups[id.0 as int]));
                lemma_pushed_shows(walk, scene.groups[id.0 as int], env, before);
            },
            SceneStepRecord::PopGroup => {
                lemma_popped_shows(walk, env, before);
            },
        }
    }
}

/// Whether some commands start with others.
pub open spec fn start_with(commands: Seq<CommandModel>, first: Seq<CommandModel>) -> bool {
    first.len() <= commands.len() && commands.take(first.len() as int) == first
}

proof fn lemma_starts_join(a: Seq<CommandModel>, b: Seq<CommandModel>, c: Seq<CommandModel>)
    requires
        start_with(b, a),
        start_with(c, b),
    ensures
        start_with(c, a),
{
    assert(c.take(a.len() as int) =~= b.take(a.len() as int)) by {
        assert forall|i: int| 0 <= i < a.len() implies c[i] == b[i] by {
            assert(c.take(b.len() as int)[i] == b[i]);
        }
    }
}

pub proof fn lemma_starts_emit(plan: PlanModel, command: CommandModel)
    ensures
        start_with(plan.emitted(command).commands, plan.commands),
{
    assert(plan.emitted(command).commands.take(plan.commands.len() as int) =~= plan.commands);
}

proof fn lemma_batches_go_on(
    plan: PlanModel,
    arrays: Arrays,
    batches: Seq<BatchModel>,
    n: nat,
    target: ActiveTarget,
    env: FrameEnvironment,
)
    ensures
        ({
            let after = plan.batches_drawn(arrays, batches, n, target, env).0;
            &&& start_with(after.commands, plan.commands)
            &&& after.scratch == plan.scratch
            &&& forall|k: int|
                plan.commands.len() <= k < after.commands.len() ==> !(
                #[trigger] after.commands[k] is Composite)
        }),
    decreases n,
{
    if n == 0 {
        assert(plan.commands.take(plan.commands.len() as int) =~= plan.commands);
    } else {
        lemma_batches_go_on(plan, arrays, batches, (n - 1) as nat, target, env);
        let before = plan.batches_drawn(arrays, batches, (n - 1) as nat, target, env).0;
        let after = plan.batches_drawn(arrays, batches, n, target, env).0;
        assert(after.commands.take(before.commands.len() as int) =~= before.commands);
        assert forall|k: int| plan.commands.len() <= k < after.commands.len() implies !(
        #[trigger] after.commands[k] is Composite) by {
            if k < before.commands.len() {
                assert(after.commands.take(before.commands.len() as int)[k] == before.commands[k]);
            }
        }
        lemma_starts_join(plan.commands, before.commands, after.commands);
    }
}

/// A step adds to the commands, lays down a group at the end of one that has a
/// target and at no other time, and what the pool has said stays said.
#[verifier::rlimit(40)]
proof fn lemma_step_goes_on(walk: WalkModel, scene: SceneModel, i: int, env: FrameEnvironment)
    requires
        walk_holds(walk, env),
        scene.steps[i] is PopGroup ==> walk.open.len() > 0,
    ensures
        ({
            let after = walk.stepped(scene, i, env);
            let from = walk.plan.commands.len() as int;
            &&& start_with(after.plan.commands, walk.plan.commands)
            &&& walk.plan.scratch.targets.reported is Some
                ==> after.plan.scratch.targets.reported is Some
            &&& !(scene.steps[i] is PopGroup && !walk.failed && walk.open.last() is Some)
                ==> forall|k: int|
                from <= k < after.plan.commands.len() ==> !(
                #[trigger] after.plan.commands[k] is Composite)
            &&& scene.steps[i] is PopGroup && !walk.failed && walk.open.last() is Some ==> {
                let group = walk.open.last()->0;
                let at = after.plan.commands.len() - 1;
                &&& from <= at
                &&& forall|k: int|
                    from <= k < at ==> !(#[trigger] after.plan.commands[k] is Composite)
                &&& after.plan.commands[at] matches CommandModel::Composite {
                    compose,
                    clipped,
                    composite,
                    ..
                } && {
                    &&& composite.opacity == clamped(group.spec.opacity)
                    &&& compose == operator_of(group.spec.blend.compose)
                    &&& composite.clip == group.spec.clip
                    &&& clipped == (group.spec.clip.0 != 0 && env.has_clip_textures)
                }
            }
        }),
{
    let after = walk.stepped(scene, i, env);
    let from = walk.plan.commands.len() as int;
    let window = window_target(env.viewport);
    assert(walk.plan.commands.take(from) =~= walk.plan.commands);
    if !walk.failed {
        match scene.steps[i] {
            SceneStepRecord::Run(id) => {
                let batches = batches_of(scene.arrays, scene.segments[id.0 as int]);
                lemma_batches_go_on(
                    walk.plan,
                    scene.arrays,
                    batches,
                    batches.len(),
                    walk.target,
                    env,
                );
            },
            SceneStepRecord::PushGroup(id) => {
                reveal(TargetsModel::acquired);
                let spec = scene.groups[id.0 as int];
                let (plan, opened) = walk.plan.group_opened(
                    spec,
                    walk.target,
                    env,
                    walk.open.len(),
                );
                assert(plan.commands == walk.plan.commands);
                assert(after.plan.commands.take(from) =~= walk.plan.commands);
            },
            SceneStepRecord::PopGroup => {
                if let Some(group) = walk.open.last() {
                    let last = walk.open.len() - 1;
                    assert(walk.open[last] == walk.open.last());
                    assert(walk.open.take(last) =~= walk.open.drop_last());
                    lemma_nest_shrinks(walk.open, window);
                    lemma_innermost_texture(walk.open.drop_last(), window);
                    let ended = walk.plan.emitted(CommandModel::EndPass);
                    lemma_starts_emit(walk.plan, CommandModel::EndPass);
                    lemma_prepares(ended, group, env);
                    let (ready, prepared) = ended.group_prepared(group, env);
                    let begin = CommandModel::BeginPass {
                        target: group.parent,
                        clear: Clear::Keep,
                    };
                    let begun = ready.emitted(begin);
                    let command = composite_of(group, prepared, env);
                    assert(after.plan.commands == begun.commands.push(command));
                    lemma_starts_join(walk.plan.commands, ended.commands, ready.commands);
                    lemma_starts_emit(ready, begin);
                    lemma_starts_join(walk.plan.commands, ready.commands, begun.commands);
                    assert(after.plan.commands.take(begun.commands.len() as int)
                        =~= begun.commands);
                    lemma_starts_join(
                        walk.plan.commands,
                        begun.commands,
                        after.plan.commands,
                    );
                    let at = after.plan.commands.len() - 1;
                    assert forall|k: int| from <= k < at implies !(
                    #[trigger] after.plan.commands[k] is Composite) by {
                        assert(after.plan.commands[k] == begun.commands[k]);
                        if k < ready.commands.len() {
                            assert(begun.commands[k] == ready.commands[k]);
                            if k >= ended.commands.len() {
                                assert(is_offscreen(ready.commands[k]));
                            } else {
                                assert(ready.commands.take(ended.commands.len() as int)[k]
                                    == ended.commands[k]);
                            }
                        }
                    }
                }
            },
        }
    }
}

/// The groups that some steps open and do not close, outermost first.
pub open spec fn groups_open(steps: Seq<SceneStepRecord>) -> Seq<GroupId>
    decreases steps.len(),
{
    if steps.len() == 0 {
        Seq::empty()
    } else {
        let before = groups_open(steps.drop_last());
        match steps.last() {
            SceneStepRecord::Run(_) => before,
            SceneStepRecord::PushGroup(id) => before.push(id),
            SceneStepRecord::PopGroup => before.drop_last(),
        }
    }
}

/// What a step does to the groups that are open.
proof fn lemma_step_opens(walk: WalkModel, scene: SceneModel, i: int, env: FrameEnvironment)
    requires
        !walk.failed,
    ensures
        ({
            let open = walk.stepped(scene, i, env).open;
            match scene.steps[i] {
                SceneStepRecord::Run(_) => open == walk.open,
                SceneStepRecord::PopGroup => open == walk.open.drop_last(),
                SceneStepRecord::PushGroup(id) => {
                    &&& open.len() == walk.open.len() + 1
                    &&& open.drop_last() == walk.open
                    &&& open.last() matches Some(group) ==> {
                        &&& group.spec == scene.groups[id.0 as int]
                        &&& group.rect == group_rect(group.spec, env.viewport)
                        &&& group.target.render_target == placed(group.rect)
                    }
                },
            }
        }),
{
    let open = walk.stepped(scene, i, env).open;
    if let SceneStepRecord::PushGroup(id) = scene.steps[i] {
        assert(open.drop_last() =~= walk.open);
    }
}

/// The groups that a walk holds open are those the scene has open there, each
/// over the pixels of the window that it covers, with a target where they are
/// not too many and the memory is not refused.
#[verifier::rlimit(40)]
pub proof fn open_groups_are_the_scenes(
    plan: PlanModel,
    scene: SceneModel,
    n: nat,
    env: FrameEnvironment,
)
    requires
        scene.wf(),
        n <= scene.steps.len(),
        !WalkModel::begun(plan, env).walked(scene, n, env).failed,
    ensures
        ({
            let open = WalkModel::begun(plan, env).walked(scene, n, env).open;
            let ids = groups_open(scene.steps.take(n as int));
            &&& open.len() == ids.len()
            &&& forall|i: int|
                0 <= i < open.len() ==> ((#[trigger] open[i]) matches Some(group) ==> {
                    &&& group.spec == scene.groups[ids[i].0 as int]
                    &&& group.rect == group_rect(group.spec, env.viewport)
                    &&& group.target.render_target == placed(group.rect)
                })
        }),
    decreases n,
{
    let begun = WalkModel::begun(plan, env);
    let ids = groups_open(scene.steps.take(n as int));
    reveal(SceneModel::wf);
    if n == 0 {
        assert(scene.steps.take(0) =~= Seq::<SceneStepRecord>::empty());
    } else {
        let walk = begun.walked(scene, (n - 1) as nat, env);
        let after = begun.walked(scene, n, env);
        assert(scene.steps.take(n as int).drop_last() =~= scene.steps.take(n - 1));
        assert(scene.steps.take(n as int).last() == scene.steps[n - 1]);
        assert(!walk.failed);
        lemma_walks(plan, scene, (n - 1) as nat, env);
        lemma_walks(plan, scene, n, env);
        open_groups_are_the_scenes(plan, scene, (n - 1) as nat, env);
        lemma_step_opens(walk, scene, n - 1, env);
        let before = groups_open(scene.steps.take(n - 1));
        assert forall|i: int| 0 <= i < after.open.len() implies ((
        #[trigger] after.open[i]) matches Some(group) ==> {
            &&& group.spec == scene.groups[ids[i].0 as int]
            &&& group.rect == group_rect(group.spec, env.viewport)
            &&& group.target.render_target == placed(group.rect)
        }) by {
            if i < walk.open.len() {
                if scene.steps[n - 1] is PushGroup {
                    assert(after.open.drop_last()[i] == after.open[i]);
                }
                assert(after.open[i] == walk.open[i]);
                assert(ids[i] == before[i]);
            } else {
                assert(after.open[i] == after.open.last());
            }
        }
    }
}

/// What is drawn first stays: a walk's commands start with those it had before.
pub proof fn lemma_walk_grows(
    plan: PlanModel,
    scene: SceneModel,
    n: nat,
    m: nat,
    env: FrameEnvironment,
)
    requires
        scene.wf(),
        n <= m <= scene.steps.len(),
    ensures
        ({
            let begun = WalkModel::begun(plan, env);
            let earlier = begun.walked(scene, n, env).plan;
            let later = begun.walked(scene, m, env).plan;
            &&& start_with(later.commands, earlier.commands)
            &&& earlier.scratch.targets.reported is Some
                ==> later.scratch.targets.reported is Some
        }),
    decreases m,
{
    let begun = WalkModel::begun(plan, env);
    let earlier = begun.walked(scene, n, env);
    if n == m {
        assert(earlier.plan.commands.take(earlier.plan.commands.len() as int)
            =~= earlier.plan.commands);
    } else {
        lemma_walk_grows(plan, scene, n, (m - 1) as nat, env);
        let walk = begun.walked(scene, (m - 1) as nat, env);
        let after = begun.walked(scene, m, env);
        reveal(SceneModel::wf);
        lemma_walks(plan, scene, (m - 1) as nat, env);
        assert(scene.steps.take(m as int).drop_last() =~= scene.steps.take(m - 1));
        assert(scene.steps.take(m as int).last() == scene.steps[m - 1]);
        if !walk.failed {
            assert(depth_after(scene.steps.take(m as int)) >= 0);
            lemma_step_goes_on(walk, scene, m - 1, env);
            lemma_starts_join(earlier.plan.commands, walk.plan.commands, after.plan.commands);
        }
    }
}

/// Where in a frame's commands the group that the `n`th step of the scene ends
/// is laid down.
pub open spec fn laid_down_at(
    plan: PlanModel,
    scene: SceneModel,
    n: nat,
    env: FrameEnvironment,
) -> int {
    WalkModel::begun(plan, env).walked(scene, n + 1, env).plan.commands.len() - 1
}

/// Whether the `n`th step of a scene ends a group that has a target of its own.
pub open spec fn ends_an_isolated_group(
    plan: PlanModel,
    scene: SceneModel,
    n: nat,
    env: FrameEnvironment,
) -> bool {
    let walk = WalkModel::begun(plan, env).walked(scene, n, env);
    &&& n < scene.steps.len()
    &&& scene.steps[n as int] is PopGroup
    &&& !walk.failed
    &&& walk.open.last() is Some
}

/// Every group that has a target of its own is laid down once, where it ends:
/// at the opacity that the scene gives it, or none of it where that is less, or
/// all of it where that is more; by the operator the scene gives it, where there
/// is one like it; and within the scene's clip.
#[verifier::rlimit(40)]
pub proof fn groups_are_laid_down_as_the_scene_says(
    plan: PlanModel,
    scene: SceneModel,
    n: nat,
    env: FrameEnvironment,
)
    requires
        scene.wf(),
        ends_an_isolated_group(plan, scene, n, env),
    ensures
        ({
            let spec = scene.groups[groups_open(scene.steps.take(n as int)).last().0 as int];
            let commands = frame_of(plan, scene, env).plan.commands;
            let from = WalkModel::begun(plan, env).walked(scene, n, env).plan.commands.len();
            let at = laid_down_at(plan, scene, n, env);
            &&& groups_open(scene.steps.take(n as int)).len() > 0
            &&& from <= at < commands.len()
            &&& forall|k: int| from <= k < at ==> !(#[trigger] commands[k] is Composite)
            &&& commands[at] matches CommandModel::Composite { compose, clipped, composite, .. } && {
                &&& 0 <= spec.opacity <= ONE ==> composite.opacity == spec.opacity
                &&& spec.opacity < 0 ==> composite.opacity == 0
                &&& spec.opacity > ONE ==> composite.opacity == ONE
                &&& compose == operator_of(spec.blend.compose)
                &&& composite.clip == spec.clip
                &&& clipped == (spec.clip.0 != 0 && env.has_clip_textures)
            }
        }),
{
    let begun = WalkModel::begun(plan, env);
    let walk = begun.walked(scene, n, env);
    let after = begun.walked(scene, n + 1, env);
    let all = begun.walked(scene, scene.steps.len(), env);
    let commands = frame_of(plan, scene, env).plan.commands;
    lemma_walks(plan, scene, n, env);
    lemma_walks(plan, scene, n + 1, env);
    open_groups_are_the_scenes(plan, scene, n, env);
    reveal(SceneModel::wf);
    assert(scene.steps.take(n + 1int).drop_last() =~= scene.steps.take(n as int));
    assert(scene.steps.take(n + 1int).last() == scene.steps[n as int]);
    assert(depth_after(scene.steps.take(n + 1int)) >= 0);
    lemma_step_goes_on(walk, scene, n as int, env);
    lemma_walk_grows(plan, scene, n + 1, scene.steps.len(), env);
    if !all.failed {
        lemma_starts_emit(all.plan, CommandModel::EndPass);
        lemma_starts_join(after.plan.commands, all.plan.commands, commands);
    }
    let at = laid_down_at(plan, scene, n, env);
    let from = walk.plan.commands.len() as int;
    assert(walk.open[walk.open.len() - 1] == walk.open.last());
    assert forall|k: int| from <= k <= at implies commands[k] == after.plan.commands[k] by {
        assert(commands.take(after.plan.commands.len() as int)[k] == after.plan.commands[k]);
    }
}

proof fn lemma_composites(
    plan: PlanModel,
    scene: SceneModel,
    m: nat,
    env: FrameEnvironment,
    k: int,
)
    requires
        scene.wf(),
        m <= scene.steps.len(),
        0 <= k < WalkModel::begun(plan, env).walked(scene, m, env).plan.commands.len(),
        WalkModel::begun(plan, env).walked(scene, m, env).plan.commands[k] is Composite,
    ensures
        exists|n: nat|
            #[trigger] ends_an_isolated_group(plan, scene, n, env) && k == laid_down_at(
                plan,
                scene,
                n,
                env,
            ),
    decreases m,
{
    let begun = WalkModel::begun(plan, env);
    if m > 0 {
        let walk = begun.walked(scene, (m - 1) as nat, env);
        let after = begun.walked(scene, m, env);
        reveal(SceneModel::wf);
        lemma_walks(plan, scene, (m - 1) as nat, env);
        assert(scene.steps.take(m as int).drop_last() =~= scene.steps.take(m - 1));
        assert(scene.steps.take(m as int).last() == scene.steps[m - 1]);
        if walk.failed {
            lemma_composites(plan, scene, (m - 1) as nat, env, k);
        } else {
            assert(depth_after(scene.steps.take(m as int)) >= 0);
            lemma_step_goes_on(walk, scene, m - 1, env);
            if k < walk.plan.commands.len() {
                assert(after.plan.commands.take(walk.plan.commands.len() as int)[k]
                    == walk.plan.commands[k]);
                lemma_composites(plan, scene, (m - 1) as nat, env, k);
            } else {
                assert(ends_an_isolated_group(plan, scene, (m - 1) as nat, env));
                assert(k == laid_down_at(plan, scene, (m - 1) as nat, env));
            }
        }
    }
}

/// Nothing else is laid down: a frame lays a picture down only where a step of
/// the scene ends a group that has a target of its own.
pub proof fn only_groups_are_laid_down(
    plan: PlanModel,
    scene: SceneModel,
    env: FrameEnvironment,
    k: int,
)
    requires
        scene.wf(),
        0 <= k < frame_of(plan, scene, env).plan.commands.len(),
        frame_of(plan, scene, env).plan.commands[k] is Composite,
    ensures
        exists|n: nat|
            #[trigger] ends_an_isolated_group(plan, scene, n, env) && k == laid_down_at(
                plan,
                scene,
                n,
                env,
            ),
{
    lemma_composites(plan, scene, scene.steps.len(), env, k);
}

/// A frame leaves its scene in the window: every run of primitives is painted
/// on the group it is in, in the scene's order; every group is laid, under its
/// filter, at its opacity, by its operator and within its clip, on the group
/// around it, over what its backdrop filter makes of that; and the outermost
/// groups are laid on the window's background. This is so where the filters'
/// memory was not refused.
pub proof fn a_frame_shows_its_scene(plan: PlanModel, scene: SceneModel, env: FrameEnvironment)
    requires
        scene.wf(),
        groups_are_held(scene),
        viewport_is_sane(env.viewport),
        !frame_of(plan, scene, env).failed,
        frame_of(plan, scene, env).plan.scratch.targets.reported is None,
    ensures
        ({
            let now = gpu_after(frame_of(plan, scene, env).plan.commands);
            &&& target_shows(
                now,
                window_target(env.viewport),
                pictures_after(plan, scene, scene.steps.len(), env)[0],
            )
            &&& scene.open.len() == 0 ==> pictures_after(
                plan,
                scene,
                scene.steps.len(),
                env,
            ).len() == 1
            &&& now.target is None
        }),
{
    let walk = WalkModel::begun(plan, env).walked(scene, scene.steps.len(), env);
    lemma_walk_shows(plan, scene, scene.steps.len(), env);
    lemma_gpu_emits(walk.plan, CommandModel::EndPass);
    lemma_walks(plan, scene, scene.steps.len(), env);
    reveal(SceneModel::wf);
    assert(scene.steps.take(scene.steps.len() as int) =~= scene.steps);
}

} // verus!
