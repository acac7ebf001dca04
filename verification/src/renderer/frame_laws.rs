//! What holds of every frame.

use crate::color::Hsla;
use crate::geometry::Point;
use crate::renderer::extent::DeviceRect;
use crate::renderer::filter_ops::{steps_of, FilterEdge, FilterPass, FilterPipeline, StepModel};
use crate::renderer::frame::{
    backdrop_rect, borrowed, rect_of, steps_before_colours, FrameEnvironment, IsolatedModel,
    PreparedModel,
};
use crate::renderer::passes::{downwards, rightwards, CommandModel, PlanModel};
use crate::renderer::scratch::{first_free, lemma_first_free, FilterImage};
use crate::renderer::targets::{TargetsModel, Texture, MAX_FILTER_SCRATCH};
use vstd::prelude::*;

verus! {

/// Whether an image's texture, where it is a working one, is in use.
pub open spec fn is_held(in_use: Seq<bool>, image: FilterImage) -> bool {
    image.texture matches Texture::Scratch(slot) ==> slot < in_use.len() && in_use[slot as int]
}

/// Whether an image is in the working texture whose slot it hands back.
pub open spec fn owns_its_slot(image: FilterImage) -> bool {
    image.slot matches Some(slot) ==> image.texture == Texture::Scratch(slot)
}

/// Whether `slot` is taken in `after`, was free in `before`, and nothing else
/// has changed.
pub open spec fn is_granted(before: Seq<bool>, after: Seq<bool>, image: FilterImage) -> bool {
    match image.slot {
        None => false,
        Some(slot) => {
            &&& slot < before.len()
            &&& !before[slot as int]
            &&& after == before.update(slot as int, true)
            &&& image.texture == Texture::Scratch(slot)
        },
    }
}

/// Whether a command writes no texture that it reads.
pub open spec fn reads_elsewhere(command: CommandModel) -> bool {
    match command {
        CommandModel::Filter { source, blurred, destination, .. } => source != destination.texture
            && blurred != destination.texture,
        CommandModel::CopyBackdrop { from, to, .. } => from != to.texture,
        _ => true,
    }
}

/// Whether a command is one that a frame gives outside any of its own passes,
/// and writes no texture that it reads.
pub open spec fn is_offscreen(command: CommandModel) -> bool {
    (command is Filter || command is CopyBackdrop) && reads_elsewhere(command)
}

/// Whether one plan goes on from another with offscreen work alone.
pub open spec fn goes_on(before: PlanModel, after: PlanModel) -> bool {
    &&& before.commands.len() <= after.commands.len()
    &&& after.commands.take(before.commands.len() as int) == before.commands
    &&& forall|i: int|
        before.commands.len() <= i < after.commands.len() ==> is_offscreen(
            #[trigger] after.commands[i],
        )
    &&& before.scratch.targets.reported is Some ==> after.scratch.targets.reported is Some
    &&& after.targets.levels == before.targets.levels
    &&& after.scratch.in_use.len() == before.scratch.in_use.len()
}

pub proof fn lemma_goes_on_joins(a: PlanModel, b: PlanModel, c: PlanModel)
    requires
        goes_on(a, b),
        goes_on(b, c),
    ensures
        goes_on(a, c),
{
    let n = a.commands.len() as int;
    assert(c.commands.take(n) =~= b.commands.take(n)) by {
        assert forall|i: int| 0 <= i < n implies c.commands.take(n)[i] == b.commands.take(n)[i] by {
            assert(c.commands.take(b.commands.len() as int)[i] == b.commands[i]);
        }
    }
    assert forall|i: int| n <= i < c.commands.len() implies is_offscreen(
        #[trigger] c.commands[i],
    ) by {
        if i < b.commands.len() {
            assert(c.commands.take(b.commands.len() as int)[i] == b.commands[i]);
            assert(is_offscreen(b.commands[i]));
        }
    }
}

proof fn lemma_goes_on_itself(a: PlanModel, b: PlanModel)
    requires
        a.commands == b.commands,
        a.scratch.targets.reported is Some ==> b.scratch.targets.reported is Some,
        a.targets.levels == b.targets.levels,
        a.scratch.in_use.len() == b.scratch.in_use.len(),
    ensures
        goes_on(a, b),
{
    assert(b.commands.take(a.commands.len() as int) =~= a.commands);
}

proof fn lemma_emits(plan: PlanModel, command: CommandModel)
    requires
        is_offscreen(command),
    ensures
        goes_on(plan, plan.emitted(command)),
{
    let after = plan.emitted(command);
    assert(after.commands.take(plan.commands.len() as int) =~= plan.commands);
}

pub proof fn lemma_acquires(plan: PlanModel, rect: DeviceRect)
    requires
        plan.scratch.in_use.len() == MAX_FILTER_SCRATCH,
    ensures
        goes_on(plan, plan.acquired(rect).0),
        match plan.acquired(rect).1 {
            None => {
                &&& plan.acquired(rect).0.scratch.in_use == plan.scratch.in_use
                &&& first_free(plan.scratch.in_use, 0) is Some ==> plan.acquired(
                    rect,
                ).0.scratch.targets.reported is Some
            },
            Some(image) => is_granted(
                plan.scratch.in_use,
                plan.acquired(rect).0.scratch.in_use,
                image,
            ),
        },
{
    reveal(TargetsModel::acquired);
    lemma_first_free(plan.scratch.in_use, 0);
    lemma_goes_on_itself(plan, plan.acquired(rect).0);
}

/// What holds of one pass: it writes a texture that was free, and so none that
/// is held.
proof fn lemma_passes(
    plan: PlanModel,
    rect: DeviceRect,
    pipeline: FilterPipeline,
    pass: FilterPass,
    matrices: Seq<[i64; 20]>,
    source: FilterImage,
    blurred: FilterImage,
)
    requires
        plan.scratch.in_use.len() == MAX_FILTER_SCRATCH,
        is_held(plan.scratch.in_use, source),
        is_held(plan.scratch.in_use, blurred),
    ensures
        ({
            let (after, image) = plan.passed(
                rect,
                pipeline,
                pass,
                matrices,
                source.texture,
                blurred.texture,
            );
            &&& goes_on(plan, after)
            &&& match image {
                None => {
                    &&& after.scratch.in_use == plan.scratch.in_use
                    &&& first_free(plan.scratch.in_use, 0) is Some
                        ==> after.scratch.targets.reported is Some
                },
                Some(image) => is_granted(plan.scratch.in_use, after.scratch.in_use, image),
            }
        }),
{
    lemma_acquires(plan, rect);
    let (got, image) = plan.acquired(rect);
    if let Some(destination) = image {
        let command = CommandModel::Filter {
            pipeline,
            pass,
            matrices,
            source: source.texture,
            blurred: blurred.texture,
            destination,
        };
        lemma_emits(got, command);
        lemma_goes_on_joins(plan, got, got.emitted(command));
    }
}

/// What holds of a step of a filter: it leaves the slots as they were but for
/// that of the image it writes, and where it writes none the pool has said so.
pub open spec fn step_holds(
    before: PlanModel,
    after: PlanModel,
    image: Option<FilterImage>,
    runs: bool,
) -> bool {
    &&& goes_on(before, after)
    &&& match image {
        None => {
            &&& after.scratch.in_use == before.scratch.in_use
            &&& runs && taken(before.scratch.in_use) <= 3 ==> after.scratch.targets.reported is Some
        },
        Some(image) => is_granted(before.scratch.in_use, after.scratch.in_use, image),
    }
}

/// How many slots are in use.
pub open spec fn taken(in_use: Seq<bool>) -> nat
    decreases in_use.len(),
{
    if in_use.len() == 0 {
        0
    } else {
        taken(in_use.drop_last()) + if in_use.last() {
            1nat
        } else {
            0nat
        }
    }
}

pub proof fn lemma_taken(in_use: Seq<bool>, slot: int)
    requires
        0 <= slot < in_use.len(),
        !in_use[slot],
    ensures
        taken(in_use.update(slot, true)) == taken(in_use) + 1,
    decreases in_use.len(),
{
    let after = in_use.update(slot, true);
    if slot == in_use.len() - 1 {
        assert(after.drop_last() =~= in_use.drop_last());
    } else {
        assert(after.drop_last() =~= in_use.drop_last().update(slot, true));
        lemma_taken(in_use.drop_last(), slot);
    }
}

proof fn lemma_all_taken(in_use: Seq<bool>)
    requires
        forall|i: int| 0 <= i < in_use.len() ==> in_use[i],
    ensures
        taken(in_use) == in_use.len(),
    decreases in_use.len(),
{
    if in_use.len() > 0 {
        lemma_all_taken(in_use.drop_last());
    }
}

pub proof fn lemma_some_are_free(in_use: Seq<bool>)
    requires
        taken(in_use) < in_use.len(),
    ensures
        first_free(in_use, 0) is Some,
{
    lemma_first_free(in_use, 0);
    if first_free(in_use, 0) is None {
        lemma_all_taken(in_use);
    }
}

pub proof fn lemma_smears(
    plan: PlanModel,
    rect: DeviceRect,
    from: FilterImage,
    sigma: i64,
    direction: Point<i64>,
    edge: FilterEdge,
)
    requires
        plan.scratch.in_use.len() == MAX_FILTER_SCRATCH,
        is_held(plan.scratch.in_use, from),
    ensures
        ({
            let (after, image) = plan.smeared(rect, from, sigma, direction, edge);
            &&& goes_on(plan, after)
            &&& match image {
                None => {
                    &&& after.scratch.in_use == plan.scratch.in_use
                    &&& first_free(plan.scratch.in_use, 0) is Some
                        ==> after.scratch.targets.reported is Some
                },
                Some(image) => is_granted(plan.scratch.in_use, after.scratch.in_use, image),
            }
        }),
{
    let pass = FilterPass::blurring(from.extent(), sigma, direction, edge);
    lemma_passes(plan, rect, FilterPipeline::Blur, pass, Seq::empty(), from, from);
    let (drawn, image) = plan.passed(
        rect,
        FilterPipeline::Blur,
        pass,
        Seq::empty(),
        from.texture,
        from.texture,
    );
    let after = plan.smeared(rect, from, sigma, direction, edge).0;
    lemma_goes_on_itself(drawn, after);
    lemma_goes_on_joins(plan, drawn, after);
}

pub proof fn lemma_releases(plan: PlanModel, image: FilterImage)
    requires
        image.slot matches Some(slot) ==> slot < plan.scratch.in_use.len(),
    ensures
        goes_on(plan, plan.released(image)),
{
    lemma_goes_on_itself(plan, plan.released(image));
}

pub proof fn lemma_blurs(
    plan: PlanModel,
    source: FilterImage,
    sigma_x: i64,
    sigma_y: i64,
    edge: FilterEdge,
)
    requires
        plan.scratch.in_use.len() == MAX_FILTER_SCRATCH,
        is_held(plan.scratch.in_use, source),
    ensures
        step_holds(
            plan,
            plan.blurred(source, sigma_x, sigma_y, edge).0,
            plan.blurred(source, sigma_x, sigma_y, edge).1,
            sigma_x > 0 || sigma_y > 0,
        ),
{
    let slots = plan.scratch.in_use;
    let (after, image) = plan.blurred(source, sigma_x, sigma_y, edge);
    let (across, first) = if sigma_x > 0 {
        plan.smeared(source.rect, source, sigma_x, rightwards(), edge)
    } else {
        (plan, None)
    };
    if taken(slots) <= 3 {
        lemma_some_are_free(slots);
    }
    if sigma_x > 0 {
        lemma_smears(plan, source.rect, source, sigma_x, rightwards(), edge);
    } else {
        lemma_goes_on_itself(plan, plan);
    }
    if !(sigma_x > 0 && first is None || sigma_y <= 0) {
        let from = match first {
            None => source,
            Some(image) => image,
        };
        lemma_smears(across, source.rect, from, sigma_y, downwards(), edge);
        let (down, second) = across.smeared(source.rect, from, sigma_y, downwards(), edge);
        lemma_goes_on_joins(plan, across, down);
        match second {
            None => {},
            Some(written) => {
                match first {
                    None => {},
                    Some(previous) => {
                        lemma_releases(down, previous);
                        lemma_goes_on_joins(plan, down, down.released(previous));
                        let gone = previous.slot->0 as int;
                        let kept = written.slot->0 as int;
                        assert(down.released(previous).scratch.in_use =~= slots.update(kept, true));
                    },
                }
            },
        }
    }
}

proof fn lemma_shadows(
    plan: PlanModel,
    source: FilterImage,
    offset: Point<i64>,
    sigma: i64,
    color: Hsla,
    edge: FilterEdge,
)
    requires
        plan.scratch.in_use.len() == MAX_FILTER_SCRATCH,
        is_held(plan.scratch.in_use, source),
    ensures
        step_holds(
            plan,
            plan.shadowed(source, offset, sigma, color, edge).0,
            plan.shadowed(source, offset, sigma, color, edge).1,
            true,
        ),
{
    let slots = plan.scratch.in_use;
    if taken(slots) <= 3 {
        lemma_some_are_free(slots);
    }
    let (spread, blurred) = if sigma > 0 {
        plan.blurred(source, sigma, sigma, FilterEdge::Transparent)
    } else {
        (plan, None)
    };
    if sigma > 0 {
        lemma_blurs(plan, source, sigma, sigma, FilterEdge::Transparent);
    } else {
        lemma_goes_on_itself(plan, plan);
    }
    if !(sigma > 0 && blurred is None) {
        let shadow = match blurred {
            None => source,
            Some(image) => image,
        };
        let pass = FilterPass { offset, color, ..FilterPass::plain(source.extent(), edge) };
        lemma_passes(
            spread,
            source.rect,
            FilterPipeline::DropShadow,
            pass,
            Seq::empty(),
            source,
            shadow,
        );
        let (drawn, image) = spread.passed(
            source.rect,
            FilterPipeline::DropShadow,
            pass,
            Seq::empty(),
            source.texture,
            shadow.texture,
        );
        lemma_goes_on_joins(plan, spread, drawn);
        if let Some(previous) = blurred {
            let gone = previous.slot->0 as int;
            if taken(slots) <= 3 {
                lemma_taken(slots, gone);
                lemma_some_are_free(spread.scratch.in_use);
            }
            lemma_releases(drawn, previous);
            lemma_goes_on_joins(plan, drawn, drawn.released(previous));
            match image {
                None => {
                    assert(drawn.released(previous).scratch.in_use =~= slots);
                },
                Some(written) => {
                    let kept = written.slot->0 as int;
                    assert(drawn.released(previous).scratch.in_use =~= slots.update(kept, true));
                },
            }
        }
    }
}

/// Whether a step moves anything.
pub open spec fn step_runs(step: StepModel) -> bool {
    match step {
        StepModel::Blur { sigma_x, sigma_y } => sigma_x as i64 > 0 || sigma_y as i64 > 0,
        _ => true,
    }
}

pub proof fn lemma_steps(plan: PlanModel, step: StepModel, source: FilterImage, edge: FilterEdge)
    requires
        plan.scratch.in_use.len() == MAX_FILTER_SCRATCH,
        is_held(plan.scratch.in_use, source),
    ensures
        step_holds(
            plan,
            plan.stepped(step, source, edge).0,
            plan.stepped(step, source, edge).1,
            step_runs(step),
        ),
{
    reveal(PlanModel::stepped);
    match step {
        StepModel::Matrices(matrices) => {
            if taken(plan.scratch.in_use) <= 3 {
                lemma_some_are_free(plan.scratch.in_use);
            }
            lemma_passes(
                plan,
                source.rect,
                FilterPipeline::Matrices,
                FilterPass::plain(source.extent(), edge),
                matrices,
                source,
                source,
            );
        },
        StepModel::Blur { sigma_x, sigma_y } => {
            lemma_blurs(plan, source, sigma_x as i64, sigma_y as i64, edge);
        },
        StepModel::DropShadow { offset_x, offset_y, sigma, color } => {
            lemma_shadows(
                plan,
                source,
                Point { x: offset_x as i64, y: offset_y as i64 },
                sigma as i64,
                color,
                edge,
            );
        },
    }
}

/// A step that does anything and is not run, with no more than three working
/// textures taken before it, has been reported: it is memory that it lacked,
/// never a slot.
pub proof fn a_dropped_step_is_reported(
    plan: PlanModel,
    step: StepModel,
    source: FilterImage,
    edge: FilterEdge,
)
    requires
        plan.wf(),
        is_held(plan.scratch.in_use, source),
        taken(plan.scratch.in_use) <= 3,
        step_runs(step),
        plan.stepped(step, source, edge).1 is None,
    ensures
        plan.stepped(step, source, edge).0.scratch.targets.reported is Some,
        plan.stepped(step, source, edge).0.scratch.in_use == plan.scratch.in_use,
{
    lemma_steps(plan, step, source, edge);
}

pub proof fn lemma_filters(
    plan: PlanModel,
    steps: Seq<StepModel>,
    input: FilterImage,
    edge: FilterEdge,
)
    requires
        plan.scratch.in_use.len() == MAX_FILTER_SCRATCH,
        is_held(plan.scratch.in_use, input),
        owns_its_slot(input),
    ensures
        ({
            let (after, image) = plan.filtered(steps, input, edge);
            &&& goes_on(plan, after)
            &&& is_held(after.scratch.in_use, image)
            &&& owns_its_slot(image)
            &&& image == input || image.slot is Some
            &&& after.released(image).scratch.in_use == plan.released(input).scratch.in_use
            &&& input.slot is None ==> forall|i: int|
                0 <= i < plan.scratch.in_use.len() && plan.scratch.in_use[i]
                    ==> #[trigger] after.scratch.in_use[i]
            &&& input.slot is None ==> (image.slot matches Some(slot)
                ==> !plan.scratch.in_use[slot as int])
        }),
    decreases steps.len(),
{
    if steps.len() == 0 {
        lemma_goes_on_itself(plan, plan);
    } else {
        let slots = plan.scratch.in_use;
        lemma_steps(plan, steps[0], input, edge);
        let (mid, next) = plan.stepped(steps[0], input, edge);
        match next {
            None => {
                assert(mid.released(input).scratch.in_use =~= plan.released(
                    input,
                ).scratch.in_use);
            },
            Some(image) => {
                let slot = image.slot->0 as int;
                let freed = mid.released(input);
                lemma_releases(mid, input);
                lemma_goes_on_joins(plan, mid, freed);
                lemma_filters(freed, steps.skip(1), image, edge);
                let (after, last) = freed.filtered(steps.skip(1), image, edge);
                lemma_goes_on_joins(plan, freed, after);
                assert(freed.released(image).scratch.in_use =~= plan.released(
                    input,
                ).scratch.in_use);
                if input.slot is None {
                    let base = plan.scratch.in_use;
                    assert(after.released(last).scratch.in_use == base);
                    assert forall|i: int| 0 <= i < base.len() && base[i] implies (
                    #[trigger] after.scratch.in_use[i]) by {
                        assert(after.released(last).scratch.in_use[i]);
                    }
                }
            },
        }
    }
}

/// What holds of a prepared group: everything but what it holds is free, and
/// nothing but offscreen work has been added.
pub open spec fn preparing_holds(
    before: PlanModel,
    after: PlanModel,
    prepared: PreparedModel,
) -> bool {
    &&& goes_on(before, after)
    &&& after.prepared_released(prepared).scratch.in_use == before.scratch.in_use
}

pub proof fn lemma_prepares_backdrop(
    plan: PlanModel,
    group: IsolatedModel,
    filter: crate::scene::filter::FilterModel,
    env: FrameEnvironment,
)
    requires
        plan.scratch.in_use.len() == MAX_FILTER_SCRATCH,
        !(group.parent.texture is Scratch),
    ensures
        ({
            let (after, backdrop) = plan.backdrop_prepared(group, filter, env);
            &&& goes_on(plan, after)
            &&& forall|i: int|
                0 <= i < plan.scratch.in_use.len() && plan.scratch.in_use[i]
                    ==> #[trigger] after.scratch.in_use[i]
            &&& match backdrop {
                None => after.scratch.in_use == plan.scratch.in_use,
                Some(backdrop) => {
                    &&& backdrop.original.slot is Some
                    &&& backdrop.original.slot->0 < MAX_FILTER_SCRATCH
                    &&& !plan.scratch.in_use[backdrop.original.slot->0 as int]
                    &&& backdrop.filtered.slot matches Some(slot) ==> slot < MAX_FILTER_SCRATCH
                        && !plan.scratch.in_use[slot as int]
                    &&& after.released(backdrop.original).released(
                        backdrop.filtered,
                    ).scratch.in_use == plan.scratch.in_use
                },
            }
        }),
{
    let slots = plan.scratch.in_use;
    let (after, backdrop) = plan.backdrop_prepared(group, filter, env);
    let rect = backdrop_rect(group, filter, env);
    lemma_acquires(plan, rect);
    let (got, image) = plan.acquired(rect);
    if backdrop is Some {
        let original = image->0;
        let parent = rect_of(group.parent.render_target);
        let command = CommandModel::CopyBackdrop {
            from: group.parent.texture,
            origin: Point { x: (rect.x - parent.x) as i32, y: (rect.y - parent.y) as i32 },
            to: original,
        };
        lemma_emits(got, command);
        let copied = got.emitted(command);
        lemma_goes_on_joins(plan, got, copied);
        let steps = steps_of(filter);
        let lent = borrowed(original);
        lemma_filters(copied, steps, lent, FilterEdge::Clamp);
        lemma_goes_on_joins(plan, copied, after);
        let filtered = (backdrop->0).filtered;
        let own = original.slot->0 as int;
        assert(after.released(filtered).scratch.in_use == slots.update(own, true));
        assert forall|i: int| 0 <= i < slots.len() && slots[i] implies (
        #[trigger] after.scratch.in_use[i]) by {
            assert(copied.scratch.in_use[i]);
        }
        match filtered.slot {
            None => {
                assert(after.released(original).released(filtered).scratch.in_use =~= slots);
            },
            Some(slot) => {
                assert(!copied.scratch.in_use[slot as int]);
                assert(slot != own);
                assert(slot < slots.len());
                let given_back = after.released(filtered).scratch.in_use;
                assert(given_back[slot as int] == slots.update(own, true)[slot as int]);
                let all = after.released(original).released(filtered).scratch.in_use;
                assert forall|i: int| 0 <= i < slots.len() implies all[i] == slots[i] by {
                    assert(given_back[i] == slots.update(own, true)[i]);
                }
                assert(all =~= slots);
            },
        }
    } else {
        lemma_goes_on_itself(plan, after);
    }
}

pub proof fn lemma_prepares(plan: PlanModel, group: IsolatedModel, env: FrameEnvironment)
    requires
        plan.scratch.in_use.len() == MAX_FILTER_SCRATCH,
        !(group.parent.texture is Scratch),
        !(group.target.texture is Scratch),
    ensures
        preparing_holds(
            plan,
            plan.group_prepared(group, env).0,
            plan.group_prepared(group, env).1,
        ),
{
    let slots = plan.scratch.in_use;
    let (after, prepared) = plan.group_prepared(group, env);
    let picture = group.picture();
    let mid = match group.spec.filter {
        None => plan,
        Some(filter) => {
            let steps = steps_before_colours(
                steps_of(filter),
            );
            plan.filtered(steps, picture, FilterEdge::Transparent).0
        },
    };
    match group.spec.filter {
        None => {
            lemma_goes_on_itself(plan, plan);
        },
        Some(filter) => {
            let steps = steps_before_colours(
                steps_of(filter),
            );
            lemma_filters(plan, steps, picture, FilterEdge::Transparent);
        },
    }
    assert(mid.released(prepared.source).scratch.in_use =~= slots);
    match group.spec.backdrop_filter {
        None => {},
        Some(filter) => {
            lemma_prepares_backdrop(mid, group, filter, env);
            lemma_goes_on_joins(plan, mid, after);
            match prepared.backdrop {
                None => {},
                Some(backdrop) => {
                    let all = after.prepared_released(prepared).scratch.in_use;
                    let base = after.released(backdrop.original).released(backdrop.filtered);
                    assert(base.scratch.in_use == mid.scratch.in_use);
                    match prepared.source.slot {
                        None => {
                            assert(all =~= slots);
                        },
                        Some(slot) => {
                            assert(mid.scratch.in_use[slot as int]);
                            assert(all =~= mid.released(prepared.source).scratch.in_use);
                        },
                    }
                },
            }
        },
    }
}

/// Preparing a group and giving back what it holds leaves every working texture
/// free that was free before; it gives no command but passes and copies of its
/// own; and none of them writes a texture that it reads.
pub proof fn filters_give_every_texture_back(
    plan: PlanModel,
    group: IsolatedModel,
    env: FrameEnvironment,
    i: int,
)
    requires
        plan.wf(),
        !(group.parent.texture is Scratch),
        !(group.target.texture is Scratch),
        plan.commands.len() <= i < plan.group_prepared(group, env).0.commands.len(),
    ensures
        ({
            let (after, prepared) = plan.group_prepared(group, env);
            &&& after.prepared_released(prepared).scratch.in_use == plan.scratch.in_use
            &&& after.commands[i] is Filter || after.commands[i] is CopyBackdrop
            &&& reads_elsewhere(after.commands[i])
        }),
{
    lemma_prepares(plan, group, env);
    let after = plan.group_prepared(group, env).0;
    assert(is_offscreen(after.commands[i]));
}

} // verus!
