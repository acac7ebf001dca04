//! How much memory is held, and for how long.

use crate::fixed::max;
use crate::renderer::clip_plan::PlanModel;
use crate::renderer::extent::{
    rounding_up_is_least, DeviceRect, Extent, CLIP_TEXTURE_SHRINK_FRAMES, GROUP_TEXTURE_QUANTUM,
};
use crate::renderer::instances::{
    doubled_to, grown_size, holding, InstanceBuffer, MAX_INSTANCE_BUFFER_SIZE,
};
use crate::renderer::state::{change_between, least_textures, ClipStateModel, ClipTextures};
use crate::renderer::targets::{held_but, LevelModel, TargetsModel};
use vstd::prelude::*;

verus! {

/// What the textures of all levels but one cost between them, in bytes.
pub open spec fn cost_of_others(levels: Seq<LevelModel>, depth: int, n: nat) -> int
    decreases n,
{
    if n == 0 {
        0
    } else {
        let rest = cost_of_others(levels, depth, (n - 1) as nat);
        let extent = levels[n - 1].allocated;
        if n - 1 == depth || extent.width <= 0 || extent.height <= 0 {
            rest
        } else {
            rest + 4 * (extent.width * extent.height)
        }
    }
}

proof fn lemma_cost_of_others(levels: Seq<LevelModel>, depth: int, n: nat)
    ensures
        cost_of_others(levels, depth, n) == held_but(levels, depth, n),
    decreases n,
{
    if n > 0 {
        lemma_cost_of_others(levels, depth, (n - 1) as nat);
        let extent = levels[n - 1].allocated;
        let (w, h) = (extent.width as int, extent.height as int);
        let (across, down) = (max(w, 0), max(h, 0));
        if w <= 0 || h <= 0 {
            assert(across * down * 4 == 0) by (nonlinear_arith)
                requires
                    across == 0 || down == 0,
            ;
        } else {
            assert(w * h * 4 == 4 * (w * h)) by (nonlinear_arith);
        }
    }
}

/// A target is refused only where four bytes for each of its pixels would not
/// fit the budget beside what the other levels hold, and then the refusal is
/// reported and no texture changes. One that is granted is at least as large as
/// what it was asked for and as what the level starts from, and the level
/// remembers that as much was needed. A texture that is large enough is kept.
pub proof fn targets_are_refused_for_memory_alone(
    targets: TargetsModel,
    depth: nat,
    rect: DeviceRect,
    budget: u64,
    filters: bool,
)
    requires
        depth < targets.levels.len(),
        0 < rect.width <= i32::MAX - 255,
        0 < rect.height <= i32::MAX - 255,
        targets.levels[depth as int].allocated.width >= 0,
        targets.levels[depth as int].allocated.height >= 0,
    ensures
        ({
            let (after, granted) = targets.acquired(depth, rect, budget, filters);
            let level = targets.levels[depth as int];
            let now = after.levels[depth as int];
            let others = cost_of_others(targets.levels, depth as int, targets.levels.len());
            &&& after.levels.len() == targets.levels.len()
            &&& forall|i: int|
                0 <= i < targets.levels.len() && i != depth ==> #[trigger] after.levels[i]
                    == targets.levels[i]
            &&& now.needed.width >= rect.width && now.needed.height >= rect.height
            &&& now.needed.width >= level.needed.width && now.needed.height >= level.needed.height
            &&& granted is None ==> {
                &&& after.reported is Some
                &&& now.allocated == level.allocated
                &&& exists|wanted: Extent|
                    #[trigger] is_no_larger_than_it_has_to_be(wanted, level, rect) && others + 4 * (
                    wanted.width * wanted.height) > budget
            }
            &&& granted matches Some(extent) ==> {
                &&& after.reported == targets.reported
                &&& is_no_larger_than_it_has_to_be(extent, level, rect)
                &&& now.has_texture && now.allocated == extent
                &&& extent == level.allocated && level.has_texture || others + 4 * (extent.width
                    * extent.height) <= budget
            }
        }),
{
    reveal(TargetsModel::acquired);
    let required = rect.size_of().rounded(GROUP_TEXTURE_QUANTUM as int);
    rounding_up_is_least(rect.size_of().width as int);
    rounding_up_is_least(rect.size_of().height as int);
    let all = targets.deepened(depth);
    assert(all.levels == targets.levels);
    let level = all.levels[depth as int];
    let wanted = level.wanted(required);
    assert(is_no_larger_than_it_has_to_be(wanted, level, rect));
    lemma_cost_of_others(targets.levels, depth as int, targets.levels.len());
    let (w, h) = (wanted.width as int, wanted.height as int);
    assert(w * h * 4 == 4 * (w * h)) by (nonlinear_arith);
}

/// Whether a texture holds what a level starts from, what it has, and a
/// rectangle, and each side is no longer than one of these, the rectangle's
/// rounded up by less than a quantum.
pub open spec fn is_no_larger_than_it_has_to_be(
    extent: Extent,
    level: LevelModel,
    rect: DeviceRect,
) -> bool {
    &&& extent.width >= rect.width && extent.height >= rect.height
    &&& extent.width >= level.floor.width && extent.height >= level.floor.height
    &&& extent.width >= level.allocated.width && extent.height >= level.allocated.height
    &&& extent.width == level.floor.width || extent.width == level.allocated.width || extent.width
        < rect.width + 256
    &&& extent.height == level.floor.height || extent.height == level.allocated.height
        || extent.height < rect.height + 256
}

/// The clip textures hold what a frame's plan draws into them: the atlas is the
/// plan's own, and the working textures hold its largest level.
pub proof fn clip_textures_hold_the_plan(state: ClipStateModel, plan: PlanModel)
    ensures
        state.used(plan).textures matches Some(textures) && {
            &&& textures.atlas == plan.atlas
            &&& textures.work.width >= plan.work.width
            &&& textures.work.height >= plan.work.height
            &&& state.work_budget.frames < 240 ==> {
                let kept = state.work_budget.current;
                &&& textures.work.width >= kept.width && textures.work.height >= kept.height
                &&& textures.work.width == kept.width || textures.work.width == plan.work.width
                &&& textures.work.height == kept.height || textures.work.height == plan.work.height
            }
        },
{
}

/// At the start of a frame a level has what it had, or what a long enough run of
/// frames needed where they all needed less; a texture larger than that on
/// either side is given back, and any other is kept.
pub proof fn levels_start_from_what_was_needed(level: LevelModel)
    ensures
        ({
            let begun = level.begun();
            &&& level.budget.frames < 240 ==> begun.floor == level.budget.current
            &&& level.budget.frames >= 240 ==> begun.floor == level.budget.peak
            &&& begun.needed.width == 0 && begun.needed.height == 0
            &&& level.allocated.width <= begun.floor.width && level.allocated.height
                <= begun.floor.height ==> begun.allocated == level.allocated && begun.has_texture
                == level.has_texture
            &&& level.allocated.width > begun.floor.width || level.allocated.height
                > begun.floor.height ==> !begun.has_texture && begun.allocated.width == 0
                && begun.allocated.height == 0
        }),
{
}

/// The state after so many frames that clip nothing.
pub open spec fn idled_for(state: ClipStateModel, frames: nat) -> ClipStateModel
    decreases frames,
{
    if frames == 0 {
        state
    } else {
        idled_for(state, (frames - 1) as nat).idled()
    }
}

/// A window that stops clipping keeps its textures for as many frames as the
/// countdown has, and then hands back all but the least.
pub proof fn idle_windows_give_their_textures_back(state: ClipStateModel, frames: nat)
    requires
        state.textures is Some,
        state.atlas_budget.frames == 0,
        state.atlas_budget.peak == Extent::zero(),
        state.atlas_budget.current == (state.textures->0).atlas,
        least_textures().falls_short_of((state.textures->0).atlas),
        frames <= CLIP_TEXTURE_SHRINK_FRAMES + 1,
    ensures
        ({
            let after = idled_for(state, frames);
            &&& after.textures is Some
            &&& frames <= CLIP_TEXTURE_SHRINK_FRAMES ==> (after.textures->0).atlas == (
            state.textures->0).atlas && after.atlas_budget.frames == frames
                && after.atlas_budget.current == (state.textures->0).atlas && (frames > 0
                ==> after.atlas_budget.peak == least_textures())
            &&& frames == CLIP_TEXTURE_SHRINK_FRAMES + 1 ==> (after.textures->0).atlas
                == least_textures()
        }),
    decreases frames,
{
    if frames > 0 {
        idle_windows_give_their_textures_back(state, (frames - 1) as nat);
    }
}

/// The working textures of such a window are handed back in the same way.
pub proof fn idle_windows_give_their_working_textures_back(state: ClipStateModel, frames: nat)
    requires
        state.textures is Some,
        state.work_budget.frames == 0,
        state.work_budget.peak == Extent::zero(),
        state.work_budget.current == (state.textures->0).work,
        least_textures().falls_short_of((state.textures->0).work),
        frames <= CLIP_TEXTURE_SHRINK_FRAMES + 1,
    ensures
        ({
            let after = idled_for(state, frames);
            &&& after.textures is Some
            &&& frames <= CLIP_TEXTURE_SHRINK_FRAMES ==> (after.textures->0).work == (
            state.textures->0).work && after.work_budget.frames == frames
                && after.work_budget.current == (state.textures->0).work && (frames > 0
                ==> after.work_budget.peak == least_textures())
            &&& frames == CLIP_TEXTURE_SHRINK_FRAMES + 1 ==> (after.textures->0).work
                == least_textures()
        }),
    decreases frames,
{
    if frames > 0 {
        idle_windows_give_their_working_textures_back(state, (frames - 1) as nat);
    }
}

/// The least that is kept is one quantum each way.
pub proof fn the_least_is_one_quantum()
    ensures
        least_textures().width == 256,
        least_textures().height == 256,
{
    rounding_up_is_least(0);
}

/// A frame that clips counts towards giving a texture back where it needed less
/// than there is, and otherwise starts the count anew. What it needed is
/// remembered, along with what the frames counted before it did.
pub proof fn frames_that_need_less_are_counted(state: ClipStateModel, plan: PlanModel)
    requires
        0 <= state.atlas_budget.frames,
        0 <= state.work_budget.frames,
    ensures
        ({
            let after = state.used(plan);
            let textures = after.textures->0;
            let spare_atlas = plan.minimum_atlas.width < textures.atlas.width
                || plan.minimum_atlas.height < textures.atlas.height;
            let spare_work = plan.work.width < textures.work.width || plan.work.height
                < textures.work.height;
            &&& after.atlas_budget.current == textures.atlas
            &&& after.work_budget.current == textures.work
            &&& !spare_atlas ==> after.atlas_budget.frames == 0
            &&& !spare_work ==> after.work_budget.frames == 0
            &&& spare_atlas ==> {
                &&& after.atlas_budget.frames == if state.atlas_budget.frames < 240 {
                    state.atlas_budget.frames + 1
                } else {
                    1
                }
                &&& after.atlas_budget.peak.width >= plan.minimum_atlas.width
                &&& after.atlas_budget.peak.height >= plan.minimum_atlas.height
                &&& state.atlas_budget.frames >= 240 && plan.minimum_atlas.width >= 0
                    && plan.minimum_atlas.height >= 0 ==> after.atlas_budget.peak
                    == plan.minimum_atlas
            }
            &&& spare_work ==> {
                &&& after.work_budget.frames == if state.work_budget.frames < 240 {
                    state.work_budget.frames + 1
                } else {
                    1
                }
                &&& after.work_budget.peak.width >= plan.work.width
                &&& after.work_budget.peak.height >= plan.work.height
                &&& state.work_budget.frames >= 240 && plan.work.width >= 0 && plan.work.height
                    >= 0 ==> after.work_budget.peak == plan.work
            }
        }),
{
}

/// A clip texture is made anew exactly where there was none or it was not as
/// wide or not as high as it is now.
pub proof fn textures_are_made_anew_where_they_change(
    before: Option<ClipTextures>,
    after: ClipTextures,
)
    ensures
        before is None ==> change_between(before, after).atlas && change_between(
            before,
            after,
        ).work,
        before matches Some(b) ==> {
            &&& change_between(before, after).atlas <==> b.atlas.width != after.atlas.width
                || b.atlas.height != after.atlas.height
            &&& change_between(before, after).work <==> b.work.width != after.work.width
                || b.work.height != after.work.height
        },
{
}

/// Whether a number is two to some power.
pub open spec fn is_power_of_two(n: int) -> bool
    decreases n,
{
    n == 1 || (n > 1 && n % 2 == 0 && is_power_of_two(n / 2))
}

proof fn lemma_doubled_is_a_power(power: nat, n: int)
    requires
        1 <= power,
        is_power_of_two(power as int),
    ensures
        is_power_of_two(doubled_to(power, n) as int),
        doubled_to(power, n) >= n,
        doubled_to(power, n) >= power,
        power < n ==> doubled_to(power, n) < 2 * n,
        power >= n ==> doubled_to(power, n) == power,
    decreases if n > power {
        n - power
    } else {
        0
    },
{
    if power < n {
        assert(is_power_of_two((2 * power) as int)) by {
            assert((2 * power) as int % 2 == 0);
            assert((2 * power) as int / 2 == power as int);
        }
        lemma_doubled_is_a_power(2 * power, n);
    }
}

/// Buffers that have to grow grow enough: to twice their size, or to the least
/// power of two that holds what is asked where that is more, and never past the
/// limit.
pub proof fn buffers_grow_enough(buffer_size: int, required: int)
    requires
        0 < buffer_size <= MAX_INSTANCE_BUFFER_SIZE,
        0 < required <= MAX_INSTANCE_BUFFER_SIZE,
    ensures
        ({
            let grown = grown_size(buffer_size, required);
            &&& required <= grown <= MAX_INSTANCE_BUFFER_SIZE
            &&& buffer_size <= grown
            &&& 2 * buffer_size <= grown || grown == MAX_INSTANCE_BUFFER_SIZE
            &&& grown > 2 * buffer_size && grown < MAX_INSTANCE_BUFFER_SIZE ==> is_power_of_two(
                grown,
            ) && (grown == 1 || grown < 2 * required)
        }),
{
    lemma_doubled_is_a_power(1, required);
}

/// Of the buffers that a frame filled, those that hold anything are handed on,
/// each once and in their order.
pub proof fn filled_buffers_are_handed_on<B>(filled: Seq<(InstanceBuffer<B>, usize)>)
    ensures
        holding(filled) == filled.filter(|entry: (InstanceBuffer<B>, usize)| entry.1 > 0),
    decreases filled.len(),
{
    reveal(Seq::filter);
    if filled.len() > 0 {
        filled_buffers_are_handed_on(filled.drop_last());
    }
}

} // verus!
