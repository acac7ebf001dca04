//! What it takes to rasterize the clip masks of a plan.

use crate::clip_path::FillRule;
use crate::geometry::{DevicePixels, Size};
use crate::renderer::clip_laws::lemma_shape_is;
use crate::renderer::clip_plan::{
    lemma_plan_shapes, lemma_shape, levels_of, parents_come_first, plan_of, plan_of_shapes,
    planned_of, planned_views, shapes_of, viewport_is_sane, viewport_of, ClipLevel, ClipPlan,
    PlanModel, PlannedModel,
};
use crate::renderer::extent::{DeviceRect, Extent};
use crate::renderer::packing::{
    lemma_order_is_packable, lemma_order_member, lemma_placement, lemma_placements_len, packing,
    tile_order, ATLAS_BOUND, ShapeModel,
};
use crate::scene::model::ClipModel;
use vstd::prelude::*;

verus! {

/// One thing that rasterizing the masks has the GPU do.
#[derive(Clone, Copy, Debug, PartialEq, Eq)]
pub enum MaskCommand {
    /// Start a pass over the working attachments, with nothing on them.
    BeginLevel,
    /// Count a clip's triangles into the stencil, within its tile.
    Stencil { scissor: DeviceRect, even_odd: bool, start: usize, count: usize },
    /// Paint a clip's tile where the stencil says so, times what its parent
    /// lets through.
    Cover { scissor: DeviceRect, even_odd: bool, clip: usize },
    /// End the pass, which resolves the attachments.
    EndLevel,
    /// Copy a finished tile into the atlas.
    CopyTile { from: DeviceRect, to: DeviceRect },
}

/// Why the masks cannot be rasterized.
#[derive(Clone, Copy, Debug, PartialEq, Eq, Structural)]
pub enum MaskError {
    /// There are masks to rasterize, and no clip textures.
    MissingClipTextures,
}

/// What is planned for a clip.
pub open spec fn planned_at(clips: Seq<Option<PlannedModel>>, index: int) -> Option<PlannedModel> {
    if 0 <= index < clips.len() {
        clips[index]
    } else {
        None
    }
}

/// The passes of one clip.
pub open spec fn clip_draws(clips: Seq<Option<PlannedModel>>, index: int) -> Seq<MaskCommand> {
    match planned_at(clips, index) {
        None => Seq::empty(),
        Some(planned) => {
            let even_odd = planned.fill_rule == FillRule::EvenOdd;
            let cover = MaskCommand::Cover {
                scissor: planned.work,
                even_odd,
                clip: index as usize,
            };
            if planned.start < planned.end {
                seq![
                    MaskCommand::Stencil {
                        scissor: planned.work,
                        even_odd,
                        start: planned.start as usize,
                        count: (planned.end - planned.start) as usize,
                    },
                    cover,
                ]
            } else {
                seq![cover]
            }
        },
    }
}

/// The passes of the first `n` clips of a level.
pub open spec fn level_draws(
    clips: Seq<Option<PlannedModel>>,
    level: Seq<int>,
    n: nat,
) -> Seq<MaskCommand>
    decreases n,
{
    if n == 0 {
        Seq::empty()
    } else {
        level_draws(clips, level, (n - 1) as nat) + clip_draws(clips, level[n - 1])
    }
}

/// The copies of the first `n` clips of a level.
pub open spec fn level_copies(
    clips: Seq<Option<PlannedModel>>,
    level: Seq<int>,
    n: nat,
) -> Seq<MaskCommand>
    decreases n,
{
    if n == 0 {
        Seq::empty()
    } else {
        let before = level_copies(clips, level, (n - 1) as nat);
        match planned_at(clips, level[n - 1]) {
            None => before,
            Some(planned) => before.push(
                MaskCommand::CopyTile { from: planned.work, to: planned.atlas },
            ),
        }
    }
}

/// The commands of one level. A level without tiles is passed over.
pub open spec fn level_commands(clips: Seq<Option<PlannedModel>>, level: Seq<int>) -> Seq<
    MaskCommand,
> {
    if level.len() == 0 {
        Seq::empty()
    } else {
        seq![MaskCommand::BeginLevel] + level_draws(clips, level, level.len()) + seq![
            MaskCommand::EndLevel,
        ] + level_copies(clips, level, level.len())
    }
}

/// The commands of the first `n` levels.
pub open spec fn mask_commands(plan: PlanModel, n: nat) -> Seq<MaskCommand>
    decreases n,
{
    if n == 0 {
        Seq::empty()
    } else {
        mask_commands(plan, (n - 1) as nat) + level_commands(plan.clips, plan.levels[n - 1].clips)
    }
}

/// Whether no level has a tile.
pub open spec fn has_no_tiles(plan: PlanModel) -> bool {
    forall|d: int| 0 <= d < plan.levels.len() ==> (#[trigger] plan.levels[d]).clips.len() == 0
}

fn push_draws(plan: &ClipPlan, index: usize, commands: &mut Vec<MaskCommand>)
    ensures
        final(commands)@ == old(commands)@ + clip_draws(plan@.clips, index as int),
{
    let ghost before = commands@;
    if index >= plan.clips.len() {
        assert(commands@ =~= before + clip_draws(plan@.clips, index as int));
        return;
    }
    assert(plan@.clips[index as int] == planned_views(plan.clips@)[index as int]);
    if let Some(planned) = &plan.clips[index] {
        let even_odd = match planned.fill_rule {
            FillRule::EvenOdd => true,
            FillRule::NonZero => false,
        };
        if planned.vertices.start < planned.vertices.end {
            commands.push(
                MaskCommand::Stencil {
                    scissor: planned.work,
                    even_odd,
                    start: planned.vertices.start,
                    count: planned.vertices.end - planned.vertices.start,
                },
            );
        }
        commands.push(MaskCommand::Cover { scissor: planned.work, even_odd, clip: index });
    }
    assert(commands@ =~= before + clip_draws(plan@.clips, index as int));
}

fn push_copies(plan: &ClipPlan, level: &ClipLevel, commands: &mut Vec<MaskCommand>)
    ensures
        final(commands)@ == old(commands)@ + level_copies(
            plan@.clips,
            level@.clips,
            level@.clips.len(),
        ),
{
    let ghost before = commands@;
    let mut k: usize = 0;
    assert(before + level_copies(plan@.clips, level@.clips, 0) =~= before);
    while k < level.clips.len()
        invariant
            k <= level.clips@.len(),
            commands@ == before + level_copies(plan@.clips, level@.clips, k as nat),
        decreases level.clips@.len() - k,
    {
        let index: usize = level.clips[k];
        assert(level@.clips[k as int] == index);
        let ghost now = commands@;
        if index < plan.clips.len() {
            assert(plan@.clips[index as int] == planned_views(plan.clips@)[index as int]);
            if let Some(planned) = &plan.clips[index] {
                commands.push(MaskCommand::CopyTile { from: planned.work, to: planned.atlas });
            }
        }
        k += 1;
        assert(commands@ =~= before + level_copies(plan@.clips, level@.clips, k as nat));
    }
}

fn push_level(plan: &ClipPlan, level: &ClipLevel, commands: &mut Vec<MaskCommand>)
    ensures
        final(commands)@ == old(commands)@ + level_commands(plan@.clips, level@.clips),
{
    let ghost before = commands@;
    let ghost clips = level@.clips;
    if level.clips.len() == 0 {
        assert(commands@ =~= before + level_commands(plan@.clips, clips));
        return;
    }
    commands.push(MaskCommand::BeginLevel);
    let ghost begun = commands@;
    let mut k: usize = 0;
    assert(begun + level_draws(plan@.clips, clips, 0) =~= begun);
    while k < level.clips.len()
        invariant
            k <= level.clips@.len(),
            clips == level@.clips,
            commands@ == begun + level_draws(plan@.clips, clips, k as nat),
        decreases level.clips@.len() - k,
    {
        let index: usize = level.clips[k];
        assert(clips[k as int] == index);
        push_draws(plan, index, commands);
        k += 1;
        assert(commands@ =~= begun + level_draws(plan@.clips, clips, k as nat));
    }
    commands.push(MaskCommand::EndLevel);
    push_copies(plan, level, commands);
    assert(commands@ =~= before + level_commands(plan@.clips, clips));
}

impl ClipPlan {
    /// The commands that rasterize the plan's masks: one pass for each nesting
    /// level, shallowest first.
    ///
    /// A level is drawn into working attachments and then copied into the atlas
    /// a tile at a time, because a resolve covers a whole attachment: resolving
    /// into the atlas would wipe the tiles that the level is about to read.
    pub fn render_clip_masks(&self, has_clip_textures: bool) -> (r: Result<
        Vec<MaskCommand>,
        MaskError,
    >)
        ensures
            match r {
                Err(_) => !has_clip_textures && !has_no_tiles(self@),
                Ok(commands) => {
                    &&& has_clip_textures || has_no_tiles(self@)
                    &&& commands@ == mask_commands(self@, self@.levels.len())
                },
            },
    {
        let mut commands: Vec<MaskCommand> = Vec::new();
        let mut index: usize = 0;
        assert(commands@ =~= mask_commands(self@, 0));
        while index < self.levels.len()
            invariant
                index <= self.levels@.len(),
                has_clip_textures || forall|d: int|
                    0 <= d < index ==> (#[trigger] self@.levels[d]).clips.len() == 0,
                commands@ == mask_commands(self@, index as nat),
            decreases self.levels@.len() - index,
        {
            assert(self@.levels[index as int] == self.levels@[index as int]@);
            if !has_clip_textures && self.levels[index].clips.len() > 0 {
                assert(self@.levels[index as int].clips.len() > 0);
                return Err(MaskError::MissingClipTextures);
            }
            push_level(self, &self.levels[index], &mut commands);
            index += 1;
        }
        Ok(commands)
    }
}

proof fn lemma_copied(clips: Seq<Option<PlannedModel>>, level: Seq<int>, n: nat, k: int)
    requires
        0 <= k < n <= level.len(),
        planned_at(clips, level[k]) is Some,
    ensures
        ({
            let planned = planned_at(clips, level[k])->0;
            level_copies(clips, level, n).contains(
                MaskCommand::CopyTile { from: planned.work, to: planned.atlas },
            )
        }),
    decreases n,
{
    let planned = planned_at(clips, level[k])->0;
    let copy = MaskCommand::CopyTile { from: planned.work, to: planned.atlas };
    let all = level_copies(clips, level, n);
    let before = level_copies(clips, level, (n - 1) as nat);
    if k == n - 1 {
        assert(all[all.len() - 1] == copy);
    } else {
        lemma_copied(clips, level, (n - 1) as nat, k);
        let at = choose|at: int| 0 <= at < before.len() && before[at] == copy;
        assert(all[at] == copy);
    }
}

proof fn lemma_levels_in_turn(plan: PlanModel, n: nat, m: nat)
    requires
        n <= m,
    ensures
        mask_commands(plan, n).len() <= mask_commands(plan, m).len(),
        forall|i: int|
            0 <= i < mask_commands(plan, n).len() ==> mask_commands(plan, m)[i]
                == #[trigger] mask_commands(plan, n)[i],
    decreases m,
{
    if n < m {
        lemma_levels_in_turn(plan, n, (m - 1) as nat);
    }
}

/// A clip that has been placed is in the level of its own depth.
proof fn lemma_placed_is_in_its_level(
    shapes: Seq<ShapeModel>,
    order: Seq<int>,
    placements: Seq<Option<(int, int)>>,
    n: nat,
    k: int,
)
    requires
        forall|i: int| 0 <= i < order.len() ==> 0 <= shapes[#[trigger] order[i]].depth,
        0 <= k < n <= order.len(),
        placements[order[k]] is Some,
    ensures
        ({
            let levels = levels_of(shapes, order, placements, n);
            &&& shapes[order[k]].depth < levels.len()
            &&& levels[shapes[order[k]].depth].clips.contains(order[k])
        }),
    decreases n,
{
    let before = levels_of(shapes, order, placements, (n - 1) as nat);
    let after = levels_of(shapes, order, placements, n);
    let depth = shapes[order[k]].depth;
    assert(0 <= shapes[order[n - 1]].depth);
    assert(0 <= depth);
    if k == n - 1 {
        let clips = after[depth].clips;
        assert(clips[clips.len() - 1] == order[k]);
    } else {
        lemma_placed_is_in_its_level(shapes, order, placements, (n - 1) as nat, k);
        let old_clips = before[depth].clips;
        let at = choose|at: int| 0 <= at < old_clips.len() && old_clips[at] == order[k];
        assert(after[depth].clips[at] == order[k]);
    }
}

/// A clip that multiplies in what its parent lets through is drawn after its
/// parent's tile is finished: the tile is copied into the atlas among the
/// commands of the levels above, which all come first.
pub proof fn parents_are_rasterized_first(
    clips: Seq<ClipModel>,
    size: Size<DevicePixels>,
    floor: Extent,
    i: int,
)
    requires
        parents_come_first(clips),
        viewport_is_sane(size),
        floor.width <= ATLAS_BOUND,
        floor.height <= ATLAS_BOUND,
        0 <= i < clips.len(),
        plan_of(clips, size, floor).clips[i] is Some,
        (plan_of(clips, size, floor).clips[i]->0).has_parent == 1,
    ensures
        ({
            let plan = plan_of(clips, size, floor);
            let depth = shapes_of(clips, viewport_of(size), clips.len())[i].depth;
            let parent = clips[i].parent.0 - 1;
            let above = mask_commands(plan, depth as nat);
            let all = mask_commands(plan, plan.levels.len());
            &&& 0 < depth < plan.levels.len()
            &&& plan.levels[depth].clips.contains(i)
            &&& plan.clips[parent] is Some
            &&& above.contains(
                MaskCommand::CopyTile {
                    from: (plan.clips[parent]->0).work,
                    to: (plan.clips[parent]->0).atlas,
                },
            )
            &&& above.len() <= all.len()
            &&& forall|k: int| 0 <= k < above.len() ==> all[k] == #[trigger] above[k]
        }),
{
    lemma_plan_shapes(clips, size, floor);
    let shapes = shapes_of(clips, viewport_of(size), clips.len());
    let plan = plan_of_shapes(shapes, floor);
    let order = tile_order(shapes);
    let placements = packing(shapes, order, plan.atlas).placements;
    let levels = levels_of(shapes, order, placements, order.len());
    lemma_order_is_packable(shapes, order);
    lemma_placements_len(shapes, order, plan.atlas);
    lemma_shape_is(clips, size, clips.len(), i);
    assert forall|k: int| 0 <= k < order.len() implies 0 <= shapes[#[trigger] order[k]].depth by {
        lemma_order_member(shapes, order, k);
        lemma_shape(shapes, order[k]);
    }
    assert(plan.clips[i] == planned_of(shapes, placements, levels, i));
    let parent = clips[i].parent.0 - 1;
    assert(shapes[i].parent == Some(parent));
    assert(clips[i].parent.0 <= i);
    let depth = shapes[i].depth;
    let k = lemma_placement(shapes, order, plan.atlas, i);
    lemma_placed_is_in_its_level(shapes, order, placements, order.len(), k);
    let j = lemma_placement(shapes, order, plan.atlas, parent);
    lemma_placed_is_in_its_level(shapes, order, placements, order.len(), j);
    assert(shapes[parent].depth == depth - 1);
    assert(plan.clips[parent] == planned_of(shapes, placements, levels, parent));
    let level = levels[depth - 1].clips;
    let at = choose|at: int| 0 <= at < level.len() && level[at] == parent;
    lemma_copied(plan.clips, level, level.len(), at);
    let copy = MaskCommand::CopyTile {
        from: (plan.clips[parent]->0).work,
        to: (plan.clips[parent]->0).atlas,
    };
    let copies = level_copies(plan.clips, level, level.len());
    let c = choose|c: int| 0 <= c < copies.len() && copies[c] == copy;
    let above = mask_commands(plan, depth as nat);
    let before = mask_commands(plan, (depth - 1) as nat);
    let whole = level_commands(plan.clips, level);
    let lead = seq![MaskCommand::BeginLevel] + level_draws(plan.clips, level, level.len()) + seq![
        MaskCommand::EndLevel,
    ];
    assert(whole == lead + copies);
    assert(above == before + whole);
    assert(above[before.len() + lead.len() + c] == copy);
    lemma_levels_in_turn(plan, depth as nat, plan.levels.len());
}

proof fn lemma_covered(
    clips: Seq<Option<PlannedModel>>,
    level: Seq<int>,
    n: nat,
    k: int,
)
    requires
        0 <= k < n <= level.len(),
        planned_at(clips, level[k]) is Some,
    ensures
        level_draws(clips, level, n).contains(cover_of(planned_at(clips, level[k])->0, level[k])),
    decreases n,
{
    let cover = cover_of(planned_at(clips, level[k])->0, level[k]);
    let all = level_draws(clips, level, n);
    let before = level_draws(clips, level, (n - 1) as nat);
    if k == n - 1 {
        let own = clip_draws(clips, level[k]);
        assert(own[own.len() - 1] == cover);
        assert(all[all.len() - 1] == cover);
    } else {
        lemma_covered(clips, level, (n - 1) as nat, k);
        let at = choose|at: int| 0 <= at < before.len() && before[at] == cover;
        assert(all[at] == cover);
    }
}

/// The command that paints a clip's tile.
pub open spec fn cover_of(planned: PlannedModel, index: int) -> MaskCommand {
    MaskCommand::Cover {
        scissor: planned.work,
        even_odd: planned.fill_rule == FillRule::EvenOdd,
        clip: index as usize,
    }
}

/// A tile is read only where it is written: a mask samples the atlas exactly
/// where its clip got a tile, and every such tile is painted whole in its
/// level's pass and copied whole into the atlas.
pub proof fn sampled_tiles_are_written_whole(
    clips: Seq<ClipModel>,
    size: Size<DevicePixels>,
    floor: Extent,
    i: int,
)
    requires
        parents_come_first(clips),
        viewport_is_sane(size),
        floor.width <= ATLAS_BOUND,
        floor.height <= ATLAS_BOUND,
        0 <= i < clips.len(),
    ensures
        ({
            let plan = plan_of(clips, size, floor);
            let all = mask_commands(plan, plan.levels.len());
            &&& plan.masks[i + 1].sampled == if plan.clips[i] is Some {
                1int
            } else {
                0
            }
            &&& plan.clips[i] is Some ==> {
                let planned = plan.clips[i]->0;
                &&& all.contains(cover_of(planned, i))
                &&& all.contains(
                    MaskCommand::CopyTile { from: planned.work, to: planned.atlas },
                )
                &&& planned.work.width == planned.atlas.width
                &&& planned.work.height == planned.atlas.height
            }
        }),
{
    lemma_plan_shapes(clips, size, floor);
    let shapes = shapes_of(clips, viewport_of(size), clips.len());
    let plan = plan_of_shapes(shapes, floor);
    let order = tile_order(shapes);
    let placements = packing(shapes, order, plan.atlas).placements;
    let levels = levels_of(shapes, order, placements, order.len());
    lemma_order_is_packable(shapes, order);
    lemma_placements_len(shapes, order, plan.atlas);
    lemma_shape_is(clips, size, clips.len(), i);
    assert forall|k: int| 0 <= k < order.len() implies 0 <= shapes[#[trigger] order[k]].depth by {
        lemma_order_member(shapes, order, k);
        lemma_shape(shapes, order[k]);
    }
    assert(plan.clips[i] == planned_of(shapes, placements, levels, i));
    assert((plan.masks[i + 1].sampled == 1) == (placements[i] is Some));
    if plan.clips[i] is Some {
        let planned = plan.clips[i]->0;
        let copy = MaskCommand::CopyTile { from: planned.work, to: planned.atlas };
        let cover = cover_of(planned, i);
        let depth = shapes[i].depth;
        let k = lemma_placement(shapes, order, plan.atlas, i);
        lemma_placed_is_in_its_level(shapes, order, placements, order.len(), k);
        let level = levels[depth].clips;
        let at = choose|at: int| 0 <= at < level.len() && level[at] == i;
        lemma_copied(plan.clips, level, level.len(), at);
        lemma_covered(plan.clips, level, level.len(), at);
        let copies = level_copies(plan.clips, level, level.len());
        let draws = level_draws(plan.clips, level, level.len());
        let c = choose|c: int| 0 <= c < copies.len() && copies[c] == copy;
        let d = choose|d: int| 0 <= d < draws.len() && draws[d] == cover;
        let before = mask_commands(plan, depth as nat);
        let through = mask_commands(plan, (depth + 1) as nat);
        let whole = level_commands(plan.clips, level);
        let lead = seq![MaskCommand::BeginLevel] + draws + seq![MaskCommand::EndLevel];
        assert(whole == lead + copies);
        assert(through == before + whole);
        assert(lead[1 + d] == cover);
        assert(through[before.len() + 1 + d] == cover);
        assert(through[before.len() + lead.len() + c] == copy);
        lemma_levels_in_turn(plan, (depth + 1) as nat, plan.levels.len());
        let all = mask_commands(plan, plan.levels.len());
        assert(all[before.len() + 1 + d] == cover);
        assert(all[before.len() + lead.len() + c] == copy);
    }
}

} // verus!
