//! What holds of scenes as a whole.

use crate::fixed::ONE;
use crate::geometry::{Rect, ScaledPixels};
use crate::clip_path::ClipPathModel;
use crate::scene::batch::{
    is_in_order, is_within, orders_are_finite, run_is_in_order,
};
use crate::scene::bounds_tree::{later_boxes_are_ordered_above, order_above};
use crate::scene::group::GroupModel;
use crate::scene::ids::{ClipId, GroupId, SegmentId};
use crate::scene::model::{
    draws_of, pairwise_disjoint, ranking, sorted_in, union_of, Arrays, OpModel, RunModel,
    SceneModel, SceneStepRecord, MAX_OPERATIONS,
};
use crate::scene::ordering::{
    lemma_finished_wf, lemma_runs_sorted_fields, lemma_stretches_follow, lemma_stretches_sorted,
    stretches,
};
use crate::scene::overlap::{few_boxes_are_swept_to_the_end, overlap_free_boxes_are_disjoint};
use crate::scene::primitive::{rank_of, DrawnSpec, PrimitiveModel};
use crate::scene::segment::{Marks, PrimitiveKind};
use crate::scene::sort::{is_sorted, stable_sort, stable_sort_exists, stable_sort_keeps_len};
use crate::scene::soundness::{
    depth_after, lemma_applied_wf, lemma_empty_wf, lemma_order_above, lemma_run_closed_wf,
    mark_at, numbers_below, path_ids_are_a_permutation, pushed_groups, runs_are_contiguous,
    runs_drawn, steps_nest,
};
use vstd::prelude::*;

verus! {

/// A stretch that has been sorted by rank is in the order in which it is drawn.
proof fn lemma_sorted_stretch_is_in_order<T: DrawnSpec>(
    items: Seq<T>,
    before: Seq<T>,
    start: int,
    end: int,
)
    requires
        0 <= start <= end <= items.len(),
        items.subrange(start, end) == stable_sort(before, ranking::<T>()),
    ensures
        is_in_order(draws_of(items), start, end),
{
    stable_sort_exists(before, ranking::<T>());
    let run = items.subrange(start, end);
    assert(is_sorted(run, ranking::<T>()));
    assert forall|i: int, j: int| start <= i <= j < end implies (#[trigger] draws_of(
        items,
    )[i]).order <= (#[trigger] draws_of(items)[j]).order by {
        assert(ranking::<T>()(run[i - start]) <= ranking::<T>()(run[j - start]));
        assert(rank_of(items[i]) <= rank_of(items[j]));
    }
}

/// Every run of a finished scene lies within its arrays, is in the order in
/// which it is drawn, and holds no order that a kind with nothing left would
/// stand before.
pub proof fn finished_runs_are_in_order(s: SceneModel, n: int)
    requires
        s.wf(),
        0 <= n < s.finished().segments.len(),
    ensures
        is_within(s.finished().arrays, s.finished().segments[n]),
        run_is_in_order(s.finished().arrays, s.finished().segments[n]),
        orders_are_finite(s.finished().arrays, s.finished().segments[n]),
{
    lemma_run_closed_wf(s);
    lemma_finished_wf(s);
    reveal(SceneModel::wf);
    let c = s.run_closed();
    let t = s.finished();
    let runs = c.segments;
    let run = runs[n];
    lemma_runs_sorted_fields(c.arrays, runs, runs.len());
    lemma_stretches_follow(runs, PrimitiveKind::Shadow, c.arrays.marks());
    lemma_stretches_sorted(c.arrays.shadows, stretches(runs, PrimitiveKind::Shadow), runs.len());
    assert(stretches(runs, PrimitiveKind::Shadow)[n] == (run.start.shadows, run.end.shadows));
    lemma_sorted_stretch_is_in_order(
        t.arrays.shadows,
        c.arrays.shadows.subrange(run.start.shadows, run.end.shadows),
        run.start.shadows,
        run.end.shadows,
    );
    lemma_stretches_follow(runs, PrimitiveKind::Quad, c.arrays.marks());
    lemma_stretches_sorted(c.arrays.quads, stretches(runs, PrimitiveKind::Quad), runs.len());
    assert(stretches(runs, PrimitiveKind::Quad)[n] == (run.start.quads, run.end.quads));
    lemma_sorted_stretch_is_in_order(
        t.arrays.quads,
        c.arrays.quads.subrange(run.start.quads, run.end.quads),
        run.start.quads,
        run.end.quads,
    );
    lemma_stretches_follow(runs, PrimitiveKind::Path, c.arrays.marks());
    lemma_stretches_sorted(c.arrays.paths, stretches(runs, PrimitiveKind::Path), runs.len());
    assert(stretches(runs, PrimitiveKind::Path)[n] == (run.start.paths, run.end.paths));
    lemma_sorted_stretch_is_in_order(
        t.arrays.paths,
        c.arrays.paths.subrange(run.start.paths, run.end.paths),
        run.start.paths,
        run.end.paths,
    );
    lemma_stretches_follow(runs, PrimitiveKind::Underline, c.arrays.marks());
    lemma_stretches_sorted(c.arrays.underlines, stretches(runs, PrimitiveKind::Underline), runs.len());
    assert(stretches(runs, PrimitiveKind::Underline)[n] == (run.start.underlines, run.end.underlines));
    lemma_sorted_stretch_is_in_order(
        t.arrays.underlines,
        c.arrays.underlines.subrange(run.start.underlines, run.end.underlines),
        run.start.underlines,
        run.end.underlines,
    );
    lemma_stretches_follow(runs, PrimitiveKind::MonochromeSprite, c.arrays.marks());
    lemma_stretches_sorted(c.arrays.monochrome_sprites, stretches(runs, PrimitiveKind::MonochromeSprite), runs.len());
    assert(stretches(runs, PrimitiveKind::MonochromeSprite)[n] == (run.start.monochrome_sprites, run.end.monochrome_sprites));
    lemma_sorted_stretch_is_in_order(
        t.arrays.monochrome_sprites,
        c.arrays.monochrome_sprites.subrange(run.start.monochrome_sprites, run.end.monochrome_sprites),
        run.start.monochrome_sprites,
        run.end.monochrome_sprites,
    );
    lemma_stretches_follow(runs, PrimitiveKind::SubpixelSprite, c.arrays.marks());
    lemma_stretches_sorted(c.arrays.subpixel_sprites, stretches(runs, PrimitiveKind::SubpixelSprite), runs.len());
    assert(stretches(runs, PrimitiveKind::SubpixelSprite)[n] == (run.start.subpixel_sprites, run.end.subpixel_sprites));
    lemma_sorted_stretch_is_in_order(
        t.arrays.subpixel_sprites,
        c.arrays.subpixel_sprites.subrange(run.start.subpixel_sprites, run.end.subpixel_sprites),
        run.start.subpixel_sprites,
        run.end.subpixel_sprites,
    );
    lemma_stretches_follow(runs, PrimitiveKind::PolychromeSprite, c.arrays.marks());
    lemma_stretches_sorted(c.arrays.polychrome_sprites, stretches(runs, PrimitiveKind::PolychromeSprite), runs.len());
    assert(stretches(runs, PrimitiveKind::PolychromeSprite)[n] == (run.start.polychrome_sprites, run.end.polychrome_sprites));
    lemma_sorted_stretch_is_in_order(
        t.arrays.polychrome_sprites,
        c.arrays.polychrome_sprites.subrange(run.start.polychrome_sprites, run.end.polychrome_sprites),
        run.start.polychrome_sprites,
        run.end.polychrome_sprites,
    );
    lemma_stretches_follow(runs, PrimitiveKind::Surface, c.arrays.marks());
    lemma_stretches_sorted(c.arrays.surfaces, stretches(runs, PrimitiveKind::Surface), runs.len());
    assert(stretches(runs, PrimitiveKind::Surface)[n] == (run.start.surfaces, run.end.surfaces));
    lemma_sorted_stretch_is_in_order(
        t.arrays.surfaces,
        c.arrays.surfaces.subrange(run.start.surfaces, run.end.surfaces),
        run.start.surfaces,
        run.end.surfaces,
    );
    assert forall|kind: PrimitiveKind|
        is_in_order(#[trigger] t.arrays.draws(kind), run.start.at(kind), run.end.at(kind)) by {
        match kind {
            PrimitiveKind::Shadow => {},
            PrimitiveKind::Quad => {},
            PrimitiveKind::Path => {},
            PrimitiveKind::Underline => {},
            PrimitiveKind::MonochromeSprite => {},
            PrimitiveKind::SubpixelSprite => {},
            PrimitiveKind::PolychromeSprite => {},
            PrimitiveKind::Surface => {},
        }
    }
    assert forall|kind: PrimitiveKind, i: int|
        run.start.at(kind) <= i < run.end.at(kind) implies (#[trigger] t.arrays.draws(
        kind,
    )[i]).order < u32::MAX by {
        match kind {
            PrimitiveKind::Shadow => {
                assert(t.arrays.shadows[i].draw_order() <= t.tree.len());
            },
            PrimitiveKind::Quad => {
                assert(t.arrays.quads[i].draw_order() <= t.tree.len());
            },
            PrimitiveKind::Path => {
                assert(t.arrays.paths[i].draw_order() <= t.tree.len());
            },
            PrimitiveKind::Underline => {
                assert(t.arrays.underlines[i].draw_order() <= t.tree.len());
            },
            PrimitiveKind::MonochromeSprite => {
                assert(t.arrays.monochrome_sprites[i].draw_order() <= t.tree.len());
            },
            PrimitiveKind::SubpixelSprite => {
                assert(t.arrays.subpixel_sprites[i].draw_order() <= t.tree.len());
            },
            PrimitiveKind::PolychromeSprite => {
                assert(t.arrays.polychrome_sprites[i].draw_order() <= t.tree.len());
            },
            PrimitiveKind::Surface => {
                assert(t.arrays.surfaces[i].draw_order() <= t.tree.len());
            },
        }
    }
}

/// Whether some calls open no group.
pub open spec fn is_groupless(ops: Seq<OpModel>) -> bool {
    forall|i: int| 0 <= i < ops.len() ==> !((#[trigger] ops[i]) is StartGroup) && !(ops[i]
        is EndGroup)
}

proof fn lemma_groupless(s: SceneModel, ops: Seq<OpModel>)
    requires
        is_groupless(ops),
    ensures
        s.applied_all(ops).groups == s.groups,
        s.applied_all(ops).segments == s.segments,
        s.applied_all(ops).steps == s.steps,
        s.applied_all(ops).open == s.open,
        s.applied_all(ops).run == s.run,
        s.can_apply_all(ops),
    decreases ops.len(),
{
    if ops.len() > 0 {
        assert(is_groupless(ops.drop_last())) by {
            assert forall|i: int| 0 <= i < ops.drop_last().len() implies !((
            #[trigger] ops.drop_last()[i]) is StartGroup) && !(ops.drop_last()[i] is EndGroup) by {
                assert(ops.drop_last()[i] == ops[i]);
            }
        }
        lemma_groupless(s, ops.drop_last());
        let op = ops[ops.len() - 1];
        assert(!(op is StartGroup) && !(op is EndGroup));
    }
}

/// Sorting a whole array as one stretch is sorting it.
proof fn lemma_sorted_whole<T: DrawnSpec>(items: Seq<T>, after: Seq<T>)
    requires
        after == sorted_in(items, 0, items.len() as int),
    ensures
        after == stable_sort(items, ranking::<T>()),
{
    assert(items.subrange(0, items.len() as int) =~= items);
    stable_sort_exists(items, ranking::<T>());
    stable_sort_keeps_len(items, stable_sort(items, ranking::<T>()), ranking::<T>());
    assert(after =~= stable_sort(items, ranking::<T>()));
}

proof fn lemma_sorted_nothing<T: DrawnSpec>(items: Seq<T>)
    requires
        items.len() == 0,
    ensures
        items == stable_sort(items, ranking::<T>()),
{
    stable_sort_exists(items, ranking::<T>());
    stable_sort_keeps_len(items, stable_sort(items, ranking::<T>()), ranking::<T>());
    assert(items =~= stable_sort(items, ranking::<T>()));
}

/// A scene that no group was pushed in is one run that spans everything, or
/// none where nothing was painted, and finishing it sorts each array whole.
pub proof fn a_scene_without_groups_is_one_run(ops: Seq<OpModel>)
    requires
        is_groupless(ops),
    ensures
        ({
            let s = SceneModel::empty().applied_all(ops);
            let t = s.finished();
            &&& t.groups.len() == 0
            &&& s.arrays.marks().total() == 0 ==> t.steps.len() == 0 && t.segments.len() == 0
            &&& s.arrays.marks().total() > 0 ==> t.steps.len() == 1 && t.segments == seq![
                RunModel { start: Marks::zero(), end: s.arrays.marks() },
            ] && t.steps[0] == SceneStepRecord::Run(SegmentId(0))
            &&& t.arrays.shadows == stable_sort(s.arrays.shadows, ranking())
            &&& t.arrays.quads == stable_sort(s.arrays.quads, ranking())
            &&& t.arrays.paths == stable_sort(s.arrays.paths, ranking())
            &&& t.arrays.underlines == stable_sort(s.arrays.underlines, ranking())
            &&& t.arrays.monochrome_sprites == stable_sort(s.arrays.monochrome_sprites, ranking())
            &&& t.arrays.subpixel_sprites == stable_sort(s.arrays.subpixel_sprites, ranking())
            &&& t.arrays.polychrome_sprites == stable_sort(s.arrays.polychrome_sprites, ranking())
            &&& t.arrays.surfaces == stable_sort(s.arrays.surfaces, ranking())
        }),
{
    let nothing = SceneModel::empty();
    lemma_groupless(nothing, ops);
    let s = nothing.applied_all(ops);
    let c = s.run_closed();
    let t = s.finished();
    let run = RunModel { start: s.run, end: s.arrays.marks() };
    if run.is_empty() {
        assert(s.arrays.marks().total() == 0);
        assert(t.arrays == s.arrays) by {
            assert(c.segments.len() == 0);
        }
        lemma_sorted_nothing(s.arrays.shadows);
        lemma_sorted_nothing(s.arrays.quads);
        lemma_sorted_nothing(s.arrays.paths);
        lemma_sorted_nothing(s.arrays.underlines);
        lemma_sorted_nothing(s.arrays.monochrome_sprites);
        lemma_sorted_nothing(s.arrays.subpixel_sprites);
        lemma_sorted_nothing(s.arrays.polychrome_sprites);
        lemma_sorted_nothing(s.arrays.surfaces);
    } else {
        assert(c.segments =~= seq![run]);
        assert(c.segments.len() == 1);
        reveal_with_fuel(Arrays::runs_sorted, 2);
        assert(t.arrays == s.arrays.sorted(run.start, run.end));
        lemma_sorted_whole(s.arrays.shadows, t.arrays.shadows);
        lemma_sorted_whole(s.arrays.quads, t.arrays.quads);
        lemma_sorted_whole(s.arrays.paths, t.arrays.paths);
        lemma_sorted_whole(s.arrays.underlines, t.arrays.underlines);
        lemma_sorted_whole(s.arrays.monochrome_sprites, t.arrays.monochrome_sprites);
        lemma_sorted_whole(s.arrays.subpixel_sprites, t.arrays.subpixel_sprites);
        lemma_sorted_whole(s.arrays.polychrome_sprites, t.arrays.polychrome_sprites);
        lemma_sorted_whole(s.arrays.surfaces, t.arrays.surfaces);
    }
}

/// Whether some calls only paint primitives.
pub open spec fn only_primitives(ops: Seq<OpModel>) -> bool {
    forall|i: int| 0 <= i < ops.len() ==> (#[trigger] ops[i]) is Primitive
}

/// A group that is folded away leaves no trace: the scene has the groups, the
/// runs and the steps that it had before the group, and goes on painting the
/// run that it was painting then. What the group held is there, faded.
pub proof fn a_folded_group_leaves_no_trace(s: SceneModel, group: GroupModel, ops: Seq<OpModel>)
    requires
        s.wf(),
        only_primitives(ops),
        s.group_pushed(group).applied_all(ops).group_folds(),
    ensures
        ({
            let inside = s.group_pushed(group).applied_all(ops);
            let t = inside.group_popped();
            &&& t.groups == s.groups
            &&& t.segments == s.segments
            &&& t.steps == s.steps
            &&& t.open == s.open
            &&& t.run == s.run
            &&& t.clips == s.clips
            &&& t.arrays == if group.opacity < ONE {
                inside.arrays.faded(
                    s.arrays.marks(),
                    inside.arrays.marks(),
                    group.opacity as int,
                )
            } else {
                inside.arrays
            }
        }),
{
    let pushed = s.group_pushed(group);
    assert(is_groupless(ops)) by {
        assert forall|i: int| 0 <= i < ops.len() implies !((#[trigger] ops[i]) is StartGroup)
            && !(ops[i] is EndGroup) by {
            assert(ops[i] is Primitive);
        }
    }
    lemma_groupless(pushed, ops);
    lemma_primitives_keep_clips(pushed, ops);
    let inside = pushed.applied_all(ops);
    let t = inside.group_popped();
    let c = s.run_closed();
    assert(c.run == s.arrays.marks());
    assert(t.groups =~= s.groups);
    assert(t.open =~= s.open);
    assert(t.segments =~= s.segments);
    assert(t.steps =~= s.steps);
}

proof fn lemma_primitives_keep_clips(s: SceneModel, ops: Seq<OpModel>)
    requires
        only_primitives(ops),
    ensures
        s.applied_all(ops).clips == s.clips,
        s.applied_all(ops).clip_stack == s.clip_stack,
    decreases ops.len(),
{
    if ops.len() > 0 {
        assert(only_primitives(ops.drop_last())) by {
            assert forall|i: int| 0 <= i < ops.drop_last().len() implies (
            #[trigger] ops.drop_last()[i]) is Primitive by {
                assert(ops.drop_last()[i] == ops[i]);
            }
        }
        lemma_primitives_keep_clips(s, ops.drop_last());
        assert(ops[ops.len() - 1] is Primitive);
    }
}

/// A group is folded away only where it asks for nothing but a fade and no two
/// things that it paints overlap.
pub proof fn only_groups_without_overlap_are_folded(s: SceneModel)
    requires
        s.group_folds(),
    ensures
        pairwise_disjoint(s.arrays.boxes(s.open.last().content, s.arrays.marks())),
        !s.open.last().has_surviving_child,
        s.groups[s.open.last().id as int].filter is None,
        s.groups[s.open.last().id as int].backdrop_filter is None,
{
    overlap_free_boxes_are_disjoint(s.arrays.boxes(s.open.last().content, s.arrays.marks()));
}

/// A group that paints no more than 91 things is folded exactly where it asks
/// for nothing but a fade, no group inside it was kept, it holds no surface and
/// no subpixel text, and no two things that it paints overlap. A group that is
/// not folded is kept, and nothing that it paints changes.
pub proof fn small_groups_are_folded_where_nothing_overlaps(s: SceneModel)
    requires
        s.wf(),
        s.can_pop_group(),
        s.arrays.boxes(s.open.last().content, s.arrays.marks()).len() <= 91,
    ensures
        ({
            let group = s.open.last();
            let ends = s.arrays.marks();
            &&& s.group_folds() == {
                &&& s.groups[group.id as int].is_foldable()
                &&& !group.has_surviving_child
                &&& group.content.surfaces >= ends.surfaces
                &&& group.content.subpixel_sprites >= ends.subpixel_sprites
                &&& pairwise_disjoint(s.arrays.boxes(group.content, ends))
            }
            &&& s.group_popped().groups.len() == s.groups.len() - if s.group_folds() {
                1int
            } else {
                0
            }
            &&& !s.group_folds() ==> s.group_popped().arrays == s.arrays
        }),
{
    reveal(SceneModel::wf);
    assert(s.open_group_holds(s.open.len() - 1));
    few_boxes_are_swept_to_the_end(s.arrays.boxes(s.open.last().content, s.arrays.marks()));
}

/// A primitive painted outside any layer is drawn above everything painted
/// before it that it intersects.
pub proof fn what_overlaps_is_drawn_in_paint_order(s: SceneModel, primitive: PrimitiveModel, i: int)
    requires
        s.wf(),
        s.layers.len() == 0,
        0 <= i < s.tree.len(),
        s.tree[i].0.intersects(primitive.visible()),
    ensures
        s.order_for(primitive.visible()) > s.tree[i].1,
{
    reveal(SceneModel::wf);
    later_boxes_are_ordered_above(s.tree, primitive.visible(), i);
    lemma_order_above(s.tree, primitive.visible());
}

/// What is painted inside a layer takes the layer's order.
pub proof fn a_layer_is_drawn_at_one_order(s: SceneModel, bounds: Rect, primitive: PrimitiveModel)
    requires
        s.wf(),
    ensures
        s.layer_pushed(bounds).order_for(primitive.visible()) == order_above(
            s.tree,
            bounds,
        ) as u32,
        s.layer_pushed(bounds).inserted(primitive).tree == s.layer_pushed(bounds).tree,
{
}

/// Popping a clip puts the clip before it in force again, and leaves the popped
/// clip registered.
pub proof fn clips_unwind(s: SceneModel, path: ClipPathModel<ScaledPixels>, visible: Rect)
    ensures
        s.clip_pushed(path, visible).clip_popped().clip_stack == s.clip_stack,
        s.clip_pushed(path, visible).clip_popped().current_clip() == s.current_clip(),
        s.clip_pushed(path, visible).clip_popped().clips == s.clip_pushed(path, visible).clips,
        s.clip_pushed(path, visible).clips.last().parent == s.current_clip(),
{
    assert(s.clip_pushed(path, visible).clip_popped().clip_stack =~= s.clip_stack);
}

/// A clip's parent was pushed before it, so that every chain of parents ends.
pub proof fn clip_chains_end(s: SceneModel, id: ClipId)
    requires
        s.wf(),
        1 <= id.0 <= s.clips.len(),
    ensures
        s.clips[id.0 - 1].parent.0 < id.0,
{
    reveal(SceneModel::wf);
    assert(s.clips[id.0 - 1].parent.0 <= id.0 - 1);
}

/// Within a frame the paths' numbers are `0..n`, each used once, before and
/// after sorting.
pub proof fn path_ids_stay_a_permutation(s: SceneModel)
    requires
        s.wf(),
    ensures
        path_ids_are_a_permutation(s.arrays.paths),
        path_ids_are_a_permutation(s.finished().arrays.paths),
        s.finished().arrays.paths.len() == s.arrays.paths.len(),
{
    lemma_finished_wf(s);
    reveal(SceneModel::wf);
}

/// The steps draw every run once, in order, and push every group once, in order;
/// every group they open they close; and the runs follow one another through the
/// arrays.
pub proof fn steps_cover_a_finished_scene(s: SceneModel)
    requires
        s.wf(),
        s.open.len() == 0,
    ensures
        ({
            let t = s.finished();
            &&& runs_drawn(t.steps) == t.segments.len()
            &&& forall|i: int|
                0 <= i < t.steps.len() && (#[trigger] t.steps[i]) is Run ==> t.steps[i]->Run_0.0
                    == runs_drawn(t.steps.take(i))
            &&& pushed_groups(t.steps) == numbers_below(t.groups.len())
            &&& steps_nest(t.steps)
            &&& depth_after(t.steps) == 0
            &&& runs_are_contiguous(t.segments)
            &&& mark_at(t.segments, t.segments.len() as int) == t.arrays.marks()
        }),
{
    lemma_run_closed_wf(s);
    lemma_finished_wf(s);
    reveal(SceneModel::wf);
}

/// Whether something other than a run follows every run that the steps draw.
pub open spec fn runs_are_parted(steps: Seq<SceneStepRecord>) -> bool {
    forall|i: int|
        0 <= i < steps.len() && (#[trigger] steps[i]) is Run ==> i + 1 < steps.len() && !(steps[i
            + 1] is Run)
}

/// Whether the runs are parted, and were when each of the open groups was
/// pushed.
spec fn runs_were_parted(s: SceneModel) -> bool {
    &&& runs_are_parted(s.steps)
    &&& forall|i: int|
        0 <= i < s.open.len() ==> (#[trigger] s.open[i]).steps_len <= s.steps.len()
            && runs_are_parted(s.steps.take(s.open[i].steps_len as int))
}

proof fn lemma_parted_by(
    steps: Seq<SceneStepRecord>,
    t: Seq<SceneStepRecord>,
    run: SceneStepRecord,
    step: SceneStepRecord,
)
    requires
        runs_are_parted(steps),
        !(step is Run),
        t == steps.push(step) || t == steps.push(run).push(step),
    ensures
        runs_are_parted(t),
        steps.len() <= t.len(),
        forall|n: int| 0 <= n <= steps.len() ==> #[trigger] t.take(n) == steps.take(n),
{
    assert forall|i: int| 0 <= i < t.len() && (#[trigger] t[i]) is Run implies i + 1 < t.len()
        && !(t[i + 1] is Run) by {
        if i < steps.len() {
            assert(steps[i] is Run);
            assert(t[i + 1] == steps[i + 1]);
        }
    }
    assert forall|n: int| 0 <= n <= steps.len() implies #[trigger] t.take(n) == steps.take(n) by {
        assert(t.take(n) =~= steps.take(n));
    }
}

proof fn lemma_parted_by_push(s: SceneModel, group: GroupModel)
    requires
        runs_were_parted(s),
    ensures
        runs_were_parted(s.group_pushed(group)),
{
    let t = s.group_pushed(group);
    let run = SceneStepRecord::Run(SegmentId(s.segments.len() as u32));
    let step = SceneStepRecord::PushGroup(GroupId(s.groups.len() as u32));
    lemma_parted_by(s.steps, t.steps, run, step);
    assert(s.steps.take(s.steps.len() as int) =~= s.steps);
    assert forall|i: int| 0 <= i < t.open.len() implies (#[trigger] t.open[i]).steps_len
        <= t.steps.len() && runs_are_parted(t.steps.take(t.open[i].steps_len as int)) by {
        if i < s.open.len() {
            assert(t.open[i] == s.open[i]);
        }
    }
}

proof fn lemma_parted_by_pop(s: SceneModel)
    requires
        s.open.len() > 0,
        runs_were_parted(s),
    ensures
        runs_were_parted(s.group_closed()),
{
    let t = s.group_closed();
    let run = SceneStepRecord::Run(SegmentId(s.segments.len() as u32));
    lemma_parted_by(s.steps, t.steps, run, SceneStepRecord::PopGroup);
    assert forall|i: int| 0 <= i < t.open.len() implies (#[trigger] t.open[i]).steps_len
        <= t.steps.len() && runs_are_parted(t.steps.take(t.open[i].steps_len as int)) by {
        assert(t.open[i].steps_len == s.open[i].steps_len);
    }
}

proof fn lemma_parted_by_fold(s: SceneModel)
    requires
        s.wf(),
        s.open.len() > 0,
        runs_were_parted(s),
    ensures
        runs_were_parted(s.group_folded()),
{
    reveal(SceneModel::wf);
    let t = s.group_folded();
    let n = s.open.len() - 1;
    let len = s.open[n].steps_len as int;
    assert forall|i: int| 0 <= i < t.open.len() implies (#[trigger] t.open[i]).steps_len
        <= t.steps.len() && runs_are_parted(t.steps.take(t.open[i].steps_len as int)) by {
        assert(t.open[i] == s.open[i]);
        assert(s.open[i].steps_len < s.open[n].steps_len);
        assert(t.steps.take(t.open[i].steps_len as int) =~= s.steps.take(
            t.open[i].steps_len as int,
        ));
    }
}

proof fn lemma_parted_still(s: SceneModel, op: OpModel)
    requires
        s.wf(),
        s.can_apply(op),
        runs_were_parted(s),
    ensures
        runs_were_parted(s.applied(op)),
{
    match op {
        OpModel::StartGroup(group) => lemma_parted_by_push(s, group),
        OpModel::EndGroup => {
            if s.group_folds() {
                lemma_parted_by_fold(s);
            } else {
                lemma_parted_by_pop(s);
            }
        },
        _ => {
            assert(s.applied(op).steps == s.steps);
            assert(s.applied(op).open == s.open);
        },
    }
}

proof fn lemma_painted_frame(ops: Seq<OpModel>)
    requires
        SceneModel::empty().can_apply_all(ops),
        ops.len() <= MAX_OPERATIONS,
    ensures
        SceneModel::empty().applied_all(ops).wf(),
        SceneModel::empty().applied_all(ops).ops.len() <= ops.len(),
        runs_were_parted(SceneModel::empty().applied_all(ops)),
    decreases ops.len(),
{
    if ops.len() == 0 {
        lemma_empty_wf();
    } else {
        lemma_painted_frame(ops.drop_last());
        let before = SceneModel::empty().applied_all(ops.drop_last());
        lemma_applied_wf(before, ops.last());
        lemma_parted_still(before, ops.last());
    }
}

/// Steps that push no group and never close one that they have not opened do
/// nothing but draw runs.
proof fn lemma_only_runs(steps: Seq<SceneStepRecord>)
    requires
        pushed_groups(steps).len() == 0,
        steps_nest(steps),
    ensures
        forall|i: int| 0 <= i < steps.len() ==> (#[trigger] steps[i]) is Run,
        depth_after(steps) == 0,
    decreases steps.len(),
{
    if steps.len() > 0 {
        let rest = steps.drop_last();
        assert forall|n: int| 0 <= n <= rest.len() implies depth_after(#[trigger] rest.take(n))
            >= 0 by {
            assert(rest.take(n) =~= steps.take(n));
        }
        lemma_only_runs(rest);
        assert(steps.take(steps.len() as int) =~= steps);
        assert forall|i: int| 0 <= i < steps.len() implies (#[trigger] steps[i]) is Run by {
            if i < rest.len() {
                assert(rest[i] is Run);
            }
        }
    }
}

/// A frame that no group survived in is one run that spans everything, or none
/// where nothing was painted, however many groups were folded on the way.
pub proof fn a_scene_of_folded_groups_is_one_run(ops: Seq<OpModel>)
    requires
        SceneModel::empty().can_apply_all(ops),
        ops.len() <= MAX_OPERATIONS,
        SceneModel::empty().applied_all(ops).groups.len() == 0,
    ensures
        ({
            let s = SceneModel::empty().applied_all(ops);
            let t = s.finished();
            &&& s.arrays.marks().total() == 0 ==> t.steps.len() == 0 && t.segments.len() == 0
            &&& s.arrays.marks().total() > 0 ==> t.steps.len() == 1 && t.segments == seq![
                RunModel { start: Marks::zero(), end: s.arrays.marks() },
            ] && t.steps[0] == SceneStepRecord::Run(SegmentId(0))
        }),
{
    lemma_painted_frame(ops);
    let s = SceneModel::empty().applied_all(ops);
    reveal(SceneModel::wf);
    assert(pushed_groups(s.steps).len() == 0);
    lemma_only_runs(s.steps);
    if s.steps.len() > 0 {
        assert(s.steps[s.steps.len() - 1] is Run);
    }
    assert(s.segments.len() == 0);
    assert(s.run == Marks::zero());
}

/// Whether a box is far enough from the ends of the number line for its edges
/// to be exact.
pub open spec fn is_tame(r: Rect) -> bool {
    let limit: int = 0x1000_0000_0000_0000;
    &&& -limit <= r.x <= limit
    &&& -limit <= r.y <= limit
    &&& 0 <= r.width <= limit
    &&& 0 <= r.height <= limit
}

/// Whether `inner` lies within `outer`.
pub open spec fn holds_box(outer: Rect, inner: Rect) -> bool {
    &&& outer.x <= inner.x
    &&& outer.y <= inner.y
    &&& inner.right() <= outer.right()
    &&& inner.bottom() <= outer.bottom()
}

/// A box whose edges are no further out than some tame boxes'.
pub open spec fn is_framed(r: Rect) -> bool {
    let limit: int = 0x1000_0000_0000_0000;
    &&& -limit <= r.x <= limit
    &&& -limit <= r.y <= limit
    &&& 0 <= r.width && r.x + r.width <= 2 * limit
    &&& 0 <= r.height && r.y + r.height <= 2 * limit
}

pub proof fn lemma_union_holds_all(painted: Option<Rect>, boxes: Seq<Rect>, i: int)
    requires
        painted is Some ==> is_framed(painted->0),
        forall|k: int| 0 <= k < boxes.len() ==> is_tame(#[trigger] boxes[k]),
        0 <= i < boxes.len(),
        !boxes[i].is_empty(),
    ensures
        union_of(painted, boxes) is Some,
        is_framed(union_of(painted, boxes)->0),
        holds_box(union_of(painted, boxes)->0, boxes[i]),
    decreases boxes.len(),
{
    let rest = boxes.drop_last();
    assert forall|k: int| 0 <= k < rest.len() implies is_tame(#[trigger] rest[k]) by {
        assert(rest[k] == boxes[k]);
    }
    lemma_union_is_framed(painted, rest);
    assert(is_tame(boxes[boxes.len() - 1]));
    if i < boxes.len() - 1 {
        lemma_union_holds_all(painted, rest, i);
    }
}

pub proof fn lemma_union_is_framed(painted: Option<Rect>, boxes: Seq<Rect>)
    requires
        painted is Some ==> is_framed(painted->0),
        forall|k: int| 0 <= k < boxes.len() ==> is_tame(#[trigger] boxes[k]),
    ensures
        union_of(painted, boxes) is Some ==> is_framed(union_of(painted, boxes)->0),
    decreases boxes.len(),
{
    if boxes.len() > 0 {
        let rest = boxes.drop_last();
        assert forall|k: int| 0 <= k < rest.len() implies is_tame(#[trigger] rest[k]) by {
            assert(rest[k] == boxes[k]);
        }
        lemma_union_is_framed(painted, rest);
        assert(is_tame(boxes[boxes.len() - 1]));
    }
}

/// A group that is kept cuts nothing away: its target holds the bounds its
/// caller named and every box painted inside it.
pub proof fn a_kept_group_cuts_nothing_away(
    group: GroupModel,
    painted: Option<Rect>,
    boxes: Seq<Rect>,
    i: int,
)
    requires
        group.filter is None,
        is_tame(group.bounds),
        painted is Some ==> is_tame(painted->0),
        forall|k: int| 0 <= k < boxes.len() ==> is_tame(#[trigger] boxes[k]),
        0 <= i < boxes.len(),
        !boxes[i].is_empty(),
    ensures
        union_of(painted, boxes) is Some,
        holds_box(group.grown(union_of(painted, boxes)->0).bounds, boxes[i]),
        !group.bounds.is_empty() ==> holds_box(
            group.grown(union_of(painted, boxes)->0).bounds,
            group.bounds,
        ),
{
    lemma_union_holds_all(painted, boxes, i);
}

/// However far a filter carries a group's picture, its target stays within the
/// group's mask.
pub proof fn a_filtered_group_stays_in_its_mask(group: GroupModel, painted: Rect, mask: Rect)
    requires
        group.filter is Some,
        group.mask == Some(mask),
        is_tame(mask),
        !group.grown(painted).bounds.is_empty(),
    ensures
        group.grown(painted).bounds.x >= mask.x,
        group.grown(painted).bounds.y >= mask.y,
        group.grown(painted).bounds.right() <= mask.right(),
        group.grown(painted).bounds.bottom() <= mask.bottom(),
{
}

} // verus!
