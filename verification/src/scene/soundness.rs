//! What holds of every scene.

use crate::geometry::{Rect, ScaledPixels};
use crate::clip_path::ClipPathModel;
use crate::scene::bounds_tree::{highest_below, order_above, orders_are_bounded};
use crate::scene::group::GroupModel;
use crate::scene::ids::{ClipId, GroupId, SegmentId};
use crate::scene::model::{
    faded_in, Arrays, OpModel, OpenModel, RunModel, SceneModel, SceneStepRecord, MAX_OPERATIONS,
};
use crate::scene::path::PathModel;
use crate::scene::primitive::{DrawnSpec, PrimitiveModel};
use crate::scene::segment::Marks;
use vstd::prelude::*;

verus! {

/// Whether every item's order is one that has been handed out, and every item's
/// clip is one that has been pushed.
pub open spec fn stamps_fit<T: DrawnSpec>(items: Seq<T>, orders: nat, clips: nat) -> bool {
    forall|i: int|
        0 <= i < items.len() ==> 1 <= (#[trigger] items[i]).draw_order() <= orders
            && items[i].draw_clip().0 <= clips
}

/// Whether the paths' numbers are `0..n`, each used once.
pub open spec fn path_ids_are_a_permutation(paths: Seq<PathModel<ScaledPixels>>) -> bool {
    &&& forall|i: int| 0 <= i < paths.len() ==> (#[trigger] paths[i]).id < paths.len()
    &&& forall|i: int, j: int|
        0 <= i < j < paths.len() ==> (#[trigger] paths[i]).id != (#[trigger] paths[j]).id
}

impl Arrays {
    pub open spec fn stamps_fit(self, orders: nat, clips: nat) -> bool {
        &&& stamps_fit(self.shadows, orders, clips)
        &&& stamps_fit(self.quads, orders, clips)
        &&& stamps_fit(self.paths, orders, clips)
        &&& stamps_fit(self.underlines, orders, clips)
        &&& stamps_fit(self.monochrome_sprites, orders, clips)
        &&& stamps_fit(self.subpixel_sprites, orders, clips)
        &&& stamps_fit(self.polychrome_sprites, orders, clips)
        &&& stamps_fit(self.surfaces, orders, clips)
    }
}

/// Where the first `n` runs end.
pub open spec fn mark_at(segments: Seq<RunModel>, n: int) -> Marks {
    if n <= 0 {
        Marks::zero()
    } else {
        segments[n - 1].end
    }
}

/// Whether the runs follow one another from the start of every array, and none
/// is empty.
pub open spec fn runs_are_contiguous(segments: Seq<RunModel>) -> bool {
    forall|i: int|
        0 <= i < segments.len() ==> {
            &&& (#[trigger] segments[i]).start == mark_at(segments, i)
            &&& Marks::zero().le(segments[i].start)
            &&& segments[i].start.le(segments[i].end)
            &&& !segments[i].is_empty()
        }
}

/// How many runs the steps draw.
pub open spec fn runs_drawn(steps: Seq<SceneStepRecord>) -> nat
    decreases steps.len(),
{
    if steps.len() == 0 {
        0
    } else if steps.last() is Run {
        runs_drawn(steps.drop_last()) + 1
    } else {
        runs_drawn(steps.drop_last())
    }
}

/// The groups that the steps push, in the order in which they push them.
pub open spec fn pushed_groups(steps: Seq<SceneStepRecord>) -> Seq<int>
    decreases steps.len(),
{
    if steps.len() == 0 {
        Seq::empty()
    } else {
        let before = pushed_groups(steps.drop_last());
        match steps.last() {
            SceneStepRecord::PushGroup(id) => before.push(id.0 as int),
            _ => before,
        }
    }
}

/// The numbers from nothing up to `n`.
pub open spec fn numbers_below(n: nat) -> Seq<int> {
    Seq::new(n, |i: int| i)
}

/// How many groups the steps leave open; negative where they close more than
/// they open.
pub open spec fn depth_after(steps: Seq<SceneStepRecord>) -> int
    decreases steps.len(),
{
    if steps.len() == 0 {
        0
    } else {
        let before = depth_after(steps.drop_last());
        match steps.last() {
            SceneStepRecord::Run(_) => before,
            SceneStepRecord::PushGroup(_) => before + 1,
            SceneStepRecord::PopGroup => before - 1,
        }
    }
}

/// Whether the steps never close a group that they have not opened.
pub open spec fn steps_nest(steps: Seq<SceneStepRecord>) -> bool {
    forall|n: int| 0 <= n <= steps.len() ==> depth_after(#[trigger] steps.take(n)) >= 0
}

impl SceneModel {
    pub open spec fn orders_hold(self) -> bool {
        &&& self.ops.len() <= MAX_OPERATIONS
        &&& orders_are_bounded(self.tree)
        &&& self.tree.len() <= self.ops.len()
        &&& self.layers.len() <= self.ops.len()
        &&& forall|i: int|
            0 <= i < self.layers.len() ==> 1 <= #[trigger] self.layers[i] <= self.tree.len()
        &&& self.arrays.stamps_fit(self.tree.len(), self.clips.len())
        &&& path_ids_are_a_permutation(self.arrays.paths)
    }

    /// Whether the pushed clips are the chain of parents of the innermost.
    pub open spec fn clips_hold(self) -> bool {
        &&& self.clips.len() <= self.ops.len()
        &&& forall|i: int| 0 <= i < self.clips.len() ==> (#[trigger] self.clips[i]).parent.0 <= i
        &&& forall|i: int|
            0 <= i < self.clip_stack.len() ==> {
                &&& 1 <= (#[trigger] self.clip_stack[i]).0 <= self.clips.len()
                &&& self.clips[self.clip_stack[i].0 - 1].parent == if i == 0 {
                    ClipId(0)
                } else {
                    self.clip_stack[i - 1]
                }
            }
    }

    pub open spec fn runs_hold(self) -> bool {
        &&& runs_are_contiguous(self.segments)
        &&& self.run == mark_at(self.segments, self.segments.len() as int)
        &&& Marks::zero().le(self.run)
        &&& self.run.le(self.arrays.marks())
        &&& self.segments.len() <= self.run.total()
        &&& self.arrays.marks().total() <= self.ops.len()
    }

    /// Whether the steps draw every run and push every group once and in order,
    /// and nest.
    pub open spec fn steps_hold(self) -> bool {
        &&& runs_drawn(self.steps) == self.segments.len()
        &&& pushed_groups(self.steps) == numbers_below(self.groups.len())
        &&& forall|i: int|
            0 <= i < self.steps.len() ==> match #[trigger] self.steps[i] {
                SceneStepRecord::Run(id) => id.0 == runs_drawn(self.steps.take(i)) && id.0
                    < self.segments.len(),
                SceneStepRecord::PushGroup(id) => id.0 < self.groups.len(),
                SceneStepRecord::PopGroup => true,
            }
        &&& steps_nest(self.steps)
        &&& depth_after(self.steps) == self.open.len()
    }

    /// What holds of the `i`th open group.
    pub open spec fn open_group_holds(self, i: int) -> bool {
        let group = self.open[i];
        &&& group.id < self.groups.len()
        &&& group.segments_len <= self.segments.len()
        &&& group.steps_len < self.steps.len()
        &&& group.reopen == mark_at(self.segments, group.segments_len as int)
        &&& Marks::zero().le(group.reopen)
        &&& group.reopen.le(group.content)
        &&& group.content.le(self.run)
        &&& group.segments_len <= group.reopen.total()
        &&& runs_drawn(self.steps.take(group.steps_len as int)) == group.segments_len
        &&& pushed_groups(self.steps.take(group.steps_len as int)) == numbers_below(group.id)
        &&& depth_after(self.steps.take(group.steps_len as int)) == i
        &&& forall|k: int|
            0 <= k < group.steps_len ==> match #[trigger] self.steps[k] {
                SceneStepRecord::PushGroup(id) => id.0 < group.id,
                _ => true,
            }
        &&& !group.has_surviving_child ==> if i + 1 < self.open.len() {
            self.open[i + 1].id == group.id + 1
        } else {
            self.groups.len() == group.id + 1
        }
    }

    pub open spec fn groups_hold(self) -> bool {
        &&& self.groups.len() <= self.ops.len()
        &&& forall|i: int| 0 <= i < self.open.len() ==> #[trigger] self.open_group_holds(i)
        &&& forall|i: int, j: int|
            0 <= i < j < self.open.len() ==> {
                &&& (#[trigger] self.open[i]).id < (#[trigger] self.open[j]).id
                &&& self.open[i].segments_len <= self.open[j].segments_len
                &&& self.open[i].steps_len < self.open[j].steps_len
                &&& self.open[i].content.le(self.open[j].reopen)
            }
    }

    /// What holds of every scene.
    #[verifier::opaque]
    pub open spec fn wf(self) -> bool {
        &&& self.orders_hold()
        &&& self.clips_hold()
        &&& self.runs_hold()
        &&& self.steps_hold()
        &&& self.groups_hold()
    }
}

pub proof fn lemma_empty_wf()
    ensures
        SceneModel::empty().wf(),
{
    reveal(SceneModel::wf);
    let s = SceneModel::empty();
    assert(s.steps.take(0) =~= s.steps);
    assert(numbers_below(0) =~= Seq::<int>::empty());
    assert forall|n: int| 0 <= n <= s.steps.len() implies depth_after(#[trigger] s.steps.take(n))
        >= 0 by {
        assert(s.steps.take(n) =~= s.steps);
    }
}

proof fn lemma_highest_bound(entries: Seq<(Rect, nat)>, bounds: Rect, n: nat)
    requires
        forall|i: int| 0 <= i < entries.len() ==> (#[trigger] entries[i]).1 <= n,
    ensures
        highest_below(entries, bounds) <= n,
    decreases entries.len(),
{
    if entries.len() > 0 {
        let rest = entries.drop_last();
        assert forall|i: int| 0 <= i < rest.len() implies (#[trigger] rest[i]).1 <= n by {
            assert(rest[i] == entries[i]);
        }
        lemma_highest_bound(rest, bounds, n);
        assert(entries[entries.len() - 1].1 <= n);
    }
}

/// The next box's order is no greater than the number of boxes with it.
pub proof fn lemma_order_above(entries: Seq<(Rect, nat)>, bounds: Rect)
    requires
        orders_are_bounded(entries),
    ensures
        1 <= order_above(entries, bounds) <= entries.len() + 1,
        orders_are_bounded(entries.push((bounds, order_above(entries, bounds)))),
{
    lemma_highest_bound(entries, bounds, entries.len());
    let after = entries.push((bounds, order_above(entries, bounds)));
    assert forall|i: int| 0 <= i < after.len() implies 1 <= (#[trigger] after[i]).1
        <= after.len() by {
        if i < entries.len() {
            assert(after[i] == entries[i]);
        }
    }
}

proof fn lemma_stamps_grow(arrays: Arrays, orders: nat, clips: nat, more: nat, others: nat)
    requires
        arrays.stamps_fit(orders, clips),
        orders <= more,
        clips <= others,
    ensures
        arrays.stamps_fit(more, others),
{
}

/// Steps, segments and groups are the same: so is what is said of them.
proof fn lemma_same_structure(s: SceneModel, t: SceneModel)
    requires
        s.runs_hold(),
        s.steps_hold(),
        s.groups_hold(),
        t.steps == s.steps,
        t.segments == s.segments,
        t.groups == s.groups,
        t.open == s.open,
        t.run == s.run,
        s.arrays.marks().le(t.arrays.marks()),
        t.arrays.marks().total() <= t.ops.len(),
        s.ops.len() <= t.ops.len(),
    ensures
        t.runs_hold(),
        t.steps_hold(),
        t.groups_hold(),
{
    assert forall|i: int| 0 <= i < t.open.len() implies #[trigger] t.open_group_holds(i) by {
        assert(s.open_group_holds(i));
    }
}

pub proof fn lemma_layer_pushed_wf(s: SceneModel, bounds: Rect)
    requires
        s.wf(),
        s.ops.len() < MAX_OPERATIONS,
    ensures
        s.layer_pushed(bounds).wf(),
{
    reveal(SceneModel::wf);
    let t = s.layer_pushed(bounds);
    lemma_order_above(s.tree, bounds);
    lemma_stamps_grow(s.arrays, s.tree.len(), s.clips.len(), t.tree.len(), t.clips.len());
    assert forall|i: int| 0 <= i < t.layers.len() implies 1 <= #[trigger] t.layers[i]
        <= t.tree.len() by {
        if i < s.layers.len() {
            assert(t.layers[i] == s.layers[i]);
        }
    }
    lemma_same_structure(s, t);
}

pub proof fn lemma_layer_popped_wf(s: SceneModel)
    requires
        s.wf(),
        s.ops.len() < MAX_OPERATIONS,
    ensures
        s.layer_popped().wf(),
{
    reveal(SceneModel::wf);
    let t = s.layer_popped();
    assert forall|i: int| 0 <= i < t.layers.len() implies 1 <= #[trigger] t.layers[i]
        <= t.tree.len() by {
        assert(t.layers[i] == s.layers[i]);
    }
    lemma_same_structure(s, t);
}

pub proof fn lemma_clip_pushed_wf(s: SceneModel, path: ClipPathModel<ScaledPixels>, visible: Rect)
    requires
        s.wf(),
        s.ops.len() < MAX_OPERATIONS,
    ensures
        s.clip_pushed(path, visible).wf(),
{
    reveal(SceneModel::wf);
    let t = s.clip_pushed(path, visible);
    lemma_stamps_grow(s.arrays, s.tree.len(), s.clips.len(), t.tree.len(), t.clips.len());
    assert forall|i: int| 0 <= i < t.clips.len() implies (#[trigger] t.clips[i]).parent.0 <= i by {
        if i < s.clips.len() {
            assert(t.clips[i] == s.clips[i]);
        } else if s.clip_stack.len() > 0 {
            assert(1 <= s.clip_stack[s.clip_stack.len() - 1].0 <= s.clips.len());
        }
    }
    assert forall|i: int| 0 <= i < t.clip_stack.len() implies {
        &&& 1 <= (#[trigger] t.clip_stack[i]).0 <= t.clips.len()
        &&& t.clips[t.clip_stack[i].0 - 1].parent == if i == 0 {
            ClipId(0)
        } else {
            t.clip_stack[i - 1]
        }
    } by {
        if i < s.clip_stack.len() {
            assert(t.clip_stack[i] == s.clip_stack[i]);
        }
    }
    lemma_same_structure(s, t);
}

pub proof fn lemma_clip_popped_wf(s: SceneModel)
    requires
        s.wf(),
        s.ops.len() < MAX_OPERATIONS,
    ensures
        s.clip_popped().wf(),
{
    reveal(SceneModel::wf);
    let t = s.clip_popped();
    assert forall|i: int| 0 <= i < t.clip_stack.len() implies {
        &&& 1 <= (#[trigger] t.clip_stack[i]).0 <= t.clips.len()
        &&& t.clips[t.clip_stack[i].0 - 1].parent == if i == 0 {
            ClipId(0)
        } else {
            t.clip_stack[i - 1]
        }
    } by {
        assert(t.clip_stack[i] == s.clip_stack[i]);
    }
    lemma_same_structure(s, t);
}

proof fn lemma_stamps_push<T: DrawnSpec>(items: Seq<T>, item: T, orders: nat, clips: nat)
    requires
        stamps_fit(items, orders, clips),
        1 <= item.draw_order() <= orders,
        item.draw_clip().0 <= clips,
    ensures
        stamps_fit(items.push(item), orders, clips),
{
    assert forall|i: int| 0 <= i < items.push(item).len() implies 1 <= (#[trigger] items.push(
        item,
    )[i]).draw_order() <= orders && items.push(item)[i].draw_clip().0 <= clips by {
        if i < items.len() {
            assert(items.push(item)[i] == items[i]);
        }
    }
}

#[verifier::spinoff_prover]
#[verifier::rlimit(40)]
pub proof fn lemma_inserted_wf(s: SceneModel, primitive: PrimitiveModel)
    requires
        s.wf(),
        s.ops.len() < MAX_OPERATIONS,
    ensures
        s.inserted(primitive).wf(),
{
    reveal(SceneModel::wf);
    let visible = primitive.visible();
    let t = s.inserted(primitive);
    if !visible.is_empty() {
        lemma_order_above(s.tree, visible);
        let order = s.order_for(visible);
        let clip = s.current_clip();
        if s.layers.len() > 0 {
            assert(1 <= s.layers[s.layers.len() - 1] <= s.tree.len());
        }
        assert(1 <= order <= t.tree.len());
        if s.clip_stack.len() > 0 {
            assert(1 <= s.clip_stack[s.clip_stack.len() - 1].0 <= s.clips.len());
        }
        assert(clip.0 <= t.clips.len());
        let n = s.arrays.paths.len();
        lemma_stamps_grow(s.arrays, s.tree.len(), s.clips.len(), t.tree.len(), t.clips.len());
        match primitive {
            PrimitiveModel::Shadow(item) => {
                lemma_stamps_push(
                    s.arrays.shadows,
                    item.stamped(order, clip, n),
                    t.tree.len(),
                    t.clips.len(),
                );
            },
            PrimitiveModel::Quad(item) => {
                lemma_stamps_push(
                    s.arrays.quads,
                    item.stamped(order, clip, n),
                    t.tree.len(),
                    t.clips.len(),
                );
            },
            PrimitiveModel::Path(item) => {
                lemma_stamps_push(
                    s.arrays.paths,
                    item.stamped(order, clip, n),
                    t.tree.len(),
                    t.clips.len(),
                );
            },
            PrimitiveModel::Underline(item) => {
                lemma_stamps_push(
                    s.arrays.underlines,
                    item.stamped(order, clip, n),
                    t.tree.len(),
                    t.clips.len(),
                );
            },
            PrimitiveModel::MonochromeSprite(item) => {
                lemma_stamps_push(
                    s.arrays.monochrome_sprites,
                    item.stamped(order, clip, n),
                    t.tree.len(),
                    t.clips.len(),
                );
            },
            PrimitiveModel::SubpixelSprite(item) => {
                lemma_stamps_push(
                    s.arrays.subpixel_sprites,
                    item.stamped(order, clip, n),
                    t.tree.len(),
                    t.clips.len(),
                );
            },
            PrimitiveModel::PolychromeSprite(item) => {
                lemma_stamps_push(
                    s.arrays.polychrome_sprites,
                    item.stamped(order, clip, n),
                    t.tree.len(),
                    t.clips.len(),
                );
            },
            PrimitiveModel::Surface(item) => {
                lemma_stamps_push(
                    s.arrays.surfaces,
                    item.stamped(order, clip, n),
                    t.tree.len(),
                    t.clips.len(),
                );
            },
        }
        assert forall|i: int| 0 <= i < t.arrays.paths.len() implies (
        #[trigger] t.arrays.paths[i]).id < t.arrays.paths.len() by {
            if i < s.arrays.paths.len() {
                assert(t.arrays.paths[i] == s.arrays.paths[i]);
            }
        }
        assert forall|i: int, j: int| 0 <= i < j < t.arrays.paths.len() implies (
        #[trigger] t.arrays.paths[i]).id != (#[trigger] t.arrays.paths[j]).id by {
            assert(t.arrays.paths[i] == s.arrays.paths[i]);
            if j < s.arrays.paths.len() {
                assert(t.arrays.paths[j] == s.arrays.paths[j]);
            }
        }
        lemma_same_structure(s, t);
    }
}

proof fn lemma_steps_push(steps: Seq<SceneStepRecord>, step: SceneStepRecord)
    ensures
        runs_drawn(steps.push(step)) == runs_drawn(steps) + if step is Run {
            1int
        } else {
            0
        },
        pushed_groups(steps.push(step)) == match step {
            SceneStepRecord::PushGroup(id) => pushed_groups(steps).push(id.0 as int),
            _ => pushed_groups(steps),
        },
        depth_after(steps.push(step)) == depth_after(steps) + match step {
            SceneStepRecord::Run(_) => 0int,
            SceneStepRecord::PushGroup(_) => 1,
            SceneStepRecord::PopGroup => -1,
        },
        forall|n: int| 0 <= n <= steps.len() ==> #[trigger] steps.push(step).take(n) == steps.take(n),
        steps.push(step).take(steps.len() as int + 1) == steps.push(step),
        steps.take(steps.len() as int) == steps,
{
    assert(steps.push(step).drop_last() =~= steps);
    assert forall|n: int| 0 <= n <= steps.len() implies #[trigger] steps.push(step).take(n)
        == steps.take(n) by {
        assert(steps.push(step).take(n) =~= steps.take(n));
    }
    assert(steps.push(step).take(steps.len() as int + 1) =~= steps.push(step));
    assert(steps.take(steps.len() as int) =~= steps);
}

/// A step that is neither a run nor leaves the nesting wrong keeps what holds of
/// the steps; `open` is the number of groups it leaves open.
proof fn lemma_step_added(
    s: SceneModel,
    t: SceneModel,
    step: SceneStepRecord,
)
    requires
        s.steps_hold(),
        t.steps == s.steps.push(step),
        s.segments.len() <= t.segments.len(),
        match step {
            SceneStepRecord::Run(id) => id.0 == s.segments.len() && t.segments.len()
                == s.segments.len() + 1 && t.open.len() == s.open.len() && t.groups.len()
                == s.groups.len(),
            SceneStepRecord::PushGroup(id) => id.0 == s.groups.len() && t.segments.len()
                == s.segments.len() && t.open.len() == s.open.len() + 1 && t.groups.len()
                == s.groups.len() + 1,
            SceneStepRecord::PopGroup => t.segments.len() == s.segments.len() && t.open.len()
                == s.open.len() - 1 && t.groups.len() == s.groups.len(),
        },
    ensures
        t.steps_hold(),
{
    lemma_steps_push(s.steps, step);
    assert(numbers_below(s.groups.len()).push(s.groups.len() as int) =~= numbers_below(
        s.groups.len() + 1,
    ));
    assert forall|i: int| 0 <= i < t.steps.len() implies match #[trigger] t.steps[i] {
        SceneStepRecord::Run(id) => id.0 == runs_drawn(t.steps.take(i)) && id.0
            < t.segments.len(),
        SceneStepRecord::PushGroup(id) => id.0 < t.groups.len(),
        SceneStepRecord::PopGroup => true,
    } by {
        assert(t.steps.take(i) == s.steps.take(i));
        if i < s.steps.len() {
            assert(t.steps[i] == s.steps[i]);
        }
    }
    assert forall|n: int| 0 <= n <= t.steps.len() implies depth_after(#[trigger] t.steps.take(n))
        >= 0 by {
        if n <= s.steps.len() {
            assert(t.steps.take(n) == s.steps.take(n));
            assert(depth_after(s.steps.take(n)) >= 0);
        } else {
            assert(t.steps.take(n) =~= t.steps);
        }
    }
}

/// What is said of an open group still holds when steps, runs and groups are
/// added behind it.
proof fn lemma_open_group_kept(s: SceneModel, t: SceneModel, i: int, step: Option<SceneStepRecord>)
    requires
        s.open_group_holds(i),
        0 <= i < s.open.len(),
        i < t.open.len(),
        t.open[i] == (OpenModel {
            has_surviving_child: t.open[i].has_surviving_child,
            child_bounds: t.open[i].child_bounds,
            ..s.open[i]
        }),
        t.steps == match step {
            None => s.steps,
            Some(step) => s.steps.push(step),
        },
        s.segments.len() <= t.segments.len(),
        forall|k: int| 0 <= k < s.segments.len() ==> t.segments[k] == s.segments[k],
        s.groups.len() <= t.groups.len(),
        s.run.le(t.run),
        !t.open[i].has_surviving_child ==> if i + 1 < t.open.len() {
            t.open[i + 1].id == t.open[i].id + 1
        } else {
            t.groups.len() == t.open[i].id + 1
        },
    ensures
        t.open_group_holds(i),
{
    let group = s.open[i];
    if let Some(step) = step {
        lemma_steps_push(s.steps, step);
    }
    assert(t.steps.take(group.steps_len as int) == s.steps.take(group.steps_len as int));
    assert forall|k: int| 0 <= k < group.steps_len implies match #[trigger] t.steps[k] {
        SceneStepRecord::PushGroup(id) => id.0 < group.id,
        _ => true,
    } by {
        assert(t.steps[k] == s.steps[k]);
    }
    assert(mark_at(t.segments, group.segments_len as int) == mark_at(
        s.segments,
        group.segments_len as int,
    ));
}

pub proof fn lemma_run_closed_wf(s: SceneModel)
    requires
        s.wf(),
    ensures
        s.run_closed().wf(),
        s.run_closed().run == s.arrays.marks(),
        s.run_closed().ops == s.ops,
        s.run_closed().segments.len() <= s.ops.len(),
{
    reveal(SceneModel::wf);
    let t = s.run_closed();
    let run = RunModel { start: s.run, end: s.arrays.marks() };
    if run.is_empty() {
        assert(t =~= s);
    } else {
        assert(run.start.total() < run.end.total());
        assert forall|i: int| 0 <= i < t.segments.len() implies {
            &&& (#[trigger] t.segments[i]).start == mark_at(t.segments, i)
            &&& Marks::zero().le(t.segments[i].start)
            &&& t.segments[i].start.le(t.segments[i].end)
            &&& !t.segments[i].is_empty()
        } by {
            if i < s.segments.len() {
                assert(t.segments[i] == s.segments[i]);
                assert(mark_at(t.segments, i) == mark_at(s.segments, i));
            }
        }
        let step = SceneStepRecord::Run(SegmentId(s.segments.len() as u32));
        lemma_step_added(s, t, step);
        assert forall|i: int| 0 <= i < t.open.len() implies #[trigger] t.open_group_holds(i) by {
            assert(s.open_group_holds(i));
            lemma_open_group_kept(s, t, i, Some(step));
        }
    }
}

#[verifier::spinoff_prover]
#[verifier::rlimit(40)]
pub proof fn lemma_group_pushed_wf(s: SceneModel, group: GroupModel)
    requires
        s.wf(),
        s.ops.len() < MAX_OPERATIONS,
    ensures
        s.group_pushed(group).wf(),
{
    reveal(SceneModel::wf);
    lemma_run_closed_wf(s);
    let c = s.run_closed();
    let t = s.group_pushed(group);
    let step = SceneStepRecord::PushGroup(GroupId(s.groups.len() as u32));
    lemma_step_added(c, t, step);
    lemma_steps_push(c.steps, step);
    let n = s.open.len() as int;
    assert forall|i: int| 0 <= i < t.open.len() implies #[trigger] t.open_group_holds(i) by {
        if i < n {
            assert(c.open_group_holds(i));
            if i + 1 < n {
                assert(t.open[i + 1] == c.open[i + 1]);
            }
            lemma_open_group_kept(c, t, i, Some(step));
        } else {
            let open = t.open[n];
            assert(t.steps.take(s.steps.len() as int) =~= s.steps) by {
                assert(t.steps.take(s.steps.len() as int) =~= c.steps.take(s.steps.len() as int));
            }
            assert forall|k: int| 0 <= k < open.steps_len implies match #[trigger] t.steps[k] {
                SceneStepRecord::PushGroup(id) => id.0 < open.id,
                _ => true,
            } by {
                assert(t.steps[k] == s.steps[k]);
            }
            assert(mark_at(t.segments, s.segments.len() as int) == mark_at(
                s.segments,
                s.segments.len() as int,
            ));
        }
    }
    assert forall|i: int, j: int| 0 <= i < j < t.open.len() implies {
        &&& (#[trigger] t.open[i]).id < (#[trigger] t.open[j]).id
        &&& t.open[i].segments_len <= t.open[j].segments_len
        &&& t.open[i].steps_len < t.open[j].steps_len
        &&& t.open[i].content.le(t.open[j].reopen)
    } by {
        assert(t.open[i] == s.open[i]);
        assert(s.open_group_holds(i));
        if j < n {
            assert(t.open[j] == s.open[j]);
        }
    }
}

proof fn lemma_stamps_faded<T: DrawnSpec>(
    items: Seq<T>,
    start: int,
    end: int,
    factor: int,
    orders: nat,
    clips: nat,
)
    requires
        stamps_fit(items, orders, clips),
        forall|item: T| (#[trigger] item.faded(factor)).draw_order() == item.draw_order(),
        forall|item: T| (#[trigger] item.faded(factor)).draw_clip() == item.draw_clip(),
    ensures
        stamps_fit(faded_in(items, start, end, factor), orders, clips),
        faded_in(items, start, end, factor).len() == items.len(),
{
    let faded = faded_in(items, start, end, factor);
    assert forall|i: int| 0 <= i < faded.len() implies 1 <= (#[trigger] faded[i]).draw_order()
        <= orders && faded[i].draw_clip().0 <= clips by {
        assert(1 <= items[i].draw_order() <= orders);
        assert(items[i].faded(factor).draw_order() == items[i].draw_order());
        assert(items[i].faded(factor).draw_clip() == items[i].draw_clip());
    }
}

/// Fading changes no order, no clip, no number and no array's length.
pub proof fn lemma_faded_arrays(
    arrays: Arrays,
    start: Marks,
    end: Marks,
    factor: int,
    orders: nat,
    clips: nat,
)
    requires
        arrays.stamps_fit(orders, clips),
        path_ids_are_a_permutation(arrays.paths),
    ensures
        arrays.faded(start, end, factor).stamps_fit(orders, clips),
        arrays.faded(start, end, factor).marks() == arrays.marks(),
        path_ids_are_a_permutation(arrays.faded(start, end, factor).paths),
{
    let after = arrays.faded(start, end, factor);
    lemma_stamps_faded(arrays.shadows, start.shadows, end.shadows, factor, orders, clips);
    lemma_stamps_faded(arrays.quads, start.quads, end.quads, factor, orders, clips);
    lemma_stamps_faded(arrays.paths, start.paths, end.paths, factor, orders, clips);
    lemma_stamps_faded(arrays.underlines, start.underlines, end.underlines, factor, orders, clips);
    lemma_stamps_faded(arrays.monochrome_sprites, start.monochrome_sprites, end.monochrome_sprites, factor, orders, clips);
    lemma_stamps_faded(arrays.subpixel_sprites, start.subpixel_sprites, end.subpixel_sprites, factor, orders, clips);
    lemma_stamps_faded(arrays.polychrome_sprites, start.polychrome_sprites, end.polychrome_sprites, factor, orders, clips);
    lemma_stamps_faded(arrays.surfaces, start.surfaces, end.surfaces, factor, orders, clips);
    assert forall|i: int| 0 <= i < after.paths.len() implies (#[trigger] after.paths[i]).id
        < after.paths.len() by {
        assert(arrays.paths[i].id < arrays.paths.len());
    }
    assert forall|i: int, j: int| 0 <= i < j < after.paths.len() implies (
    #[trigger] after.paths[i]).id != (#[trigger] after.paths[j]).id by {
        assert(arrays.paths[i].id != arrays.paths[j].id);
    }
}

#[verifier::spinoff_prover]
#[verifier::rlimit(60)]
pub proof fn lemma_group_folded_wf(s: SceneModel)
    requires
        s.wf(),
        s.ops.len() < MAX_OPERATIONS,
        s.can_pop_group(),
        s.group_folds(),
    ensures
        s.group_folded().wf(),
{
    reveal(SceneModel::wf);
    let t = s.group_folded();
    let n = s.open.len() - 1;
    let group = s.open[n];
    assert(s.open_group_holds(n));
    let opacity = s.groups[group.id as int].opacity;
    lemma_faded_arrays(
        s.arrays,
        group.content,
        s.arrays.marks(),
        opacity as int,
        s.tree.len(),
        s.clips.len(),
    );
    assert(t.arrays.marks() == s.arrays.marks());
    assert forall|i: int| 0 <= i < t.segments.len() implies {
        &&& (#[trigger] t.segments[i]).start == mark_at(t.segments, i)
        &&& Marks::zero().le(t.segments[i].start)
        &&& t.segments[i].start.le(t.segments[i].end)
        &&& !t.segments[i].is_empty()
    } by {
        assert(t.segments[i] == s.segments[i]);
        assert(mark_at(t.segments, i) == mark_at(s.segments, i));
    }
    assert(mark_at(t.segments, t.segments.len() as int) == group.reopen);
    assert forall|i: int| 0 <= i <= group.steps_len implies #[trigger] t.steps.take(i)
        == s.steps.take(i) by {
        assert(t.steps.take(i) =~= s.steps.take(i));
    }
    assert(t.steps.take(t.steps.len() as int) =~= t.steps);
    assert forall|i: int| 0 <= i < t.steps.len() implies match #[trigger] t.steps[i] {
        SceneStepRecord::Run(id) => id.0 == runs_drawn(t.steps.take(i)) && id.0
            < t.segments.len(),
        SceneStepRecord::PushGroup(id) => id.0 < t.groups.len(),
        SceneStepRecord::PopGroup => true,
    } by {
        assert(t.steps[i] == s.steps[i]);
        assert(t.steps.take(i) == s.steps.take(i));
        if t.steps[i] is Run {
            lemma_runs_drawn_within(t.steps, i);
        }
    }
    assert forall|m: int| 0 <= m <= t.steps.len() implies depth_after(#[trigger] t.steps.take(m))
        >= 0 by {
        assert(t.steps.take(m) == s.steps.take(m));
        assert(depth_after(s.steps.take(m)) >= 0);
    }
    assert forall|i: int| 0 <= i < t.open.len() implies #[trigger] t.open_group_holds(i) by {
        assert(s.open_group_holds(i));
        let outer = s.open[i];
        assert(t.open[i] == outer);
        assert(outer.steps_len < group.steps_len);
        assert(t.steps.take(outer.steps_len as int) == s.steps.take(outer.steps_len as int));
        assert forall|k: int| 0 <= k < outer.steps_len implies match #[trigger] t.steps[k] {
            SceneStepRecord::PushGroup(id) => id.0 < outer.id,
            _ => true,
        } by {
            assert(t.steps[k] == s.steps[k]);
        }
        assert(mark_at(t.segments, outer.segments_len as int) == mark_at(
            s.segments,
            outer.segments_len as int,
        ));
        if i + 1 < t.open.len() {
            assert(t.open[i + 1] == s.open[i + 1]);
        }
    }
    assert forall|i: int, j: int| 0 <= i < j < t.open.len() implies {
        &&& (#[trigger] t.open[i]).id < (#[trigger] t.open[j]).id
        &&& t.open[i].segments_len <= t.open[j].segments_len
        &&& t.open[i].steps_len < t.open[j].steps_len
        &&& t.open[i].content.le(t.open[j].reopen)
    } by {
        assert(t.open[i] == s.open[i]);
        assert(t.open[j] == s.open[j]);
    }
}

/// A run drawn at some step is counted in all the steps.
proof fn lemma_runs_drawn_within(steps: Seq<SceneStepRecord>, i: int)
    requires
        0 <= i < steps.len(),
        steps[i] is Run,
    ensures
        runs_drawn(steps.take(i)) < runs_drawn(steps),
    decreases steps.len(),
{
    if i == steps.len() - 1 {
        assert(steps.take(i) =~= steps.drop_last());
    } else {
        lemma_runs_drawn_within(steps.drop_last(), i);
        assert(steps.drop_last().take(i) =~= steps.take(i));
    }
}

#[verifier::spinoff_prover]
#[verifier::rlimit(60)]
pub proof fn lemma_group_closed_wf(s: SceneModel)
    requires
        s.wf(),
        s.ops.len() < MAX_OPERATIONS,
        s.can_pop_group(),
    ensures
        s.group_closed().wf(),
{
    reveal(SceneModel::wf);
    let t = s.group_closed();
    let n = s.open.len() - 1;
    let group = s.open[n];
    assert(s.open_group_holds(n));
    let grown = s.group_grown();
    let named = SceneModel { groups: s.groups.update(group.id as int, grown), ..s };
    lemma_same_structure_but_groups(s, named);
    lemma_run_closed_wf(named);
    let c = named.run_closed();
    let popped = SceneModel { open: named.open.drop_last(), ..named };
    assert(popped.run_closed() =~= SceneModel { open: c.open.drop_last(), ..c });
    assert(t.steps == c.steps.push(SceneStepRecord::PopGroup));
    assert(t.open.len() == c.open.len() - 1);
    lemma_step_added(c, t, SceneStepRecord::PopGroup);
    assert forall|i: int| 0 <= i < t.open.len() implies #[trigger] t.open_group_holds(i) by {
        assert(c.open_group_holds(i));
        lemma_open_group_kept(c, t, i, Some(SceneStepRecord::PopGroup));
    }
    assert forall|i: int, j: int| 0 <= i < j < t.open.len() implies {
        &&& (#[trigger] t.open[i]).id < (#[trigger] t.open[j]).id
        &&& t.open[i].segments_len <= t.open[j].segments_len
        &&& t.open[i].steps_len < t.open[j].steps_len
        &&& t.open[i].content.le(t.open[j].reopen)
    } by {
        assert(s.open[i].id < s.open[j].id);
    }
}

proof fn lemma_same_structure_but_groups(s: SceneModel, t: SceneModel)
    requires
        s.wf(),
        t == (SceneModel { groups: t.groups, ..s }),
        t.groups.len() == s.groups.len(),
    ensures
        t.wf(),
{
    reveal(SceneModel::wf);
    assert forall|i: int| 0 <= i < t.open.len() implies #[trigger] t.open_group_holds(i) by {
        assert(s.open_group_holds(i));
    }
}

pub proof fn lemma_group_popped_wf(s: SceneModel)
    requires
        s.wf(),
        s.ops.len() < MAX_OPERATIONS,
        s.can_pop_group(),
    ensures
        s.group_popped().wf(),
{
    reveal(SceneModel::wf);
    if s.group_folds() {
        lemma_group_folded_wf(s);
    } else {
        lemma_group_closed_wf(s);
    }
}

pub proof fn lemma_applied_wf(s: SceneModel, op: OpModel)
    requires
        s.wf(),
        s.ops.len() < MAX_OPERATIONS,
        s.can_apply(op),
    ensures
        s.applied(op).wf(),
        s.applied(op).ops.len() <= s.ops.len() + 1,
{
    reveal(SceneModel::wf);
    match op {
        OpModel::Primitive(primitive) => lemma_inserted_wf(s, primitive),
        OpModel::StartLayer(bounds) => lemma_layer_pushed_wf(s, bounds),
        OpModel::EndLayer => lemma_layer_popped_wf(s),
        OpModel::PushClip(path, visible) => lemma_clip_pushed_wf(s, path, visible),
        OpModel::PopClip => lemma_clip_popped_wf(s),
        OpModel::StartGroup(group) => lemma_group_pushed_wf(s, group),
        OpModel::EndGroup => lemma_group_popped_wf(s),
    }
}

} // verus!
