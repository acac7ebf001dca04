//! Painting a stretch of the last frame again.

use crate::scene::model::{OpModel, SceneModel, MAX_OPERATIONS};
use crate::scene::recording::{PaintOperation, Scene};
use crate::scene::soundness::lemma_applied_wf;
use core::ops::Range;
use vstd::prelude::*;

verus! {

/// How many layers some calls leave open, and for each group they leave open,
/// how many layers were open at its push.
#[verifier::ext_equal]
pub struct Watch {
    pub depth: nat,
    pub open: Seq<nat>,
}

/// What one more call does to the layers and groups that are open; `None` where
/// it closes a group that none of the calls opened, or one that straddles a
/// layer.
pub open spec fn watched(watch: Option<Watch>, op: OpModel) -> Option<Watch> {
    match watch {
        None => None,
        Some(w) => match op {
            OpModel::StartLayer(_) => Some(Watch { depth: w.depth + 1, ..w }),
            OpModel::EndLayer => Some(
                Watch {
                    depth: if w.depth == 0 {
                        0
                    } else {
                        (w.depth - 1) as nat
                    },
                    ..w
                },
            ),
            OpModel::StartGroup(_) => Some(Watch { open: w.open.push(w.depth), ..w }),
            OpModel::EndGroup => if w.open.len() > 0 && w.open.last() == w.depth {
                Some(Watch { open: w.open.drop_last(), ..w })
            } else {
                None
            },
            _ => Some(w),
        },
    }
}

pub open spec fn watched_all(depth: nat, ops: Seq<OpModel>) -> Option<Watch>
    decreases ops.len(),
{
    if ops.len() == 0 {
        Some(Watch { depth, open: Seq::empty() })
    } else {
        watched(watched_all(depth, ops.drop_last()), ops.last())
    }
}

/// Whether the calls close every group that they open and no other, and no
/// group straddles a layer, where `depth` layers are open before them.
pub open spec fn is_balanced(depth: nat, ops: Seq<OpModel>) -> bool {
    watched_all(depth, ops) matches Some(w) && w.open.len() == 0
}

/// Whether a scene's open layers and groups are those it had before some calls
/// and those that the calls left open.
spec fn agrees(before: SceneModel, after: SceneModel, watch: Watch) -> bool {
    let n = before.open.len() as int;
    &&& after.layers.len() == watch.depth
    &&& after.open.len() == n + watch.open.len()
    &&& forall|k: int|
        0 <= k < watch.open.len() ==> after.open[n + k].layer_depth == #[trigger] watch.open[k]
}

proof fn lemma_agreement_kept(before: SceneModel, s: SceneModel, watch: Watch, op: OpModel)
    requires
        agrees(before, s, watch),
        watched(Some(watch), op) is Some,
    ensures
        s.can_apply(op),
        agrees(before, s.applied(op), watched(Some(watch), op)->0),
{
    let n = before.open.len() as int;
    let t = s.applied(op);
    let after = watched(Some(watch), op)->0;
    if op is EndGroup {
        let m = watch.open.len() - 1;
        assert(s.open[n + m].layer_depth == watch.open[m]);
        assert(s.can_pop_group());
        assert forall|k: int| 0 <= k < after.open.len() implies t.open[n + k].layer_depth
            == #[trigger] after.open[k] by {
            assert(s.open[n + k].layer_depth == watch.open[k]);
        }
    } else {
        assert forall|k: int| 0 <= k < after.open.len() implies t.open[n + k].layer_depth
            == #[trigger] after.open[k] by {
            if k < watch.open.len() {
                assert(s.open[n + k].layer_depth == watch.open[k]);
            }
        }
    }
}

/// Calls whose prefix cannot be watched cannot be watched.
proof fn lemma_watched_prefix(depth: nat, ops: Seq<OpModel>, n: int)
    requires
        0 <= n <= ops.len(),
        watched_all(depth, ops) is Some,
    ensures
        watched_all(depth, ops.take(n)) is Some,
    decreases ops.len() - n,
{
    if n < ops.len() {
        lemma_watched_prefix(depth, ops, n + 1);
        assert(ops.take(n + 1).drop_last() =~= ops.take(n));
    } else {
        assert(ops.take(n) =~= ops);
    }
}

/// The operations from `start` to `end` of a scene.
pub open spec fn ops_in(scene: SceneModel, start: int, end: int) -> Seq<OpModel> {
    scene.ops.subrange(start, end)
}

impl Scene {
    /// Whether [`Scene::replay`] can paint the calls `range` of `prev_scene`:
    /// whether they are there, there is room for them, they close every group
    /// that they open and no other, and no group straddles a layer.
    pub fn can_replay(&self, range: &Range<usize>, prev_scene: &Scene) -> (r: bool)
        requires
            self@.wf(),
        ensures
            r == (range.start <= range.end <= prev_scene@.ops.len() && self@.ops.len() + (range.end
                - range.start) <= MAX_OPERATIONS && is_balanced(
                self@.layers.len(),
                ops_in(prev_scene@, range.start as int, range.end as int),
            )),
    {
        reveal(SceneModel::wf);
        let start: usize = range.start;
        let end: usize = range.end;
        if start > end || end > prev_scene.paint_operations.len() {
            return false;
        }
        if end - start > MAX_OPERATIONS || self.paint_operations.len() > MAX_OPERATIONS - (end
            - start) {
            return false;
        }
        let ghost ops = ops_in(prev_scene@, start as int, end as int);
        let ghost layers = self@.layers.len();
        let mut depth: usize = self.layer_stack.len();
        let mut open: Vec<usize> = Vec::new();
        let mut index: usize = start;
        proof {
            assert(ops.take(0) =~= Seq::<OpModel>::empty());
            assert(depths(open@) =~= Seq::<nat>::empty());
        }
        while index < end
            invariant
                start == range.start,
                end == range.end,
                start <= index <= end <= prev_scene.paint_operations@.len(),
                ops == ops_in(prev_scene@, start as int, end as int),
                ops.len() == end - start,
                layers == self.layer_stack@.len(),
                depth <= layers + (index - start),
                layers + (end - start) <= MAX_OPERATIONS,
                start <= end <= prev_scene@.ops.len(),
                self@.ops.len() + (end - start) <= MAX_OPERATIONS,
                watched_all(layers, ops.take(index - start)) == Some(
                    (Watch { depth: depth as nat, open: depths(open@) }),
                ),
            decreases end - index,
        {
            let ghost n = index - start;
            proof {
                assert(ops.take(n + 1).drop_last() =~= ops.take(n));
                assert(ops.take(n + 1).last() == prev_scene.paint_operations@[index as int]@);
            }
            let ghost held = open@;
            match &prev_scene.paint_operations[index] {
                PaintOperation::StartLayer(_) => {
                    depth += 1;
                },
                PaintOperation::EndLayer => {
                    if depth > 0 {
                        depth -= 1;
                    }
                },
                PaintOperation::StartGroup(_) => {
                    open.push(depth);
                    assert(depths(open@) =~= depths(held).push(depth as nat));
                },
                PaintOperation::EndGroup => {
                    let closes = match open.pop() {
                        Some(at) => at == depth,
                        None => false,
                    };
                    if !closes {
                        proof {
                            assert(held.len() > 0 ==> depths(held).last() == held.last());
                            assert(watched_all(layers, ops.take(n + 1)) is None);
                            if watched_all(layers, ops) is Some {
                                lemma_watched_prefix(layers, ops, n + 1);
                            }
                        }
                        return false;
                    }
                    assert(depths(open@) =~= depths(held).drop_last());
                },
                _ => {},
            }
            index += 1;
        }
        assert(ops.take(index - start) =~= ops);
        open.len() == 0
    }

    /// Paint the calls `range` of `prev_scene` again.
    ///
    /// They are painted as if they were made now: their primitives are ordered
    /// among those of this scene, and clips and groups are registered anew.
    pub fn replay(&mut self, range: Range<usize>, prev_scene: &Scene)
        requires
            old(self)@.wf(),
            range.start <= range.end <= prev_scene@.ops.len(),
            old(self)@.ops.len() + (range.end - range.start) <= MAX_OPERATIONS,
            is_balanced(
                old(self)@.layers.len(),
                ops_in(prev_scene@, range.start as int, range.end as int),
            ),
        ensures
            final(self)@ == old(self)@.applied_all(
                ops_in(prev_scene@, range.start as int, range.end as int),
            ),
            final(self)@.wf(),
    {
        let ghost before = self@;
        let start: usize = range.start;
        let end: usize = range.end;
        let ghost ops = ops_in(prev_scene@, start as int, end as int);
        let ghost layers = self@.layers.len();
        let mut index: usize = start;
        proof {
            assert(ops.take(0) =~= Seq::<OpModel>::empty());
        }
        while index < end
            invariant
                start <= index <= end <= prev_scene.paint_operations@.len(),
                ops == ops_in(prev_scene@, start as int, end as int),
                ops.len() == end - start,
                layers == before.layers.len(),
                is_balanced(layers, ops),
                before.ops.len() + (end - start) <= MAX_OPERATIONS,
                self@.ops.len() <= before.ops.len() + (index - start),
                self@ == before.applied_all(ops.take(index - start)),
                self@.wf(),
                watched_all(layers, ops.take(index - start)) is Some,
                agrees(before, self@, watched_all(layers, ops.take(index - start))->0),
            decreases end - index,
        {
            let ghost n = index - start;
            let ghost now = self@;
            let ghost op = prev_scene.paint_operations@[index as int]@;
            proof {
                assert(ops.take(n + 1).drop_last() =~= ops.take(n));
                assert(ops.take(n + 1).last() == op);
                lemma_watched_prefix(layers, ops, n + 1);
                lemma_agreement_kept(before, now, watched_all(layers, ops.take(n))->0, op);
                lemma_applied_wf(now, op);
            }
            match &prev_scene.paint_operations[index] {
                PaintOperation::Primitive(primitive) => self.insert(primitive.clone()),
                PaintOperation::StartLayer(bounds) => self.push_layer(*bounds),
                PaintOperation::EndLayer => self.pop_layer(),
                PaintOperation::PushClip(path, visible) => {
                    self.push_clip(path.clone(), *visible);
                },
                PaintOperation::PopClip => self.pop_clip(),
                PaintOperation::StartGroup(spec) => {
                    self.push_group(spec.clone());
                },
                PaintOperation::EndGroup => self.pop_group(),
            }
            assert(self@ == now.applied(op));
            index += 1;
        }
        assert(ops.take(index - start) =~= ops);
    }
}

pub open spec fn depths(open: Seq<usize>) -> Seq<nat> {
    open.map_values(|depth: usize| depth as nat)
}

/// A recorded call does what the call it records did.
proof fn lemma_recorded_op(s: SceneModel, op: OpModel)
    requires
        s.can_apply(op),
    ensures
        ({
            let t = s.applied(op);
            ||| t == s
            ||| t.ops.len() == s.ops.len() + 1 && t.ops.drop_last() == s.ops && s.can_apply(
                t.ops.last(),
            ) && s.applied(t.ops.last()) == t
        }),
{
    let t = s.applied(op);
    if op is Primitive {
        let primitive = op->Primitive_0;
        let visible = primitive.visible();
        if !visible.is_empty() {
            let stamped = primitive.stamped(
                s.order_for(visible),
                s.current_clip(),
                s.arrays.paths.len(),
            );
            assert(stamped.visible() == visible);
            assert(stamped.stamped(
                s.order_for(visible),
                s.current_clip(),
                s.arrays.paths.len(),
            ) == stamped);
            assert(t.ops.drop_last() =~= s.ops);
            assert(t.ops.last() == OpModel::Primitive(stamped));
        }
    } else {
        assert(t.ops.drop_last() =~= s.ops);
    }
}

/// Replaying the calls that a scene recorded paints the same scene again:
/// whatever calls painted it, the calls it kept paint it too.
pub proof fn replaying_a_scene_rebuilds_it(ops: Seq<OpModel>)
    requires
        SceneModel::empty().can_apply_all(ops),
    ensures
        SceneModel::empty().can_apply_all(SceneModel::empty().applied_all(ops).ops),
        SceneModel::empty().applied_all(SceneModel::empty().applied_all(ops).ops)
            == SceneModel::empty().applied_all(ops),
    decreases ops.len(),
{
    let nothing = SceneModel::empty();
    if ops.len() > 0 {
        replaying_a_scene_rebuilds_it(ops.drop_last());
        let before = nothing.applied_all(ops.drop_last());
        lemma_recorded_op(before, ops.last());
    }
}

/// Replaying a stretch and then the next is replaying both.
pub proof fn replaying_in_pieces_is_replaying_at_once(
    scene: SceneModel,
    first: Seq<OpModel>,
    second: Seq<OpModel>,
)
    ensures
        scene.applied_all(first).applied_all(second) == scene.applied_all(first + second),
    decreases second.len(),
{
    if second.len() == 0 {
        assert(first + second =~= first);
    } else {
        replaying_in_pieces_is_replaying_at_once(scene, first, second.drop_last());
        assert((first + second).drop_last() =~= first + second.drop_last());
    }
}

/// A balanced stretch leaves the groups that were open before it open, and no
/// other.
pub proof fn a_balanced_stretch_keeps_the_depth(scene: SceneModel, ops: Seq<OpModel>)
    requires
        is_balanced(scene.layers.len(), ops),
    ensures
        scene.can_apply_all(ops),
        scene.applied_all(ops).open.len() == scene.open.len(),
{
    lemma_watched_run(scene, ops);
}

proof fn lemma_watched_run(scene: SceneModel, ops: Seq<OpModel>)
    requires
        watched_all(scene.layers.len(), ops) is Some,
    ensures
        scene.can_apply_all(ops),
        agrees(scene, scene.applied_all(ops), watched_all(scene.layers.len(), ops)->0),
    decreases ops.len(),
{
    if ops.len() > 0 {
        let rest = ops.drop_last();
        lemma_watched_run(scene, rest);
        lemma_agreement_kept(
            scene,
            scene.applied_all(rest),
            watched_all(scene.layers.len(), rest)->0,
            ops.last(),
        );
    }
}

} // verus!
