//! A scene as a mathematical value, and what each call does to it.

use crate::atlas::AtlasTextureId;
use crate::clip_path::ClipPathModel;
use crate::fixed::ONE;
use crate::geometry::{Rect, ScaledPixels};
use crate::scene::bounds_tree::order_above;
use crate::scene::group::GroupModel;
use crate::scene::ids::{ClipId, DrawOrder, GroupId, SegmentId};
use crate::scene::path::PathModel;
use crate::scene::primitive::{
    rank_of, visible_box, DrawnSpec, MonochromeSprite, PaintSurface, PolychromeSprite,
    PrimitiveModel, Quad, Shadow, SubpixelSprite, Underline,
};
use crate::scene::segment::{Marks, PrimitiveKind};
use crate::scene::sort::stable_sort;
use vstd::prelude::*;

verus! {

/// The most operations a scene takes: every id it hands out fits a `u32`.
pub const MAX_OPERATIONS: usize = 0xffff_fffe;

/// How many pairs of boxes the test for overlap compares before it gives up.
pub const SCAN_BUDGET: usize = 4096;

/// A scene's primitives: one array for each kind.
#[verifier::ext_equal]
pub struct Arrays {
    pub shadows: Seq<Shadow>,
    pub quads: Seq<Quad>,
    pub paths: Seq<PathModel<ScaledPixels>>,
    pub underlines: Seq<Underline>,
    pub monochrome_sprites: Seq<MonochromeSprite>,
    pub subpixel_sprites: Seq<SubpixelSprite>,
    pub polychrome_sprites: Seq<PolychromeSprite>,
    pub surfaces: Seq<PaintSurface>,
}

/// What a renderer's batches depend on, of one primitive.
pub struct Draw {
    pub order: DrawOrder,
    pub clipped: bool,
    pub texture: Option<AtlasTextureId>,
}

pub open spec fn draw_of<T: DrawnSpec>(item: T) -> Draw {
    Draw {
        order: item.draw_order(),
        clipped: item.draw_clip().clips(),
        texture: item.draw_texture(),
    }
}

pub open spec fn draws_of<T: DrawnSpec>(items: Seq<T>) -> Seq<Draw> {
    items.map_values(|item: T| draw_of(item))
}

/// The visible boxes of `items[start..end]`.
pub open spec fn boxes_in<T: DrawnSpec>(items: Seq<T>, start: int, end: int) -> Seq<Rect> {
    items.subrange(start, end).map_values(|item: T| visible_box(item))
}

/// `items`, with the alpha of `items[start..end]` multiplied by `factor`.
pub open spec fn faded_in<T: DrawnSpec>(
    items: Seq<T>,
    start: int,
    end: int,
    factor: int,
) -> Seq<T> {
    items.map(
        |i: int, item: T|
            if start <= i < end {
                item.faded(factor)
            } else {
                item
            },
    )
}

pub open spec fn ranking<T: DrawnSpec>() -> spec_fn(T) -> int {
    |item: T| rank_of(item)
}

/// `items`, with `items[start..end]` put in drawing order.
pub open spec fn sorted_in<T: DrawnSpec>(items: Seq<T>, start: int, end: int) -> Seq<T> {
    items.take(start) + stable_sort(items.subrange(start, end), ranking::<T>()) + items.skip(end)
}

impl Arrays {
    pub open spec fn empty() -> Arrays {
        Arrays {
            shadows: Seq::empty(),
            quads: Seq::empty(),
            paths: Seq::empty(),
            underlines: Seq::empty(),
            monochrome_sprites: Seq::empty(),
            subpixel_sprites: Seq::empty(),
            polychrome_sprites: Seq::empty(),
            surfaces: Seq::empty(),
        }
    }

    /// Where each array ends.
    pub open spec fn marks(self) -> Marks {
        Marks {
            shadows: self.shadows.len() as int,
            quads: self.quads.len() as int,
            paths: self.paths.len() as int,
            underlines: self.underlines.len() as int,
            monochrome_sprites: self.monochrome_sprites.len() as int,
            subpixel_sprites: self.subpixel_sprites.len() as int,
            polychrome_sprites: self.polychrome_sprites.len() as int,
            surfaces: self.surfaces.len() as int,
        }
    }

    pub open spec fn draws(self, kind: PrimitiveKind) -> Seq<Draw> {
        match kind {
            PrimitiveKind::Shadow => draws_of(self.shadows),
            PrimitiveKind::Quad => draws_of(self.quads),
            PrimitiveKind::Path => draws_of(self.paths),
            PrimitiveKind::Underline => draws_of(self.underlines),
            PrimitiveKind::MonochromeSprite => draws_of(self.monochrome_sprites),
            PrimitiveKind::SubpixelSprite => draws_of(self.subpixel_sprites),
            PrimitiveKind::PolychromeSprite => draws_of(self.polychrome_sprites),
            PrimitiveKind::Surface => draws_of(self.surfaces),
        }
    }

    /// The arrays with one more primitive.
    pub open spec fn with(self, primitive: PrimitiveModel) -> Arrays {
        match primitive {
            PrimitiveModel::Shadow(item) => Arrays { shadows: self.shadows.push(item), ..self },
            PrimitiveModel::Quad(item) => Arrays { quads: self.quads.push(item), ..self },
            PrimitiveModel::Path(item) => Arrays { paths: self.paths.push(item), ..self },
            PrimitiveModel::Underline(item) => Arrays { underlines: self.underlines.push(item), ..self },
            PrimitiveModel::MonochromeSprite(item) => Arrays { monochrome_sprites: self.monochrome_sprites.push(item), ..self },
            PrimitiveModel::SubpixelSprite(item) => Arrays { subpixel_sprites: self.subpixel_sprites.push(item), ..self },
            PrimitiveModel::PolychromeSprite(item) => Arrays { polychrome_sprites: self.polychrome_sprites.push(item), ..self },
            PrimitiveModel::Surface(item) => Arrays { surfaces: self.surfaces.push(item), ..self },
        }
    }

    /// Every visible box of a run.
    pub open spec fn boxes(self, start: Marks, end: Marks) -> Seq<Rect> {
        boxes_in(self.shadows, start.shadows, end.shadows)
            + boxes_in(self.quads, start.quads, end.quads)
            + boxes_in(self.paths, start.paths, end.paths)
            + boxes_in(self.underlines, start.underlines, end.underlines)
            + boxes_in(self.monochrome_sprites, start.monochrome_sprites, end.monochrome_sprites)
            + boxes_in(self.subpixel_sprites, start.subpixel_sprites, end.subpixel_sprites)
            + boxes_in(self.polychrome_sprites, start.polychrome_sprites, end.polychrome_sprites)
            + boxes_in(self.surfaces, start.surfaces, end.surfaces)
    }

    /// The arrays with the alpha of every primitive of a run multiplied by
    /// `factor`.
    pub open spec fn faded(self, start: Marks, end: Marks, factor: int) -> Arrays {
        Arrays {
            shadows: faded_in(self.shadows, start.shadows, end.shadows, factor),
            quads: faded_in(self.quads, start.quads, end.quads, factor),
            paths: faded_in(self.paths, start.paths, end.paths, factor),
            underlines: faded_in(self.underlines, start.underlines, end.underlines, factor),
            monochrome_sprites: faded_in(self.monochrome_sprites, start.monochrome_sprites, end.monochrome_sprites, factor),
            subpixel_sprites: faded_in(self.subpixel_sprites, start.subpixel_sprites, end.subpixel_sprites, factor),
            polychrome_sprites: faded_in(self.polychrome_sprites, start.polychrome_sprites, end.polychrome_sprites, factor),
            surfaces: faded_in(self.surfaces, start.surfaces, end.surfaces, factor),
        }
    }

    /// The arrays with each stretch of a run put in drawing order.
    pub open spec fn sorted(self, start: Marks, end: Marks) -> Arrays {
        Arrays {
            shadows: sorted_in(self.shadows, start.shadows, end.shadows),
            quads: sorted_in(self.quads, start.quads, end.quads),
            paths: sorted_in(self.paths, start.paths, end.paths),
            underlines: sorted_in(self.underlines, start.underlines, end.underlines),
            monochrome_sprites: sorted_in(self.monochrome_sprites, start.monochrome_sprites, end.monochrome_sprites),
            subpixel_sprites: sorted_in(self.subpixel_sprites, start.subpixel_sprites, end.subpixel_sprites),
            polychrome_sprites: sorted_in(self.polychrome_sprites, start.polychrome_sprites, end.polychrome_sprites),
            surfaces: sorted_in(self.surfaces, start.surfaces, end.surfaces),
        }
    }

    /// The arrays with each of the first `n` runs put in drawing order.
    pub open spec fn runs_sorted(self, runs: Seq<RunModel>, n: nat) -> Arrays
        decreases n,
    {
        if n == 0 {
            self
        } else {
            let run = runs[n - 1];
            self.runs_sorted(runs, (n - 1) as nat).sorted(run.start, run.end)
        }
    }
}

/// A run of primitives: where its stretch of each array begins and ends.
pub struct RunModel {
    pub start: Marks,
    pub end: Marks,
}

impl RunModel {
    pub open spec fn is_empty(self) -> bool {
        self.end.le(self.start)
    }
}

/// The boxes in the order of their left edges.
pub open spec fn by_left(boxes: Seq<Rect>) -> Seq<Rect> {
    stable_sort(boxes, |r: Rect| r.x)
}

/// How many of `boxes` reach beyond `x`.
pub open spec fn reaching(boxes: Seq<Rect>, x: int) -> nat
    decreases boxes.len(),
{
    if boxes.len() == 0 {
        0
    } else if boxes.last().right() > x {
        reaching(boxes.drop_last(), x) + 1
    } else {
        reaching(boxes.drop_last(), x)
    }
}

/// How many pairs of boxes share an x span, of boxes in the order of their left
/// edges.
pub open spec fn crossings(boxes: Seq<Rect>) -> nat
    decreases boxes.len(),
{
    if boxes.len() == 0 {
        0
    } else {
        crossings(boxes.drop_last()) + reaching(boxes.drop_last(), boxes.last().x)
    }
}

/// Whether no two of the boxes overlap.
pub open spec fn pairwise_disjoint(boxes: Seq<Rect>) -> bool {
    forall|i: int, j: int|
        0 <= i < j < boxes.len() ==> !(#[trigger] boxes[i]).intersects(#[trigger] boxes[j])
}

/// Whether no two of the boxes overlap, and few enough of them share an x span
/// to be sure of it.
pub open spec fn is_overlap_free(boxes: Seq<Rect>) -> bool {
    pairwise_disjoint(by_left(boxes)) && crossings(by_left(boxes)) <= SCAN_BUDGET
}

/// The smallest box that holds `painted` and every box that is not empty.
pub open spec fn union_of(painted: Option<Rect>, boxes: Seq<Rect>) -> Option<Rect>
    decreases boxes.len(),
{
    if boxes.len() == 0 {
        painted
    } else {
        let rest = union_of(painted, boxes.drop_last());
        if boxes.last().is_empty() {
            rest
        } else {
            match rest {
                None => Some(boxes.last()),
                Some(rest) => Some(rest.union(boxes.last())),
            }
        }
    }
}

/// A clip path of a scene.
pub struct ClipModel {
    pub path: ClipPathModel<ScaledPixels>,
    pub parent: ClipId,
    pub visible: Rect,
}

/// One instruction of the order a scene is drawn in.
#[derive(Clone, Copy, Debug, PartialEq, Eq, Structural)]
pub enum SceneStepRecord {
    Run(SegmentId),
    PushGroup(GroupId),
    PopGroup,
}

/// A group that has been pushed and not popped.
pub struct OpenModel {
    pub id: nat,
    pub steps_len: nat,
    pub segments_len: nat,
    pub reopen: Marks,
    pub content: Marks,
    pub layer_depth: nat,
    pub has_surviving_child: bool,
    pub child_bounds: Option<Rect>,
}

/// One call that painted something.
pub enum OpModel {
    Primitive(PrimitiveModel),
    StartLayer(Rect),
    EndLayer,
    PushClip(ClipPathModel<ScaledPixels>, Rect),
    PopClip,
    StartGroup(GroupModel),
    EndGroup,
}

/// A scene, as what it says.
#[verifier::ext_equal]
pub struct SceneModel {
    /// The calls that painted it.
    pub ops: Seq<OpModel>,
    /// The boxes painted outside any layer, and the layers' own.
    pub tree: Seq<(Rect, nat)>,
    /// The orders of the layers that are open.
    pub layers: Seq<DrawOrder>,
    /// The clips that are pushed.
    pub clip_stack: Seq<ClipId>,
    pub groups: Seq<GroupModel>,
    pub segments: Seq<RunModel>,
    pub steps: Seq<SceneStepRecord>,
    /// The groups that are open.
    pub open: Seq<OpenModel>,
    /// Where the run being painted began.
    pub run: Marks,
    pub clips: Seq<ClipModel>,
    pub arrays: Arrays,
}

impl SceneModel {
    pub open spec fn empty() -> SceneModel {
        SceneModel {
            ops: Seq::empty(),
            tree: Seq::empty(),
            layers: Seq::empty(),
            clip_stack: Seq::empty(),
            groups: Seq::empty(),
            segments: Seq::empty(),
            steps: Seq::empty(),
            open: Seq::empty(),
            run: Marks::zero(),
            clips: Seq::empty(),
            arrays: Arrays::empty(),
        }
    }

    /// The clip that primitives are stamped with.
    pub open spec fn current_clip(self) -> ClipId {
        if self.clip_stack.len() == 0 {
            ClipId(0)
        } else {
            self.clip_stack.last()
        }
    }

    pub open spec fn layer_pushed(self, bounds: Rect) -> SceneModel {
        let order = order_above(self.tree, bounds);
        SceneModel {
            tree: self.tree.push((bounds, order)),
            layers: self.layers.push(order as u32),
            ops: self.ops.push(OpModel::StartLayer(bounds)),
            ..self
        }
    }

    pub open spec fn layer_popped(self) -> SceneModel {
        SceneModel {
            layers: if self.layers.len() == 0 {
                self.layers
            } else {
                self.layers.drop_last()
            },
            ops: self.ops.push(OpModel::EndLayer),
            ..self
        }
    }

    pub open spec fn clip_pushed(
        self,
        path: ClipPathModel<ScaledPixels>,
        visible: Rect,
    ) -> SceneModel {
        SceneModel {
            ops: self.ops.push(OpModel::PushClip(path, visible)),
            clips: self.clips.push(ClipModel { path, parent: self.current_clip(), visible }),
            clip_stack: self.clip_stack.push(ClipId((self.clips.len() + 1) as u32)),
            ..self
        }
    }

    pub open spec fn clip_popped(self) -> SceneModel {
        SceneModel {
            clip_stack: if self.clip_stack.len() == 0 {
                self.clip_stack
            } else {
                self.clip_stack.drop_last()
            },
            ops: self.ops.push(OpModel::PopClip),
            ..self
        }
    }

    /// The order a primitive of this visible box is given: that of the layer it
    /// is in, or one above everything it intersects.
    pub open spec fn order_for(self, visible: Rect) -> DrawOrder {
        if self.layers.len() == 0 {
            order_above(self.tree, visible) as u32
        } else {
            self.layers.last()
        }
    }

    /// The scene with one more primitive. One that nothing can be seen of is
    /// left out.
    pub open spec fn inserted(self, primitive: PrimitiveModel) -> SceneModel {
        let visible = primitive.visible();
        if visible.is_empty() {
            self
        } else {
            let order = self.order_for(visible);
            let stamped = primitive.stamped(
                order,
                self.current_clip(),
                self.arrays.paths.len(),
            );
            SceneModel {
                tree: if self.layers.len() == 0 {
                    self.tree.push((visible, order_above(self.tree, visible)))
                } else {
                    self.tree
                },
                arrays: self.arrays.with(stamped),
                ops: self.ops.push(OpModel::Primitive(stamped)),
                ..self
            }
        }
    }

    /// The scene with the run being painted closed, and recorded unless it is
    /// empty.
    pub open spec fn run_closed(self) -> SceneModel {
        let run = RunModel { start: self.run, end: self.arrays.marks() };
        let closed = SceneModel { run: run.end, ..self };
        if run.is_empty() {
            closed
        } else {
            SceneModel {
                segments: self.segments.push(run),
                steps: self.steps.push(
                    SceneStepRecord::Run(SegmentId(self.segments.len() as u32)),
                ),
                ..closed
            }
        }
    }

    pub open spec fn group_pushed(self, group: GroupModel) -> SceneModel {
        let closed = self.run_closed();
        SceneModel {
            groups: closed.groups.push(group),
            steps: closed.steps.push(
                SceneStepRecord::PushGroup(GroupId(self.groups.len() as u32)),
            ),
            open: closed.open.push(
                OpenModel {
                    id: self.groups.len(),
                    steps_len: self.steps.len(),
                    segments_len: self.segments.len(),
                    reopen: self.run,
                    content: closed.run,
                    layer_depth: self.layers.len(),
                    has_surviving_child: false,
                    child_bounds: None,
                },
            ),
            ops: closed.ops.push(OpModel::StartGroup(group)),
            ..closed
        }
    }

    /// Whether there is a group to pop, and it does not straddle a layer.
    pub open spec fn can_pop_group(self) -> bool {
        self.open.len() > 0 && self.open.last().layer_depth == self.layers.len()
    }

    /// Whether the innermost group can be taken out of the scene without
    /// changing the picture.
    pub open spec fn group_folds(self) -> bool {
        let group = self.open.last();
        let ends = self.arrays.marks();
        &&& !group.has_surviving_child
        &&& self.groups[group.id as int].is_foldable()
        &&& group.content.subpixel_sprites >= ends.subpixel_sprites
        &&& group.content.surfaces >= ends.surfaces
        &&& is_overlap_free(self.arrays.boxes(group.content, ends))
    }

    /// The scene with the innermost group taken out, and its opacity multiplied
    /// into what it held.
    pub open spec fn group_folded(self) -> SceneModel {
        let group = self.open.last();
        let opacity = self.groups[group.id as int].opacity;
        SceneModel {
            open: self.open.drop_last(),
            groups: self.groups.drop_last(),
            steps: self.steps.take(group.steps_len as int),
            segments: self.segments.take(group.segments_len as int),
            run: group.reopen,
            arrays: if opacity < ONE {
                self.arrays.faded(group.content, self.arrays.marks(), opacity as int)
            } else {
                self.arrays
            },
            ops: self.ops.push(OpModel::EndGroup),
            ..self
        }
    }

    /// Everything that the innermost group paints: its primitives, and the
    /// groups inside it that are composited onto it.
    pub open spec fn group_painted(self) -> Option<Rect> {
        let group = self.open.last();
        let children = match group.child_bounds {
            None => None,
            Some(bounds) => if bounds.is_empty() {
                None
            } else {
                Some(bounds)
            },
        };
        union_of(children, self.arrays.boxes(group.content, self.arrays.marks()))
    }

    /// The innermost group, with a target that holds everything it paints.
    pub open spec fn group_grown(self) -> GroupModel {
        let group = self.groups[self.open.last().id as int];
        match self.group_painted() {
            None => group,
            Some(painted) => group.grown(painted),
        }
    }

    /// The scene with the innermost group closed, and kept.
    pub open spec fn group_closed(self) -> SceneModel {
        let id = self.open.last().id as int;
        let grown = self.group_grown();
        let popped = SceneModel {
            open: self.open.drop_last(),
            groups: self.groups.update(id, grown),
            ..self
        }.run_closed();
        SceneModel {
            steps: popped.steps.push(SceneStepRecord::PopGroup),
            open: with_child(popped.open, grown.bounds),
            ops: popped.ops.push(OpModel::EndGroup),
            ..popped
        }
    }

    pub open spec fn group_popped(self) -> SceneModel {
        if self.group_folds() {
            self.group_folded()
        } else {
            self.group_closed()
        }
    }

    /// The scene with the run still open closed, and every run in drawing
    /// order.
    pub open spec fn finished(self) -> SceneModel {
        let closed = self.run_closed();
        SceneModel {
            arrays: closed.arrays.runs_sorted(closed.segments, closed.segments.len()),
            ..closed
        }
    }

    /// Whether the call can be made.
    pub open spec fn can_apply(self, op: OpModel) -> bool {
        op is EndGroup ==> self.can_pop_group()
    }

    /// The scene after one more call.
    pub open spec fn applied(self, op: OpModel) -> SceneModel {
        match op {
            OpModel::Primitive(primitive) => self.inserted(primitive),
            OpModel::StartLayer(bounds) => self.layer_pushed(bounds),
            OpModel::EndLayer => self.layer_popped(),
            OpModel::PushClip(path, visible) => self.clip_pushed(path, visible),
            OpModel::PopClip => self.clip_popped(),
            OpModel::StartGroup(group) => self.group_pushed(group),
            OpModel::EndGroup => self.group_popped(),
        }
    }

    /// Whether the calls can be made, one after the other.
    pub open spec fn can_apply_all(self, ops: Seq<OpModel>) -> bool
        decreases ops.len(),
    {
        ops.len() == 0 || (self.can_apply_all(ops.drop_last()) && self.applied_all(
            ops.drop_last(),
        ).can_apply(ops.last()))
    }

    /// The scene after some more calls.
    pub open spec fn applied_all(self, ops: Seq<OpModel>) -> SceneModel
        decreases ops.len(),
    {
        if ops.len() == 0 {
            self
        } else {
            self.applied_all(ops.drop_last()).applied(ops.last())
        }
    }
}

/// The open groups, the innermost of which has been given a child of `bounds`.
pub open spec fn with_child(open: Seq<OpenModel>, bounds: Rect) -> Seq<OpenModel> {
    if open.len() == 0 {
        open
    } else {
        let parent = open.last();
        open.drop_last().push(
            OpenModel {
                has_surviving_child: true,
                child_bounds: match parent.child_bounds {
                    None => Some(bounds),
                    Some(existing) => Some(existing.union(bounds)),
                },
                ..parent
            },
        )
    }
}

} // verus!
