//! Recording a scene.

use crate::clip_path::ClipPath;
use crate::fixed::ONE;
use crate::geometry::{Bounds, Rect, ScaledPixels};
use crate::scene::bounds_tree::{orders_are_bounded, BoundsTree};
use crate::scene::group::{GroupModel, GroupSpec};
use crate::scene::ids::{ClipId, DrawOrder, GroupId, PathId, SegmentId};
use crate::scene::model::{
    boxes_in, faded_in, ranking, sorted_in, union_of, with_child, Arrays, ClipModel, OpModel, OpenModel,
    RunModel, SceneModel, SceneStepRecord, MAX_OPERATIONS,
};
use crate::scene::ordering::{
    lemma_finished_wf, lemma_sort_map, lemma_sorted_in, lemma_stretches_follow, stretches,
};
use crate::scene::overlap::{content_is_overlap_free, rects};
use crate::scene::path::{Path, PathModel};
use crate::scene::primitive::{
    Drawn, MonochromeSprite, PaintSurface, PolychromeSprite, Primitive, Quad, Shadow,
    SubpixelSprite, Underline,
};
use crate::scene::segment::{Marks, PrimitiveKind, Segment};
use crate::scene::sort::{by_rank, sort_range};
use crate::scene::soundness::{
    lemma_clip_popped_wf, lemma_clip_pushed_wf, lemma_empty_wf, lemma_group_popped_wf,
    lemma_group_pushed_wf, lemma_inserted_wf, lemma_layer_popped_wf, lemma_layer_pushed_wf,
    lemma_run_closed_wf,
};
use vstd::prelude::*;

verus! {

/// A clip path of a scene, and the clip it was pushed inside.
///
/// Clips nest. A nested clip points to its parent, and what it lets through is
/// what every clip of the chain lets through.
#[derive(Debug)]
pub struct SceneClip {
    /// The shape.
    pub path: ClipPath<ScaledPixels>,
    /// The clip this one was pushed inside.
    pub parent: ClipId,
    /// The part of the window that a primitive inside this clip can reach: the
    /// content mask in force when it was pushed.
    pub visible: Bounds<ScaledPixels>,
}

impl View for SceneClip {
    type V = ClipModel;

    open spec fn view(&self) -> ClipModel {
        ClipModel { path: self.path@, parent: self.parent, visible: self.visible@ }
    }
}

/// One instruction of the order a scene has to be drawn in.
#[derive(Debug)]
pub enum SceneStep<'a> {
    /// Draw these primitives.
    Run(&'a Segment),
    /// Start drawing to a target of this group's own.
    PushGroup(&'a GroupSpec),
    /// Composite the innermost open group onto the target underneath it.
    PopGroup,
}

/// A group that has been pushed and not popped, and what it takes to take it
/// out of the scene again.
#[derive(Debug)]
pub struct OpenGroup {
    pub id: GroupId,
    /// How many steps there were before the run that was closed to make room
    /// for this group.
    pub steps_len: usize,
    /// How many segments there were then.
    pub segments_len: usize,
    /// Where that run began.
    pub reopen: Segment,
    /// Where the group's own primitives begin.
    pub content: Segment,
    /// How many layers were open at the push.
    pub layer_depth: usize,
    /// Whether a group inside this one was kept.
    pub has_surviving_child: bool,
    /// The box around the groups inside this one that were kept. Each is
    /// composited onto this group's target over its own box, which a blur may
    /// have grown past everything it painted.
    pub child_bounds: Option<Bounds<ScaledPixels>>,
}

impl View for OpenGroup {
    type V = OpenModel;

    open spec fn view(&self) -> OpenModel {
        OpenModel {
            id: self.id.0 as nat,
            steps_len: self.steps_len as nat,
            segments_len: self.segments_len as nat,
            reopen: self.reopen.starts(),
            content: self.content.starts(),
            layer_depth: self.layer_depth as nat,
            has_surviving_child: self.has_surviving_child,
            child_bounds: match self.child_bounds {
                None => None,
                Some(bounds) => Some(bounds@),
            },
        }
    }
}

/// One call that painted something.
#[derive(Debug)]
pub enum PaintOperation {
    Primitive(Primitive),
    StartLayer(Bounds<ScaledPixels>),
    EndLayer,
    PushClip(ClipPath<ScaledPixels>, Bounds<ScaledPixels>),
    PopClip,
    StartGroup(GroupSpec),
    EndGroup,
}

impl View for PaintOperation {
    type V = OpModel;

    open spec fn view(&self) -> OpModel {
        match *self {
            PaintOperation::Primitive(primitive) => OpModel::Primitive(primitive@),
            PaintOperation::StartLayer(bounds) => OpModel::StartLayer(bounds@),
            PaintOperation::EndLayer => OpModel::EndLayer,
            PaintOperation::PushClip(path, visible) => OpModel::PushClip(path@, visible@),
            PaintOperation::PopClip => OpModel::PopClip,
            PaintOperation::StartGroup(group) => OpModel::StartGroup(group@),
            PaintOperation::EndGroup => OpModel::EndGroup,
        }
    }
}

/// What a window paints in one frame.
#[derive(Debug)]
pub struct Scene {
    /// The calls that painted the scene, for the next frame to replay.
    pub paint_operations: Vec<PaintOperation>,
    pub primitive_bounds: BoundsTree,
    pub layer_stack: Vec<DrawOrder>,
    pub clip_stack: Vec<ClipId>,
    /// The isolated groups, in the order they were pushed.
    pub groups: Vec<GroupSpec>,
    /// The runs of primitives that the groups cut the scene into.
    pub segments: Vec<Segment>,
    pub steps: Vec<SceneStepRecord>,
    pub group_stack: Vec<OpenGroup>,
    /// The run being painted. Its starts alone count: it ends wherever the
    /// arrays do.
    pub open_run: Segment,
    pub clips: Vec<SceneClip>,
    pub shadows: Vec<Shadow>,
    pub quads: Vec<Quad>,
    pub paths: Vec<Path<ScaledPixels>>,
    pub underlines: Vec<Underline>,
    pub monochrome_sprites: Vec<MonochromeSprite>,
    pub subpixel_sprites: Vec<SubpixelSprite>,
    pub polychrome_sprites: Vec<PolychromeSprite>,
    pub surfaces: Vec<PaintSurface>,
}

pub open spec fn ops_view(ops: Seq<PaintOperation>) -> Seq<OpModel> {
    ops.map_values(|op: PaintOperation| op@)
}

pub open spec fn groups_view(groups: Seq<GroupSpec>) -> Seq<GroupModel> {
    groups.map_values(|group: GroupSpec| group@)
}

pub open spec fn segment_view(segment: Segment) -> RunModel {
    RunModel { start: segment.starts(), end: segment.ends() }
}

pub open spec fn segments_view(segments: Seq<Segment>) -> Seq<RunModel> {
    segments.map_values(|segment: Segment| segment_view(segment))
}

pub open spec fn open_view(open: Seq<OpenGroup>) -> Seq<OpenModel> {
    open.map_values(|group: OpenGroup| group@)
}

pub open spec fn clips_view(clips: Seq<SceneClip>) -> Seq<ClipModel> {
    clips.map_values(|clip: SceneClip| clip@)
}

pub open spec fn paths_view(paths: Seq<Path<ScaledPixels>>) -> Seq<PathModel<ScaledPixels>> {
    paths.map_values(|path: Path<ScaledPixels>| path@)
}

impl View for Scene {
    type V = SceneModel;

    open spec fn view(&self) -> SceneModel {
        SceneModel {
            ops: ops_view(self.paint_operations@),
            tree: self.primitive_bounds@,
            layers: self.layer_stack@,
            clip_stack: self.clip_stack@,
            groups: groups_view(self.groups@),
            segments: segments_view(self.segments@),
            steps: self.steps@,
            open: open_view(self.group_stack@),
            run: self.open_run.starts(),
            clips: clips_view(self.clips@),
            arrays: Arrays {
                shadows: self.shadows@,
                quads: self.quads@,
                paths: paths_view(self.paths@),
                underlines: self.underlines@,
                monochrome_sprites: self.monochrome_sprites@,
                subpixel_sprites: self.subpixel_sprites@,
                polychrome_sprites: self.polychrome_sprites@,
                surfaces: self.surfaces@,
            },
        }
    }
}

impl Default for Scene {
    fn default() -> (r: Self)
        ensures
            r@ == SceneModel::empty(),
            r@.wf(),
    {
        let r = Scene {
            paint_operations: Vec::new(),
            primitive_bounds: BoundsTree::default(),
            layer_stack: Vec::new(),
            clip_stack: Vec::new(),
            groups: Vec::new(),
            segments: Vec::new(),
            steps: Vec::new(),
            group_stack: Vec::new(),
            open_run: Segment::nothing(),
            clips: Vec::new(),
            shadows: Vec::new(),
            quads: Vec::new(),
            paths: Vec::new(),
            underlines: Vec::new(),
            monochrome_sprites: Vec::new(),
            subpixel_sprites: Vec::new(),
            polychrome_sprites: Vec::new(),
            surfaces: Vec::new(),
        };
        proof {
            assert(r@ =~= SceneModel::empty());
            lemma_empty_wf();
        }
        r
    }
}

/// Add the visible boxes of `items[start..end]`.
fn push_boxes<T: Drawn>(
    boxes: &mut Vec<Bounds<ScaledPixels>>,
    items: &Vec<T>,
    start: usize,
    end: usize,
)
    requires
        start <= end <= items@.len(),
    ensures
        rects(final(boxes)@) == rects(old(boxes)@) + boxes_in(items@, start as int, end as int),
{
    let ghost before = rects(boxes@);
    let mut index: usize = start;
    while index < end
        invariant
            start <= index <= end <= items@.len(),
            rects(boxes@) == before + boxes_in(items@, start as int, index as int),
        decreases end - index,
    {
        let ghost prior = boxes@;
        let bounds = items[index].visible_bounds();
        boxes.push(bounds);
        proof {
            assert(rects(boxes@) =~= rects(prior).push(bounds@));
            assert(boxes_in(items@, start as int, index + 1) =~= boxes_in(
                items@,
                start as int,
                index as int,
            ).push(bounds@));
        }
        index += 1;
        assert(rects(boxes@) =~= before + boxes_in(items@, start as int, index as int));
    }
    assert(rects(boxes@) =~= before + boxes_in(items@, start as int, end as int));
}

/// Multiply `factor` into the alpha of `items[start..end]`.
fn fade_range<T: Drawn>(items: &mut Vec<T>, start: usize, end: usize, factor: i64)
    requires
        start <= end <= old(items)@.len(),
    ensures
        final(items)@ == faded_in(old(items)@, start as int, end as int, factor as int),
{
    let ghost before = items@;
    let mut index: usize = start;
    assert(items@ =~= faded_in(before, start as int, start as int, factor as int));
    while index < end
        invariant
            start <= index <= end <= items@.len(),
            items@ == faded_in(before, start as int, index as int, factor as int),
        decreases end - index,
    {
        items[index].fade(factor);
        index += 1;
        assert(items@ =~= faded_in(before, start as int, index as int, factor as int));
    }
}

/// Sorting records by rank is putting them in drawing order.
proof fn lemma_ranking<T: Drawn>()
    ensures
        by_rank::<T>() == ranking::<T>(),
{
    assert(by_rank::<T>() =~= ranking::<T>());
}

/// The visible boxes of paths, as those of their views.
proof fn lemma_path_boxes(paths: Seq<Path<ScaledPixels>>, start: int, end: int)
    requires
        0 <= start <= end <= paths.len(),
    ensures
        boxes_in(paths, start, end) == boxes_in(paths_view(paths), start, end),
{
    assert(boxes_in(paths, start, end) =~= boxes_in(paths_view(paths), start, end));
}

proof fn lemma_path_fades(paths: Seq<Path<ScaledPixels>>, start: int, end: int, factor: int)
    ensures
        paths_view(faded_in(paths, start, end, factor)) == faded_in(
            paths_view(paths),
            start,
            end,
            factor,
        ),
{
    assert(paths_view(faded_in(paths, start, end, factor)) =~= faded_in(
        paths_view(paths),
        start,
        end,
        factor,
    ));
}

proof fn lemma_path_sorts(
    paths: Seq<Path<ScaledPixels>>,
    after: Seq<Path<ScaledPixels>>,
    start: int,
    end: int,
)
    requires
        0 <= start <= end <= paths.len(),
        after == sorted_in(paths, start, end),
    ensures
        paths_view(after) == sorted_in(paths_view(paths), start, end),
{
    let map = |path: Path<ScaledPixels>| path@;
    let key = ranking::<Path<ScaledPixels>>();
    let other = ranking::<PathModel<ScaledPixels>>();
    assert forall|path: Path<ScaledPixels>| #[trigger] other(map(path)) == key(path) by {}
    let run = paths.subrange(start, end);
    lemma_sort_map(run, key, map, other);
    assert(run.map_values(map) =~= paths_view(paths).subrange(start, end));
    lemma_sorted_in(paths, start, end);
    assert(paths_view(after) =~= sorted_in(paths_view(paths), start, end));
}

impl Scene {
    /// Forget everything.
    pub fn clear(&mut self)
        ensures
            final(self)@ == SceneModel::empty(),
            final(self)@.wf(),
    {
        self.paint_operations.clear();
        self.primitive_bounds.clear();
        self.layer_stack.clear();
        self.clip_stack.clear();
        self.groups.clear();
        self.segments.clear();
        self.steps.clear();
        self.group_stack.clear();
        self.open_run = Segment::nothing();
        self.clips.clear();
        self.shadows.clear();
        self.quads.clear();
        self.paths.clear();
        self.underlines.clear();
        self.monochrome_sprites.clear();
        self.subpixel_sprites.clear();
        self.polychrome_sprites.clear();
        self.surfaces.clear();
        proof {
            assert(self@ =~= SceneModel::empty());
            lemma_empty_wf();
        }
    }

    /// How many calls have painted something.
    pub fn len(&self) -> (r: usize)
        ensures
            r == self@.ops.len(),
    {
        self.paint_operations.len()
    }

    /// Start a layer: until the matching [`Scene::pop_layer`] every primitive
    /// takes the layer's own order, and is drawn in the order it was painted.
    pub fn push_layer(&mut self, bounds: Bounds<ScaledPixels>)
        requires
            old(self)@.wf(),
            old(self)@.ops.len() < MAX_OPERATIONS,
        ensures
            final(self)@ == old(self)@.layer_pushed(bounds@),
            final(self)@.wf(),
    {
        let ghost before = self@;
        proof {
            lemma_room(before);
        }
        let order: DrawOrder = self.primitive_bounds.insert(bounds);
        self.layer_stack.push(order);
        self.paint_operations.push(PaintOperation::StartLayer(bounds));
        proof {
            assert(self@ =~= before.layer_pushed(bounds@));
            lemma_layer_pushed_wf(before, bounds@);
        }
    }

    /// End the innermost layer.
    pub fn pop_layer(&mut self)
        requires
            old(self)@.wf(),
            old(self)@.ops.len() < MAX_OPERATIONS,
        ensures
            final(self)@ == old(self)@.layer_popped(),
            final(self)@.wf(),
    {
        let ghost before = self@;
        self.layer_stack.pop();
        self.paint_operations.push(PaintOperation::EndLayer);
        proof {
            assert(self@ =~= before.layer_popped());
            lemma_layer_popped_wf(before);
        }
    }

    /// Clip every primitive inserted until the matching [`Scene::pop_clip`] to
    /// `path`, on top of whatever clip is already pushed.
    ///
    /// `visible` is the content mask that the clip is pushed under.
    pub fn push_clip(
        &mut self,
        path: ClipPath<ScaledPixels>,
        visible: Bounds<ScaledPixels>,
    ) -> (id: ClipId)
        requires
            old(self)@.wf(),
            old(self)@.ops.len() < MAX_OPERATIONS,
        ensures
            final(self)@ == old(self)@.clip_pushed(path@, visible@),
            id == final(self)@.current_clip(),
            final(self)@.wf(),
    {
        let ghost before = self@;
        proof {
            lemma_room(before);
        }
        let parent = self.current_clip();
        self.paint_operations.push(PaintOperation::PushClip(path.clone(), visible));
        self.clips.push(SceneClip { path, parent, visible });
        let id = ClipId(self.clips.len() as u32);
        self.clip_stack.push(id);
        proof {
            assert(self@ =~= before.clip_pushed(path@, visible@));
            lemma_clip_pushed_wf(before, path@, visible@);
        }
        id
    }

    /// Stop clipping to the innermost clip.
    pub fn pop_clip(&mut self)
        requires
            old(self)@.wf(),
            old(self)@.ops.len() < MAX_OPERATIONS,
        ensures
            final(self)@ == old(self)@.clip_popped(),
            final(self)@.wf(),
    {
        let ghost before = self@;
        self.clip_stack.pop();
        self.paint_operations.push(PaintOperation::PopClip);
        proof {
            assert(self@ =~= before.clip_popped());
            lemma_clip_popped_wf(before);
        }
    }

    /// The clip that primitives are being stamped with.
    pub fn current_clip(&self) -> (r: ClipId)
        ensures
            r == self@.current_clip(),
    {
        if self.clip_stack.len() == 0 {
            ClipId::none()
        } else {
            self.clip_stack[self.clip_stack.len() - 1]
        }
    }

    /// The clip that `id` names, or `None` where it names none.
    pub fn clip(&self, id: ClipId) -> (r: Option<&SceneClip>)
        ensures
            r == if 1 <= id.0 <= self.clips@.len() {
                Some(&self.clips@[id.0 - 1])
            } else {
                None
            },
    {
        match id.index() {
            None => None,
            Some(index) => if index < self.clips.len() {
                Some(&self.clips[index])
            } else {
                None
            },
        }
    }

    /// Paint a primitive. One that nothing can be seen of is left out.
    ///
    /// It is stamped with the clip in force, whatever clip it carried, since a
    /// primitive that is replayed carries an id of the frame before.
    pub fn insert_primitive<T: Into<Primitive>>(&mut self, primitive: T)
        requires
            <T as vstd::std_specs::convert::IntoSpec<Primitive>>::obeys_into_spec(),
            old(self)@.wf(),
            old(self)@.ops.len() < MAX_OPERATIONS,
        ensures
            final(self)@ == old(self)@.inserted(
                <T as vstd::std_specs::convert::IntoSpec<Primitive>>::into_spec(primitive)@,
            ),
            final(self)@.wf(),
    {
        self.insert(primitive.into());
    }

    /// Paint a primitive.
    pub fn insert(&mut self, primitive: Primitive)
        requires
            old(self)@.wf(),
            old(self)@.ops.len() < MAX_OPERATIONS,
        ensures
            final(self)@ == old(self)@.inserted(primitive@),
            final(self)@.wf(),
    {
        let ghost before = self@;
        proof {
            lemma_room(before);
        }
        let clipped_bounds = primitive.painted_bounds().intersect(
            &primitive.content_mask().bounds,
        );
        if clipped_bounds.is_empty() {
            return;
        }
        let order: DrawOrder = if self.layer_stack.len() == 0 {
            self.primitive_bounds.insert(clipped_bounds)
        } else {
            self.layer_stack[self.layer_stack.len() - 1]
        };
        let clip = self.current_clip();
        let ghost n = self.paths@.len();
        let stamped = match primitive {
            Primitive::Shadow(item) => {
                let mut item = item;
                item.order = order;
                item.clip = clip;
                self.shadows.push(item);
                Primitive::Shadow(item)
            },
            Primitive::Quad(item) => {
                let mut item = item;
                item.order = order;
                item.clip = clip;
                self.quads.push(item);
                Primitive::Quad(item)
            },
            Primitive::Path(item) => {
                let mut item = item;
                item.order = order;
                item.clip = clip;
                item.id = PathId(self.paths.len());
                let copy = item.clone();
                self.paths.push(item);
                Primitive::Path(copy)
            },
            Primitive::Underline(item) => {
                let mut item = item;
                item.order = order;
                item.clip = clip;
                self.underlines.push(item);
                Primitive::Underline(item)
            },
            Primitive::MonochromeSprite(item) => {
                let mut item = item;
                item.order = order;
                item.clip = clip;
                self.monochrome_sprites.push(item);
                Primitive::MonochromeSprite(item)
            },
            Primitive::SubpixelSprite(item) => {
                let mut item = item;
                item.order = order;
                item.clip = clip;
                self.subpixel_sprites.push(item);
                Primitive::SubpixelSprite(item)
            },
            Primitive::PolychromeSprite(item) => {
                let mut item = item;
                item.order = order;
                item.clip = clip;
                self.polychrome_sprites.push(item);
                Primitive::PolychromeSprite(item)
            },
            Primitive::Surface(item) => {
                let mut item = item;
                item.order = order;
                item.clip = clip;
                self.surfaces.push(item);
                Primitive::Surface(item)
            },
        };
        proof {
            assert(stamped@ == primitive@.stamped(order, clip, n));
        }
        self.paint_operations.push(PaintOperation::Primitive(stamped));
        proof {
            assert(self@.arrays =~= before.arrays.with(stamped@));
            assert(self@ =~= before.inserted(primitive@));
            lemma_inserted_wf(before, primitive@);
        }
    }

    /// Start an isolated group: everything painted until the matching
    /// [`Scene::pop_group`] belongs to it, and is composited onto what is
    /// underneath as one picture.
    ///
    /// The run being painted is closed and a new one begun. A group may sit
    /// inside a layer and a layer inside a group, but neither may straddle the
    /// other.
    pub fn push_group(&mut self, spec: GroupSpec) -> (id: GroupId)
        requires
            old(self)@.wf(),
            old(self)@.ops.len() < MAX_OPERATIONS,
        ensures
            final(self)@ == old(self)@.group_pushed(spec@),
            id.0 == old(self)@.groups.len(),
            final(self)@.wf(),
    {
        let ghost before = self@;
        proof {
            lemma_room(before);
        }
        let reopen = self.open_run.clone();
        let steps_len: usize = self.steps.len();
        let segments_len: usize = self.segments.len();
        self.close_run();

        let id = GroupId(self.groups.len() as u32);
        let recorded = spec.clone();
        self.groups.push(spec);
        self.steps.push(SceneStepRecord::PushGroup(id));
        self.group_stack.push(
            OpenGroup {
                id,
                steps_len,
                segments_len,
                reopen,
                content: self.open_run.clone(),
                layer_depth: self.layer_stack.len(),
                has_surviving_child: false,
                child_bounds: None,
            },
        );
        self.paint_operations.push(PaintOperation::StartGroup(recorded));
        proof {
            assert(self@ =~= before.group_pushed(spec@));
            lemma_group_pushed_wf(before, spec@);
        }
        id
    }

    /// Whether there is a group to close, and as many layers are open as when
    /// it was pushed.
    pub fn can_pop_group(&self) -> (r: bool)
        ensures
            r == self@.can_pop_group(),
    {
        let depth: usize = self.group_stack.len();
        if depth == 0 {
            return false;
        }
        assert(self@.open.last() == self.group_stack@.last()@);
        self.group_stack[depth - 1].layer_depth == self.layer_stack.len()
    }

    /// Close the innermost group.
    ///
    /// A group that needs no target of its own is taken out of the scene, and
    /// its opacity multiplied into what it held. Otherwise it is kept, with a
    /// target that holds everything it paints.
    pub fn pop_group(&mut self)
        requires
            old(self)@.wf(),
            old(self)@.ops.len() < MAX_OPERATIONS,
            old(self)@.can_pop_group(),
        ensures
            final(self)@ == old(self)@.group_popped(),
            final(self)@.wf(),
    {
        let ghost before = self@;
        proof {
            lemma_group_popped_wf(before);
        }
        if let Some(group) = self.group_stack.pop() {
            let ghost popped = self@;
            assert(popped =~= SceneModel { open: before.open.drop_last(), ..before });
            assert(group@ == before.open.last());
            assert(with_open(popped, group@) =~= before);
            if self.fold_group_if_unobservable(&group) {
                self.paint_operations.push(PaintOperation::EndGroup);
                assert(self@ =~= before.group_folded());
            } else {
                self.keep_group(group);
            }
        }
    }

    /// Keep a group that has just been taken off the stack of open groups.
    fn keep_group(&mut self, group: OpenGroup)
        requires
            with_open(old(self)@, group@).wf(),
        ensures
            final(self)@ == with_open(old(self)@, group@).group_closed(),
    {
        let ghost whole = with_open(self@, group@);
        proof {
            assert(whole.open.drop_last() =~= self@.open);
            lemma_open_group_fits(whole);
            lemma_room(whole);
        }
        self.grow_group_to_its_content(&group);
        let ghost grown = self@;
        self.close_run();
        let ghost closed = self@;
        assert(self@.groups == grown.groups);
        assert(self.groups@.len() == self@.groups.len());
        let bounds = self.groups[group.id.0 as usize].bounds;
        assert(self@.groups[group.id.0 as int] == self.groups@[group.id.0 as int]@);
        assert(bounds@ == whole.group_grown().bounds);
        self.steps.push(SceneStepRecord::PopGroup);
        if let Some(parent) = self.group_stack.pop() {
            let child_bounds = match &parent.child_bounds {
                Some(existing) => existing.union(&bounds),
                None => bounds,
            };
            self.group_stack.push(
                OpenGroup {
                    id: parent.id,
                    steps_len: parent.steps_len,
                    segments_len: parent.segments_len,
                    reopen: parent.reopen,
                    content: parent.content,
                    layer_depth: parent.layer_depth,
                    has_surviving_child: true,
                    child_bounds: Some(child_bounds),
                },
            );
        }
        self.paint_operations.push(PaintOperation::EndGroup);
        proof {
            assert(closed == grown.run_closed());
            assert(self@.open =~= with_child(closed.open, bounds@));
            assert(self@ =~= whole.group_closed());
        }
    }

    /// How many groups are open.
    pub fn group_depth(&self) -> (r: usize)
        ensures
            r == self@.open.len(),
    {
        self.group_stack.len()
    }

    /// The order the scene has to be drawn in: its runs of primitives, and the
    /// group boundaries between them.
    pub fn steps(&self) -> (r: Vec<SceneStep<'_>>)
        requires
            self@.wf(),
        ensures
            r@.len() == self@.steps.len(),
            forall|i: int|
                0 <= i < r@.len() ==> #[trigger] r@[i] == match self@.steps[i] {
                    SceneStepRecord::Run(id) => SceneStep::Run(&self.segments@[id.0 as int]),
                    SceneStepRecord::PushGroup(id) => SceneStep::PushGroup(
                        &self.groups@[id.0 as int],
                    ),
                    SceneStepRecord::PopGroup => SceneStep::PopGroup,
                },
    {
        reveal(SceneModel::wf);
        let mut steps: Vec<SceneStep<'_>> = Vec::new();
        let mut index: usize = 0;
        while index < self.steps.len()
            invariant
                self@.wf(),
                index <= self.steps@.len(),
                steps@.len() == index,
                forall|i: int|
                    0 <= i < index ==> #[trigger] steps@[i] == match self@.steps[i] {
                        SceneStepRecord::Run(id) => SceneStep::Run(&self.segments@[id.0 as int]),
                        SceneStepRecord::PushGroup(id) => SceneStep::PushGroup(
                            &self.groups@[id.0 as int],
                        ),
                        SceneStepRecord::PopGroup => SceneStep::PopGroup,
                    },
            decreases self.steps@.len() - index,
        {
            reveal(SceneModel::wf);
            assert(self@.steps[index as int] == self.steps@[index as int]);
            steps.push(
                match self.steps[index] {
                    SceneStepRecord::Run(id) => SceneStep::Run(&self.segments[id.0 as usize]),
                    SceneStepRecord::PushGroup(id) => SceneStep::PushGroup(
                        &self.groups[id.0 as usize],
                    ),
                    SceneStepRecord::PopGroup => SceneStep::PopGroup,
                },
            );
            index += 1;
        }
        steps
    }

    /// Close the run being painted and record it, unless it is empty.
    fn close_run(&mut self)
        requires
            old(self)@.segments.len() < u32::MAX,
            Marks::zero().le(old(self)@.run),
            old(self)@.run.le(old(self)@.arrays.marks()),
            old(self)@.run.total() < u32::MAX,
            old(self)@.arrays.marks().total() < u32::MAX,
        ensures
            final(self)@ == old(self)@.run_closed(),
    {
        let ghost before = self@;
        let run = Segment {
            shadows: self.open_run.shadows.start..self.shadows.len(),
            quads: self.open_run.quads.start..self.quads.len(),
            paths: self.open_run.paths.start..self.paths.len(),
            underlines: self.open_run.underlines.start..self.underlines.len(),
            monochrome_sprites: self.open_run.monochrome_sprites.start..self.monochrome_sprites.len(),
            subpixel_sprites: self.open_run.subpixel_sprites.start..self.subpixel_sprites.len(),
            polychrome_sprites: self.open_run.polychrome_sprites.start..self.polychrome_sprites.len(),
            surfaces: self.open_run.surfaces.start..self.surfaces.len(),
        };
        self.open_run = self.end_indices();
        if !run.is_empty() {
            let id = SegmentId(self.segments.len() as u32);
            self.segments.push(run);
            self.steps.push(SceneStepRecord::Run(id));
        }
        assert(self@ =~= before.run_closed());
    }

    /// Where every array ends, as an empty run.
    fn end_indices(&self) -> (r: Segment)
        ensures
            r.starts() == self@.arrays.marks(),
            r.ends() == self@.arrays.marks(),
    {
        Segment {
            shadows: self.shadows.len()..self.shadows.len(),
            quads: self.quads.len()..self.quads.len(),
            paths: self.paths.len()..self.paths.len(),
            underlines: self.underlines.len()..self.underlines.len(),
            monochrome_sprites: self.monochrome_sprites.len()..self.monochrome_sprites.len(),
            subpixel_sprites: self.subpixel_sprites.len()..self.subpixel_sprites.len(),
            polychrome_sprites: self.polychrome_sprites.len()..self.polychrome_sprites.len(),
            surfaces: self.surfaces.len()..self.surfaces.len(),
        }
    }

    /// The run that a group's own primitives take up.
    fn group_content(&self, group: &OpenGroup) -> (r: Segment)
        ensures
            r.starts() == group@.content,
            r.ends() == self@.arrays.marks(),
    {
        Segment {
            shadows: group.content.shadows.start..self.shadows.len(),
            quads: group.content.quads.start..self.quads.len(),
            paths: group.content.paths.start..self.paths.len(),
            underlines: group.content.underlines.start..self.underlines.len(),
            monochrome_sprites: group.content.monochrome_sprites.start..self.monochrome_sprites.len(),
            subpixel_sprites: group.content.subpixel_sprites.start..self.subpixel_sprites.len(),
            polychrome_sprites: group.content.polychrome_sprites.start..self.polychrome_sprites.len(),
            surfaces: group.content.surfaces.start..self.surfaces.len(),
        }
    }

    /// Every primitive of a run, as the box it can paint into.
    fn content_boxes(&self, content: &Segment) -> (r: Vec<Bounds<ScaledPixels>>)
        requires
            Marks::zero().le(content.starts()),
            content.starts().le(content.ends()),
            content.ends().le(self@.arrays.marks()),
        ensures
            rects(r@) == self@.arrays.boxes(content.starts(), content.ends()),
    {
        let mut boxes: Vec<Bounds<ScaledPixels>> = Vec::new();
        push_boxes(&mut boxes, &self.shadows, content.shadows.start, content.shadows.end);
        push_boxes(&mut boxes, &self.quads, content.quads.start, content.quads.end);
        push_boxes(&mut boxes, &self.paths, content.paths.start, content.paths.end);
        push_boxes(&mut boxes, &self.underlines, content.underlines.start, content.underlines.end);
        push_boxes(&mut boxes, &self.monochrome_sprites, content.monochrome_sprites.start, content.monochrome_sprites.end);
        push_boxes(&mut boxes, &self.subpixel_sprites, content.subpixel_sprites.start, content.subpixel_sprites.end);
        push_boxes(&mut boxes, &self.polychrome_sprites, content.polychrome_sprites.start, content.polychrome_sprites.end);
        push_boxes(&mut boxes, &self.surfaces, content.surfaces.start, content.surfaces.end);
        proof {
            lemma_path_boxes(
                self.paths@,
                content.paths.start as int,
                content.paths.end as int,
            );
            assert(rects(boxes@) =~= self@.arrays.boxes(content.starts(), content.ends()));
        }
        boxes
    }

    /// Take a group that has just been closed out of the scene where
    /// compositing it could not give another picture, and multiply its opacity
    /// into what it held. Returns whether it did.
    ///
    /// Besides an overlap, a blend, a filter, a surface, a subpixel glyph or a
    /// group inside it that was kept stand in the way.
    fn fold_group_if_unobservable(&mut self, group: &OpenGroup) -> (folded: bool)
        requires
            with_open(old(self)@, group@).wf(),
        ensures
            folded == with_open(old(self)@, group@).group_folds(),
            !folded ==> *final(self) == *old(self),
            folded ==> final(self)@ == (SceneModel {
                ops: old(self)@.ops,
                ..with_open(old(self)@, group@).group_folded()
            }),
    {
        let ghost before = self@;
        let ghost whole = with_open(before, group@);
        proof {
            lemma_open_group_fits(whole);
            assert(whole.open.last() == group@);
            assert(whole.open.drop_last() =~= before.open);
        }
        let spec = &self.groups[group.id.0 as usize];
        if group.has_surviving_child || !spec.is_foldable() {
            return false;
        }
        let opacity: i64 = spec.opacity;
        let content = self.group_content(group);
        if content.subpixel_sprites.start < content.subpixel_sprites.end || content.surfaces.start
            < content.surfaces.end {
            return false;
        }
        if !content_is_overlap_free(self.content_boxes(&content)) {
            return false;
        }
        self.groups.pop();
        self.steps.truncate(group.steps_len);
        self.segments.truncate(group.segments_len);
        self.open_run = group.reopen.clone();
        if opacity < ONE {
            self.fold_opacity(&content, opacity);
        }
        proof {
            assert(self@.groups =~= before.groups.drop_last());
            assert(self@.segments =~= before.segments.take(group.segments_len as int));
            assert(self@ =~= SceneModel { ops: before.ops, ..whole.group_folded() });
        }
        true
    }

    /// Give a group that is kept a target that holds everything painted inside
    /// it, and everything its filter carries out of that.
    fn grow_group_to_its_content(&mut self, group: &OpenGroup)
        requires
            with_open(old(self)@, group@).wf(),
        ensures
            final(self)@ == (SceneModel {
                groups: old(self)@.groups.update(
                    group.id.0 as int,
                    with_open(old(self)@, group@).group_grown(),
                ),
                ..old(self)@
            }),
    {
        let ghost before = self@;
        let ghost whole = with_open(before, group@);
        proof {
            lemma_open_group_fits(whole);
            assert(whole.open.last() == group@);
        }
        let content = self.group_content(group);
        let mut painted: Option<Bounds<ScaledPixels>> = match &group.child_bounds {
            None => None,
            Some(bounds) => if bounds.is_empty() {
                None
            } else {
                Some(*bounds)
            },
        };
        let ghost children = optional_rect(painted);
        let boxes = self.content_boxes(&content);
        let mut index: usize = 0;
        assert(rects(boxes@).take(0) =~= Seq::<Rect>::empty());
        while index < boxes.len()
            invariant
                index <= boxes@.len(),
                optional_rect(painted) == union_of(children, rects(boxes@).take(index as int)),
            decreases boxes@.len() - index,
        {
            let bounds = boxes[index];
            proof {
                let all = rects(boxes@);
                assert(all.take(index + 1).drop_last() =~= all.take(index as int));
                assert(all.take(index + 1).last() == bounds@);
            }
            if !bounds.is_empty() {
                painted =
                Some(
                    match painted {
                        Some(painted) => painted.union(&bounds),
                        None => bounds,
                    },
                );
            }
            index += 1;
        }
        assert(rects(boxes@).take(index as int) =~= rects(boxes@));
        match painted {
            None => {
                assert(self@.groups =~= before.groups.update(
                    group.id.0 as int,
                    whole.group_grown(),
                ));
            },
            Some(painted) => {
                self.groups[group.id.0 as usize].grow(painted);
                assert(self@.groups =~= before.groups.update(
                    group.id.0 as int,
                    whole.group_grown(),
                ));
            },
        }
    }

    /// Multiply `opacity` into the alpha of every primitive of a run.
    fn fold_opacity(&mut self, content: &Segment, opacity: i64)
        requires
            Marks::zero().le(content.starts()),
            content.starts().le(content.ends()),
            content.ends().le(old(self)@.arrays.marks()),
        ensures
            final(self)@ == (SceneModel {
                arrays: old(self)@.arrays.faded(
                    content.starts(),
                    content.ends(),
                    opacity as int,
                ),
                ..old(self)@
            }),
    {
        let ghost before = self@;
        let ghost paths = self.paths@;
        fade_range(&mut self.shadows, content.shadows.start, content.shadows.end, opacity);
        fade_range(&mut self.quads, content.quads.start, content.quads.end, opacity);
        fade_range(&mut self.paths, content.paths.start, content.paths.end, opacity);
        fade_range(&mut self.underlines, content.underlines.start, content.underlines.end, opacity);
        fade_range(&mut self.monochrome_sprites, content.monochrome_sprites.start, content.monochrome_sprites.end, opacity);
        fade_range(&mut self.polychrome_sprites, content.polychrome_sprites.start, content.polychrome_sprites.end, opacity);
        proof {
            lemma_path_fades(
                paths,
                content.paths.start as int,
                content.paths.end as int,
                opacity as int,
            );
            let after = before.arrays.faded(content.starts(), content.ends(), opacity as int);
            assert(after.subpixel_sprites =~= before.arrays.subpixel_sprites);
            assert(after.surfaces =~= before.arrays.surfaces);
            assert(self@.arrays =~= after);
        }
    }

    /// Close the run still open and put every run in drawing order.
    ///
    /// Each run is sorted by itself, so that two primitives of different runs
    /// are drawn in the order they were painted.
    pub fn finish(&mut self)
        requires
            old(self)@.wf(),
            old(self)@.open.len() == 0,
        ensures
            final(self)@ == old(self)@.finished(),
            final(self)@.wf(),
    {
        let ghost before = self@;
        proof {
            lemma_run_closed_wf(before);
            lemma_finished_wf(before);
            lemma_room(before);
        }
        self.close_run();
        let ghost closed = self@;
        let mut index: usize = 0;
        while index < self.segments.len()
            invariant
                closed.wf(),
                closed == before.run_closed(),
                index <= self.segments@.len(),
                closed.segments == segments_view(self.segments@),
                self@ == (SceneModel {
                    arrays: closed.arrays.runs_sorted(closed.segments, index as nat),
                    ..closed
                }),
                self@.arrays.marks() == closed.arrays.marks(),
            decreases self.segments@.len() - index,
        {
            let run = self.segments[index].clone();
            proof {
                assert(closed.segments[index as int] == segment_view(run));
                lemma_run_within(closed, index as int);
            }
            self.sort_run(&run);
            index += 1;
            assert(self@ =~= SceneModel {
                arrays: closed.arrays.runs_sorted(closed.segments, index as nat),
                ..closed
            });
        }
        assert(self@ =~= before.finished());
    }

    /// Put one run in drawing order.
    fn sort_run(&mut self, run: &Segment)
        requires
            Marks::zero().le(run.starts()),
            run.starts().le(run.ends()),
            run.ends().le(old(self)@.arrays.marks()),
        ensures
            final(self)@ == (SceneModel {
                arrays: old(self)@.arrays.sorted(run.starts(), run.ends()),
                ..old(self)@
            }),
            final(self)@.arrays.marks() == old(self)@.arrays.marks(),
            final(self).segments == old(self).segments,
    {
        let ghost prior = self@.arrays;
        let ghost paths = self.paths@;
        proof {

            lemma_ranking::<Shadow>();
            lemma_ranking::<Quad>();
            lemma_ranking::<Path<ScaledPixels>>();
            lemma_ranking::<Underline>();
            lemma_ranking::<MonochromeSprite>();
            lemma_ranking::<SubpixelSprite>();
            lemma_ranking::<PolychromeSprite>();
            lemma_ranking::<PaintSurface>();
        }
        sort_range(&mut self.shadows, run.shadows.start, run.shadows.end);
        sort_range(&mut self.quads, run.quads.start, run.quads.end);
        sort_range(&mut self.paths, run.paths.start, run.paths.end);
        sort_range(&mut self.underlines, run.underlines.start, run.underlines.end);
        sort_range(&mut self.monochrome_sprites, run.monochrome_sprites.start, run.monochrome_sprites.end);
        sort_range(&mut self.subpixel_sprites, run.subpixel_sprites.start, run.subpixel_sprites.end);
        sort_range(&mut self.polychrome_sprites, run.polychrome_sprites.start, run.polychrome_sprites.end);
        sort_range(&mut self.surfaces, run.surfaces.start, run.surfaces.end);
        proof {
            lemma_path_sorts(paths, self.paths@, run.paths.start as int, run.paths.end as int);
            assert(self@.arrays =~= prior.sorted(run.starts(), run.ends()));
        }
    }
}

/// The scene before `group` was taken off the stack of open groups.
pub open spec fn with_open(scene: SceneModel, group: OpenModel) -> SceneModel {
    SceneModel { open: scene.open.push(group), ..scene }
}

spec fn optional_rect(bounds: Option<Bounds<ScaledPixels>>) -> Option<Rect> {
    match bounds {
        None => None,
        Some(bounds) => Some(bounds@),
    }
}

/// What taking the innermost group out of a scene needs of it.
proof fn lemma_open_group_fits(s: SceneModel)
    requires
        s.wf(),
        s.open.len() > 0,
    ensures
        s.open.last().id < s.groups.len(),
        !s.open.last().has_surviving_child ==> s.open.last().id + 1 == s.groups.len(),
        s.open.last().steps_len <= s.steps.len(),
        s.open.last().segments_len <= s.segments.len(),
        Marks::zero().le(s.open.last().content),
        s.open.last().content.le(s.arrays.marks()),
{
    reveal(SceneModel::wf);
    assert(s.open_group_holds(s.open.len() - 1));
}

/// Everything a scene counts fits the numbers it is counted with.
pub proof fn lemma_room(s: SceneModel)
    requires
        s.wf(),
    ensures
        orders_are_bounded(s.tree),
        s.ops.len() <= MAX_OPERATIONS,
        s.tree.len() <= s.ops.len(),
        s.clips.len() <= s.ops.len(),
        s.groups.len() <= s.ops.len(),
        s.segments.len() <= s.ops.len(),
        Marks::zero().le(s.run),
        s.run.le(s.arrays.marks()),
        s.run.total() <= s.ops.len(),
        s.arrays.marks().total() <= s.ops.len(),
{
    reveal(SceneModel::wf);
}

/// A recorded run lies within the arrays.
proof fn lemma_run_within(s: SceneModel, index: int)
    requires
        s.wf(),
        0 <= index < s.segments.len(),
    ensures
        Marks::zero().le(s.segments[index].start),
        s.segments[index].start.le(s.segments[index].end),
        s.segments[index].end.le(s.arrays.marks()),
{
    reveal(SceneModel::wf);
    lemma_stretches_follow(s.segments, PrimitiveKind::Shadow, s.arrays.marks());
    assert(stretches(s.segments, PrimitiveKind::Shadow)[index] == (
        s.segments[index].start.shadows,
        s.segments[index].end.shadows,
    ));
    lemma_stretches_follow(s.segments, PrimitiveKind::Quad, s.arrays.marks());
    assert(stretches(s.segments, PrimitiveKind::Quad)[index] == (
        s.segments[index].start.quads,
        s.segments[index].end.quads,
    ));
    lemma_stretches_follow(s.segments, PrimitiveKind::Path, s.arrays.marks());
    assert(stretches(s.segments, PrimitiveKind::Path)[index] == (
        s.segments[index].start.paths,
        s.segments[index].end.paths,
    ));
    lemma_stretches_follow(s.segments, PrimitiveKind::Underline, s.arrays.marks());
    assert(stretches(s.segments, PrimitiveKind::Underline)[index] == (
        s.segments[index].start.underlines,
        s.segments[index].end.underlines,
    ));
    lemma_stretches_follow(s.segments, PrimitiveKind::MonochromeSprite, s.arrays.marks());
    assert(stretches(s.segments, PrimitiveKind::MonochromeSprite)[index] == (
        s.segments[index].start.monochrome_sprites,
        s.segments[index].end.monochrome_sprites,
    ));
    lemma_stretches_follow(s.segments, PrimitiveKind::SubpixelSprite, s.arrays.marks());
    assert(stretches(s.segments, PrimitiveKind::SubpixelSprite)[index] == (
        s.segments[index].start.subpixel_sprites,
        s.segments[index].end.subpixel_sprites,
    ));
    lemma_stretches_follow(s.segments, PrimitiveKind::PolychromeSprite, s.arrays.marks());
    assert(stretches(s.segments, PrimitiveKind::PolychromeSprite)[index] == (
        s.segments[index].start.polychrome_sprites,
        s.segments[index].end.polychrome_sprites,
    ));
    lemma_stretches_follow(s.segments, PrimitiveKind::Surface, s.arrays.marks());
    assert(stretches(s.segments, PrimitiveKind::Surface)[index] == (
        s.segments[index].start.surfaces,
        s.segments[index].end.surfaces,
    ));
}

} // verus!
