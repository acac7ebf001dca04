//! What a group that is kept holds.

use crate::geometry::Rect;
use crate::scene::filter_laws::{least, most};
use crate::scene::group::GroupModel;
use crate::scene::ids::GroupId;
use crate::scene::insert_laws::{inked, is_modestly_sized, let_through, overlap, sides_of};
use crate::scene::laws::{holds_box, is_framed, is_tame, lemma_union_holds_all};
use crate::scene::model::{boxes_in, union_of, Arrays, SceneModel, SceneStepRecord};
use crate::scene::primitive::{visible_box, DrawnSpec, PrimitiveModel};
use crate::scene::segment::{Marks, PrimitiveKind};
use vstd::prelude::*;

verus! {

/// What can be seen of a primitive reaches from the further in to the further in
/// of its ink's sides and its mask's.
pub proof fn what_is_seen_is_inked_and_let_through(primitive: PrimitiveModel)
    requires
        is_modestly_sized(primitive),
        overlap(inked(primitive), let_through(primitive)),
    ensures
        ({
            let seen = sides_of(primitive.visible(), 0);
            let ink = inked(primitive);
            let mask = let_through(primitive);
            &&& seen.left == most(ink.left, mask.left)
            &&& seen.top == most(ink.top, mask.top)
            &&& seen.right == least(ink.right, mask.right)
            &&& seen.bottom == least(ink.bottom, mask.bottom)
        }),
{
}

/// What can be seen of the `i`th record of a kind.
pub open spec fn seen_of(arrays: Arrays, kind: PrimitiveKind, i: int) -> Rect {
    match kind {
        PrimitiveKind::Shadow => PrimitiveModel::Shadow(arrays.shadows[i]).visible(),
        PrimitiveKind::Quad => PrimitiveModel::Quad(arrays.quads[i]).visible(),
        PrimitiveKind::Path => PrimitiveModel::Path(arrays.paths[i]).visible(),
        PrimitiveKind::Underline => PrimitiveModel::Underline(arrays.underlines[i]).visible(),
        PrimitiveKind::MonochromeSprite => PrimitiveModel::MonochromeSprite(
            arrays.monochrome_sprites[i],
        ).visible(),
        PrimitiveKind::SubpixelSprite => PrimitiveModel::SubpixelSprite(
            arrays.subpixel_sprites[i],
        ).visible(),
        PrimitiveKind::PolychromeSprite => PrimitiveModel::PolychromeSprite(
            arrays.polychrome_sprites[i],
        ).visible(),
        PrimitiveKind::Surface => PrimitiveModel::Surface(arrays.surfaces[i]).visible(),
    }
}

/// How many records of a kind there are.
pub open spec fn count_of(arrays: Arrays, kind: PrimitiveKind) -> nat {
    match kind {
        PrimitiveKind::Shadow => arrays.shadows.len(),
        PrimitiveKind::Quad => arrays.quads.len(),
        PrimitiveKind::Path => arrays.paths.len(),
        PrimitiveKind::Underline => arrays.underlines.len(),
        PrimitiveKind::MonochromeSprite => arrays.monochrome_sprites.len(),
        PrimitiveKind::SubpixelSprite => arrays.subpixel_sprites.len(),
        PrimitiveKind::PolychromeSprite => arrays.polychrome_sprites.len(),
        PrimitiveKind::Surface => arrays.surfaces.len(),
    }
}

/// How many records of a kind there were at a mark.
pub open spec fn mark_of(marks: Marks, kind: PrimitiveKind) -> int {
    match kind {
        PrimitiveKind::Shadow => marks.shadows,
        PrimitiveKind::Quad => marks.quads,
        PrimitiveKind::Path => marks.paths,
        PrimitiveKind::Underline => marks.underlines,
        PrimitiveKind::MonochromeSprite => marks.monochrome_sprites,
        PrimitiveKind::SubpixelSprite => marks.subpixel_sprites,
        PrimitiveKind::PolychromeSprite => marks.polychrome_sprites,
        PrimitiveKind::Surface => marks.surfaces,
    }
}

proof fn lemma_boxes_of_kind<T: DrawnSpec>(items: Seq<T>, start: int, i: int)
    requires
        0 <= start <= i < items.len(),
    ensures
        boxes_in(items, start, items.len() as int).len() == items.len() - start,
        boxes_in(items, start, items.len() as int)[i - start] == visible_box(items[i]),
{
}

/// What can be seen of a record painted since a mark is among the boxes of the
/// run from there.
proof fn lemma_box_is_there(arrays: Arrays, start: Marks, kind: PrimitiveKind, i: int) -> (k: int)
    requires
        Marks::zero().le(start),
        start.le(arrays.marks()),
        mark_of(start, kind) <= i < count_of(arrays, kind),
    ensures
        0 <= k < arrays.boxes(start, arrays.marks()).len(),
        arrays.boxes(start, arrays.marks())[k] == seen_of(arrays, kind, i),
{
    let ends = arrays.marks();
    let b0 = boxes_in(arrays.shadows, start.shadows, ends.shadows);
    let b1 = boxes_in(arrays.quads, start.quads, ends.quads);
    let b2 = boxes_in(arrays.paths, start.paths, ends.paths);
    let b3 = boxes_in(arrays.underlines, start.underlines, ends.underlines);
    let b4 = boxes_in(
        arrays.monochrome_sprites,
        start.monochrome_sprites,
        ends.monochrome_sprites,
    );
    let b5 = boxes_in(arrays.subpixel_sprites, start.subpixel_sprites, ends.subpixel_sprites);
    let b6 = boxes_in(
        arrays.polychrome_sprites,
        start.polychrome_sprites,
        ends.polychrome_sprites,
    );
    let b7 = boxes_in(arrays.surfaces, start.surfaces, ends.surfaces);
    let all = arrays.boxes(start, ends);
    assert(all == b0 + b1 + b2 + b3 + b4 + b5 + b6 + b7);
    let l1 = b0.len();
    let l2 = l1 + b1.len();
    let l3 = l2 + b2.len();
    let l4 = l3 + b3.len();
    let l5 = l4 + b4.len();
    let l6 = l5 + b5.len();
    let l7 = l6 + b6.len();
    match kind {
        PrimitiveKind::Shadow => {
            lemma_boxes_of_kind(arrays.shadows, start.shadows, i);
            i - start.shadows
        },
        PrimitiveKind::Quad => {
            lemma_boxes_of_kind(arrays.quads, start.quads, i);
            l1 + i - start.quads
        },
        PrimitiveKind::Path => {
            lemma_boxes_of_kind(arrays.paths, start.paths, i);
            l2 + i - start.paths
        },
        PrimitiveKind::Underline => {
            lemma_boxes_of_kind(arrays.underlines, start.underlines, i);
            l3 + i - start.underlines
        },
        PrimitiveKind::MonochromeSprite => {
            lemma_boxes_of_kind(arrays.monochrome_sprites, start.monochrome_sprites, i);
            l4 + i - start.monochrome_sprites
        },
        PrimitiveKind::SubpixelSprite => {
            lemma_boxes_of_kind(arrays.subpixel_sprites, start.subpixel_sprites, i);
            l5 + i - start.subpixel_sprites
        },
        PrimitiveKind::PolychromeSprite => {
            lemma_boxes_of_kind(arrays.polychrome_sprites, start.polychrome_sprites, i);
            l6 + i - start.polychrome_sprites
        },
        PrimitiveKind::Surface => {
            lemma_boxes_of_kind(arrays.surfaces, start.surfaces, i);
            l7 + i - start.surfaces
        },
    }
}

proof fn lemma_union_holds_painted(painted: Rect, boxes: Seq<Rect>)
    requires
        is_framed(painted),
        forall|k: int| 0 <= k < boxes.len() ==> is_tame(#[trigger] boxes[k]),
    ensures
        union_of(Some(painted), boxes) is Some,
        is_framed(union_of(Some(painted), boxes)->0),
        holds_box(union_of(Some(painted), boxes)->0, painted),
    decreases boxes.len(),
{
    if boxes.len() > 0 {
        let rest = boxes.drop_last();
        assert forall|k: int| 0 <= k < rest.len() implies is_tame(#[trigger] rest[k]) by {
            assert(rest[k] == boxes[k]);
        }
        lemma_union_holds_painted(painted, rest);
        assert(is_tame(boxes[boxes.len() - 1]));
    }
}

/// Whether a group and everything painted into it have boxes whose edges are
/// exact.
pub open spec fn group_is_tame(s: SceneModel) -> bool {
    let group = s.open.last();
    &&& is_tame(s.groups[group.id as int].bounds)
    &&& group.child_bounds matches Some(bounds) ==> is_tame(bounds)
    &&& forall|k: int|
        0 <= k < s.arrays.boxes(group.content, s.arrays.marks()).len() ==> is_tame(
            #[trigger] s.arrays.boxes(group.content, s.arrays.marks())[k],
        )
}

/// A group that is kept is given a box that holds what can be seen of every
/// record that was painted into it, of whatever kind, the boxes of the groups in
/// it that were kept, and the box that its caller named.
pub proof fn kept_groups_hold_what_was_painted(s: SceneModel, kind: PrimitiveKind, i: int)
    requires
        s.open.len() > 0,
        s.open.last().id < s.groups.len(),
        s.groups[s.open.last().id as int].filter is None,
        Marks::zero().le(s.open.last().content),
        s.open.last().content.le(s.arrays.marks()),
        group_is_tame(s),
        mark_of(s.open.last().content, kind) <= i < count_of(s.arrays, kind),
        !seen_of(s.arrays, kind, i).is_empty(),
    ensures
        ({
            let id = s.open.last().id as int;
            let kept = s.group_closed().groups[id].bounds;
            &&& holds_box(kept, seen_of(s.arrays, kind, i))
            &&& s.open.last().child_bounds matches Some(children) ==> !children.is_empty()
                ==> holds_box(kept, children)
            &&& !s.groups[id].bounds.is_empty() ==> holds_box(kept, s.groups[id].bounds)
        }),
{
    let group = s.open.last();
    let boxes = s.arrays.boxes(group.content, s.arrays.marks());
    let k = lemma_box_is_there(s.arrays, group.content, kind, i);
    let children = match group.child_bounds {
        None => None,
        Some(bounds) => if bounds.is_empty() {
            None
        } else {
            Some(bounds)
        },
    };
    lemma_union_holds_all(children, boxes, k);
    if let Some(bounds) = children {
        lemma_union_holds_painted(bounds, boxes);
    }
}

/// A group that is kept is remembered by the group around it, whose box will
/// hold the kept one's and that of every group kept before it. It is the same
/// group as was pushed but for its box, it ends with a step of its own, and no
/// record changes.
pub proof fn kept_groups_are_remembered(s: SceneModel)
    requires
        s.open.len() > 0,
        s.open.last().id < s.groups.len(),
    ensures
        ({
            let id = s.open.last().id as int;
            let after = s.group_closed();
            let kept = after.groups[id];
            let was = s.groups[id];
            &&& after.open.len() == s.open.len() - 1
            &&& after.groups.len() == s.groups.len()
            &&& kept.opacity == was.opacity && kept.clip == was.clip && kept.blend == was.blend
            &&& kept.filter == was.filter && kept.backdrop_filter == was.backdrop_filter
            &&& after.arrays == s.arrays
            &&& after.clip_stack == s.clip_stack && after.layers == s.layers
            &&& after.steps.len() > s.steps.len()
            &&& after.steps.last() == SceneStepRecord::PopGroup
            &&& forall|j: int| 0 <= j < s.groups.len() && j != id ==> #[trigger] after.groups[j]
                == s.groups[j]
            &&& s.open.len() > 1 ==> {
                let around = after.open.last();
                let before = s.open[s.open.len() - 2];
                &&& around.has_surviving_child
                &&& around.id == before.id
                &&& around.content == before.content
                &&& around.child_bounds is Some
                &&& is_framed(kept.bounds) && (before.child_bounds matches Some(bounds) ==> is_framed(
                    bounds,
                )) ==> holds_box(around.child_bounds->0, kept.bounds) && (
                before.child_bounds matches Some(bounds) ==> holds_box(
                    around.child_bounds->0,
                    bounds,
                ))
            }
        }),
{
}

/// A group can be popped exactly where as many layers are open as when it was
/// pushed, and there is a group.
pub proof fn groups_do_not_straddle_layers(s: SceneModel, group: GroupModel, bounds: Rect)
    ensures
        s.group_pushed(group).can_pop_group(),
        !s.group_pushed(group).layer_pushed(bounds).can_pop_group(),
        s.group_pushed(group).layer_pushed(bounds).layer_popped().can_pop_group(),
        s.layers.len() > 0 ==> !s.group_pushed(group).layer_popped().can_pop_group(),
        s.open.len() == 0 ==> !s.can_pop_group(),
        s.group_pushed(group).groups.last() == group,
        s.group_pushed(group).steps.last() == SceneStepRecord::PushGroup(
            GroupId(s.groups.len() as u32),
        ),
{
}

/// The records of a scene are put into batches by their own fields: their order,
/// whether a clip applies to them, and the texture their tile is in.
pub proof fn records_are_drawn_by_their_own_fields(arrays: Arrays, kind: PrimitiveKind, i: int)
    requires
        0 <= i < count_of(arrays, kind),
    ensures
        ({
            let draw = arrays.draws(kind)[i];
            &&& arrays.draws(kind).len() == count_of(arrays, kind)
            &&& match kind {
                PrimitiveKind::Shadow => draw.order == arrays.shadows[i].order && draw.clipped == (
                arrays.shadows[i].clip.0 != 0) && draw.texture is None,
                PrimitiveKind::Quad => draw.order == arrays.quads[i].order && draw.clipped == (
                arrays.quads[i].clip.0 != 0) && draw.texture is None,
                PrimitiveKind::Path => draw.order == arrays.paths[i].order && draw.clipped == (
                arrays.paths[i].clip.0 != 0) && draw.texture is None,
                PrimitiveKind::Underline => draw.order == arrays.underlines[i].order
                    && draw.clipped == (arrays.underlines[i].clip.0 != 0) && draw.texture is None,
                PrimitiveKind::MonochromeSprite => draw.order == arrays.monochrome_sprites[i].order
                    && draw.clipped == (arrays.monochrome_sprites[i].clip.0 != 0) && draw.texture
                    == Some(arrays.monochrome_sprites[i].tile.texture_id),
                PrimitiveKind::SubpixelSprite => draw.order == arrays.subpixel_sprites[i].order
                    && draw.clipped == (arrays.subpixel_sprites[i].clip.0 != 0) && draw.texture
                    == Some(arrays.subpixel_sprites[i].tile.texture_id),
                PrimitiveKind::PolychromeSprite => draw.order == arrays.polychrome_sprites[i].order
                    && draw.clipped == (arrays.polychrome_sprites[i].clip.0 != 0) && draw.texture
                    == Some(arrays.polychrome_sprites[i].tile.texture_id),
                PrimitiveKind::Surface => draw.order == arrays.surfaces[i].order && draw.clipped
                    == (arrays.surfaces[i].clip.0 != 0) && draw.texture is None,
            }
        }),
{
}

} // verus!
