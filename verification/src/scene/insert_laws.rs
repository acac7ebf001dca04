//! What painting a primitive does to a scene.

use crate::clip_path::ClipPathModel;
use crate::fixed::max;
use crate::geometry::{Rect, ScaledPixels};
use crate::scene::bounds_tree::{highest_below, later_boxes_are_ordered_above, order_above};
use crate::scene::ids::{ClipId, DrawOrder};
use crate::scene::model::{Arrays, SceneModel, MAX_OPERATIONS};
use crate::scene::path::PathModel;
use crate::scene::primitive::{
    MonochromeSprite, PaintSurface, PolychromeSprite, PrimitiveModel, Quad, Shadow,
    SubpixelSprite, Underline,
};
use crate::scene::soundness::lemma_order_above;
use vstd::prelude::*;

verus! {

/// Where a box begins and ends along both axes.
pub struct Sides {
    pub left: int,
    pub top: int,
    pub right: int,
    pub bottom: int,
}

/// The sides of a box, moved outwards by `reach`.
pub open spec fn sides_of(bounds: Rect, reach: int) -> Sides {
    Sides {
        left: bounds.x - reach,
        top: bounds.y - reach,
        right: bounds.x + bounds.width + reach,
        bottom: bounds.y + bounds.height + reach,
    }
}

/// Where a primitive puts ink: in its box; for a shadow as far as three blur
/// radii outside it, or in the box of its element where it is cast inwards.
pub open spec fn inked(primitive: PrimitiveModel) -> Sides {
    match primitive {
        PrimitiveModel::Shadow(item) => if item.inset == 0 {
            sides_of(item.bounds@, 3 * item.blur_radius.0)
        } else {
            sides_of(item.element_bounds@, 0)
        },
        PrimitiveModel::Quad(item) => sides_of(item.bounds@, 0),
        PrimitiveModel::Path(item) => sides_of(item.bounds, 0),
        PrimitiveModel::Underline(item) => sides_of(item.bounds@, 0),
        PrimitiveModel::MonochromeSprite(item) => sides_of(item.bounds@, 0),
        PrimitiveModel::SubpixelSprite(item) => sides_of(item.bounds@, 0),
        PrimitiveModel::PolychromeSprite(item) => sides_of(item.bounds@, 0),
        PrimitiveModel::Surface(item) => sides_of(item.bounds@, 0),
    }
}

/// Where a primitive's content mask lets ink through.
pub open spec fn let_through(primitive: PrimitiveModel) -> Sides {
    sides_of(
        match primitive {
            PrimitiveModel::Shadow(item) => item.content_mask.bounds@,
            PrimitiveModel::Quad(item) => item.content_mask.bounds@,
            PrimitiveModel::Path(item) => item.content_mask.bounds@,
            PrimitiveModel::Underline(item) => item.content_mask.bounds@,
            PrimitiveModel::MonochromeSprite(item) => item.content_mask.bounds@,
            PrimitiveModel::SubpixelSprite(item) => item.content_mask.bounds@,
            PrimitiveModel::PolychromeSprite(item) => item.content_mask.bounds@,
            PrimitiveModel::Surface(item) => item.content_mask.bounds@,
        },
        0,
    )
}

/// Whether a box's numbers are far from the ends of what can be held.
pub open spec fn is_modest(bounds: Rect) -> bool {
    &&& -0x800_0000_0000_0000 <= bounds.x <= 0x800_0000_0000_0000
    &&& -0x800_0000_0000_0000 <= bounds.y <= 0x800_0000_0000_0000
    &&& -0x800_0000_0000_0000 <= bounds.width <= 0x800_0000_0000_0000
    &&& -0x800_0000_0000_0000 <= bounds.height <= 0x800_0000_0000_0000
}

/// Whether a primitive's numbers are far from the ends of what can be held.
pub open spec fn is_modestly_sized(primitive: PrimitiveModel) -> bool {
    match primitive {
        PrimitiveModel::Shadow(item) => {
            &&& is_modest(item.bounds@)
            &&& is_modest(item.element_bounds@)
            &&& is_modest(item.content_mask.bounds@)
            &&& -0x100_0000_0000_0000 <= item.blur_radius.0 <= 0x100_0000_0000_0000
        },
        PrimitiveModel::Quad(item) => is_modest(item.bounds@) && is_modest(
            item.content_mask.bounds@,
        ),
        PrimitiveModel::Path(item) => is_modest(item.bounds) && is_modest(
            item.content_mask.bounds@,
        ),
        PrimitiveModel::Underline(item) => is_modest(item.bounds@) && is_modest(
            item.content_mask.bounds@,
        ),
        PrimitiveModel::MonochromeSprite(item) => is_modest(item.bounds@) && is_modest(
            item.content_mask.bounds@,
        ),
        PrimitiveModel::SubpixelSprite(item) => is_modest(item.bounds@) && is_modest(
            item.content_mask.bounds@,
        ),
        PrimitiveModel::PolychromeSprite(item) => is_modest(item.bounds@) && is_modest(
            item.content_mask.bounds@,
        ),
        PrimitiveModel::Surface(item) => is_modest(item.bounds@) && is_modest(
            item.content_mask.bounds@,
        ),
    }
}

/// Whether two boxes have a point inside both.
pub open spec fn overlap(a: Sides, b: Sides) -> bool {
    &&& a.left < a.right && a.top < a.bottom
    &&& b.left < b.right && b.top < b.bottom
    &&& a.left < b.right && b.left < a.right
    &&& a.top < b.bottom && b.top < a.bottom
}

/// Whether the arrays hold one more record than before, last of its kind: the
/// one that was painted, with nothing changed but its order, its clip and, for a
/// path, its number among the paths.
pub open spec fn holds_one_more(
    before: Arrays,
    after: Arrays,
    painted: PrimitiveModel,
    order: DrawOrder,
    clip: ClipId,
) -> bool {
    match painted {
        PrimitiveModel::Shadow(item) => after == (Arrays {
            shadows: before.shadows.push(Shadow { order, clip, ..item }),
            ..before
        }),
        PrimitiveModel::Quad(item) => after == (Arrays {
            quads: before.quads.push(Quad { order, clip, ..item }),
            ..before
        }),
        PrimitiveModel::Path(item) => after == (Arrays {
            paths: before.paths.push(
                PathModel { order, clip, id: before.paths.len(), ..item },
            ),
            ..before
        }),
        PrimitiveModel::Underline(item) => after == (Arrays {
            underlines: before.underlines.push(Underline { order, clip, ..item }),
            ..before
        }),
        PrimitiveModel::MonochromeSprite(item) => after == (Arrays {
            monochrome_sprites: before.monochrome_sprites.push(
                MonochromeSprite { order, clip, ..item },
            ),
            ..before
        }),
        PrimitiveModel::SubpixelSprite(item) => after == (Arrays {
            subpixel_sprites: before.subpixel_sprites.push(
                SubpixelSprite { order, clip, ..item },
            ),
            ..before
        }),
        PrimitiveModel::PolychromeSprite(item) => after == (Arrays {
            polychrome_sprites: before.polychrome_sprites.push(
                PolychromeSprite { order, clip, ..item },
            ),
            ..before
        }),
        PrimitiveModel::Surface(item) => after == (Arrays {
            surfaces: before.surfaces.push(PaintSurface { order, clip, ..item }),
            ..before
        }),
    }
}

/// The clip that was pushed last and not popped.
pub open spec fn innermost_clip(s: SceneModel) -> ClipId {
    if s.clip_stack.len() == 0 {
        ClipId(0)
    } else {
        s.clip_stack.last()
    }
}

/// A primitive that has ink where its content mask lets it through is kept as it
/// was painted, under the innermost clip; one that has none leaves the scene as
/// it was.
pub proof fn what_can_be_seen_is_kept(s: SceneModel, primitive: PrimitiveModel)
    requires
        is_modestly_sized(primitive),
    ensures
        overlap(inked(primitive), let_through(primitive)) ==> exists|order: DrawOrder|
            #[trigger] holds_one_more(
                s.arrays,
                s.inserted(primitive).arrays,
                primitive,
                order,
                innermost_clip(s),
            ),
        !overlap(inked(primitive), let_through(primitive)) ==> s.inserted(primitive) == s,
        s.inserted(primitive).clips == s.clips,
        s.inserted(primitive).clip_stack == s.clip_stack,
        s.inserted(primitive).groups == s.groups,
        s.inserted(primitive).steps == s.steps,
        s.inserted(primitive).segments == s.segments,
        s.inserted(primitive).open == s.open,
        s.inserted(primitive).run == s.run,
        s.inserted(primitive).layers == s.layers,
{
    if overlap(inked(primitive), let_through(primitive)) {
        let order = s.order_for(primitive.visible());
        assert(!primitive.visible().is_empty());
        assert(holds_one_more(
            s.arrays,
            s.inserted(primitive).arrays,
            primitive,
            order,
            innermost_clip(s),
        ));
    } else {
        assert(primitive.visible().is_empty());
    }
}

proof fn lemma_highest_is_one_below(entries: Seq<(Rect, nat)>, bounds: Rect)
    ensures
        highest_below(entries, bounds) == 0 || exists|i: int|
            0 <= i < entries.len() && (#[trigger] entries[i]).0.intersects(bounds) && entries[i].1
                == highest_below(entries, bounds),
    decreases entries.len(),
{
    if entries.len() > 0 {
        let rest = entries.drop_last();
        lemma_highest_is_one_below(rest, bounds);
        let last = entries.len() - 1;
        assert(entries[last] == entries.last());
        if highest_below(entries, bounds) != highest_below(rest, bounds) {
            assert(entries[last].0.intersects(bounds));
        } else if highest_below(rest, bounds) != 0 {
            let i = choose|i: int|
                0 <= i < rest.len() && (#[trigger] rest[i]).0.intersects(bounds) && rest[i].1
                    == highest_below(rest, bounds);
            assert(entries[i] == rest[i]);
        }
    }
}

/// An order is no higher than it has to be: a box is drawn first of all, or
/// right above one that it overlaps.
pub proof fn orders_are_as_low_as_can_be(entries: Seq<(Rect, nat)>, bounds: Rect)
    ensures
        order_above(entries, bounds) == 1 || exists|i: int|
            0 <= i < entries.len() && (#[trigger] entries[i]).0.intersects(bounds) && entries[i].1
                + 1 == order_above(entries, bounds),
{
    lemma_highest_is_one_below(entries, bounds);
}

/// The order that a primitive which can be seen is drawn at: that of the
/// innermost layer, or where there is none one above everything painted outside
/// layers that it overlaps; and then it is remembered, with that order, by the
/// box of what can be seen of it.
pub proof fn what_is_painted_is_remembered(s: SceneModel, primitive: PrimitiveModel)
    requires
        s.wf(),
        s.ops.len() < MAX_OPERATIONS,
        !primitive.visible().is_empty(),
    ensures
        ({
            let after = s.inserted(primitive);
            let seen = primitive.ink().intersect(primitive.mask());
            &&& s.layers.len() > 0 ==> after.tree == s.tree && holds_one_more(
                s.arrays,
                after.arrays,
                primitive,
                s.layers.last(),
                innermost_clip(s),
            )
            &&& s.layers.len() == 0 ==> {
                &&& after.tree.len() == s.tree.len() + 1
                &&& after.tree.drop_last() == s.tree
                &&& after.tree.last().0 == seen
                &&& holds_one_more(
                    s.arrays,
                    after.arrays,
                    primitive,
                    after.tree.last().1 as u32,
                    innermost_clip(s),
                )
                &&& forall|i: int|
                    0 <= i < s.tree.len() && (#[trigger] s.tree[i]).0.intersects(seen)
                        ==> s.tree[i].1 < after.tree.last().1
                &&& after.tree.last().1 == 1 || exists|i: int|
                    0 <= i < s.tree.len() && (#[trigger] s.tree[i]).0.intersects(seen)
                        && s.tree[i].1 + 1 == after.tree.last().1
            }
            &&& after.ops.len() == s.ops.len() + 1
        }),
{
    let after = s.inserted(primitive);
    let seen = primitive.visible();
    if s.layers.len() == 0 {
        assert(after.tree.drop_last() =~= s.tree);
        orders_are_as_low_as_can_be(s.tree, seen);
        assert forall|i: int|
            0 <= i < s.tree.len() && (#[trigger] s.tree[i]).0.intersects(seen) implies s.tree[i].1
            < after.tree.last().1 by {
            later_boxes_are_ordered_above(s.tree, seen, i);
        }
    }
}

/// A layer is ordered above everything painted outside layers that its box
/// overlaps, no higher than it has to be, and is remembered by that box; popping
/// it brings back the layer around it.
pub proof fn layers_are_remembered(s: SceneModel, bounds: Rect)
    requires
        s.wf(),
        s.ops.len() < MAX_OPERATIONS,
    ensures
        ({
            let after = s.layer_pushed(bounds);
            &&& after.tree.drop_last() == s.tree
            &&& after.tree.last().0 == bounds
            &&& after.layers.drop_last() == s.layers
            &&& after.layers.last() == after.tree.last().1
            &&& forall|i: int|
                0 <= i < s.tree.len() && (#[trigger] s.tree[i]).0.intersects(bounds)
                    ==> s.tree[i].1 < after.tree.last().1
            &&& after.tree.last().1 == 1 || exists|i: int|
                0 <= i < s.tree.len() && (#[trigger] s.tree[i]).0.intersects(bounds) && s.tree[i].1
                    + 1 == after.tree.last().1
            &&& after.layer_popped().layers == s.layers
            &&& after.layer_popped().tree == after.tree
            &&& after.arrays == s.arrays
        }),
{
    let after = s.layer_pushed(bounds);
    assert(after.tree.drop_last() =~= s.tree);
    assert(after.layers.drop_last() =~= s.layers);
    reveal(SceneModel::wf);
    lemma_order_above(s.tree, bounds);
    orders_are_as_low_as_can_be(s.tree, bounds);
    assert forall|i: int|
        0 <= i < s.tree.len() && (#[trigger] s.tree[i]).0.intersects(bounds) implies s.tree[i].1
        < after.tree.last().1 by {
        later_boxes_are_ordered_above(s.tree, bounds, i);
    }
}

/// A clip that is pushed is kept with its outline and what could be seen of it,
/// inside the clip around it, and is what primitives are clipped to until it is
/// popped; popping it brings back the clip around it.
pub proof fn clips_apply_until_they_are_popped(
    s: SceneModel,
    path: ClipPathModel<ScaledPixels>,
    visible: Rect,
)
    requires
        s.clips.len() < u32::MAX,
    ensures
        ({
            let pushed = s.clip_pushed(path, visible);
            let inside = pushed.clip_stack.last();
            &&& pushed.clip_stack.len() == s.clip_stack.len() + 1
            &&& 1 <= inside.0 <= pushed.clips.len()
            &&& pushed.clips[inside.0 - 1].path == path
            &&& pushed.clips[inside.0 - 1].visible == visible
            &&& pushed.clips[inside.0 - 1].parent == innermost_clip(s)
            &&& pushed.clips.drop_last() == s.clips
            &&& pushed.clip_popped().clip_stack == s.clip_stack
            &&& pushed.clip_popped().clips == pushed.clips
            &&& pushed.arrays == s.arrays
        }),
{
    let pushed = s.clip_pushed(path, visible);
    assert(pushed.clips.drop_last() =~= s.clips);
    assert(pushed.clip_popped().clip_stack =~= s.clip_stack);
}

/// Two boxes that are not empty meet exactly where some stretch of both axes
/// lies in both of them: boxes that only share an edge do not.
pub proof fn boxes_meet_where_they_share_room(a: Rect, b: Rect)
    requires
        a.x < a.right(),
        a.y < a.bottom(),
        b.x < b.right(),
        b.y < b.bottom(),
    ensures
        a.intersects(b) == b.intersects(a),
        a.intersects(a),
        a.intersects(b) <==> exists|x: int, y: int| #[trigger]
            holds_room(a, x, y) && holds_room(b, x, y),
        a.right() <= b.x || a.bottom() <= b.y ==> !a.intersects(b),
{
    if a.intersects(b) {
        let (x, y) = (max(a.x, b.x), max(a.y, b.y));
        assert(holds_room(a, x, y) && holds_room(b, x, y));
    }
}

/// Whether the box goes on to the right of and below a point that it holds.
pub open spec fn holds_room(bounds: Rect, x: int, y: int) -> bool {
    bounds.x <= x < bounds.right() && bounds.y <= y < bounds.bottom()
}

} // verus!
