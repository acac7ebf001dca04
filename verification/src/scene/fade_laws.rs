//! What folding a group does to what the group held.

use crate::color::{Background, Hsla, LinearColorStop};
use crate::fixed::{product, ONE};
use crate::geometry::ScaledPixels;
use crate::scene::group::GroupModel;
use crate::scene::laws::{a_folded_group_leaves_no_trace, only_primitives};
use crate::scene::model::{Arrays, OpModel, SceneModel};
use crate::scene::path::{PathBrush, PathModel};
use crate::scene::primitive::{MonochromeSprite, PolychromeSprite, Quad, Shadow, Underline};
use crate::scene::segment::Marks;
use vstd::prelude::*;

verus! {

/// Whether `after` is `before` times `factor`, to the nearest step.
pub open spec fn is_share(after: i64, before: i64, factor: int) -> bool {
    -ONE <= 2 * (ONE * after - before * factor) <= ONE
}

/// Whether a colour is another at a share of its alpha, and the same in
/// everything else.
pub open spec fn color_is_dimmed(after: Hsla, before: Hsla, factor: int) -> bool {
    &&& after.h == before.h
    &&& after.s == before.s
    &&& after.l == before.l
    &&& is_share(after.a, before.a, factor)
}

pub open spec fn stop_is_dimmed(
    after: LinearColorStop,
    before: LinearColorStop,
    factor: int,
) -> bool {
    color_is_dimmed(after.color, before.color, factor) && after.percentage == before.percentage
}

/// Whether each colour of a fill is another's at a share of its alpha, and the
/// fills are the same in everything else.
pub open spec fn fill_is_dimmed(after: Background, before: Background, factor: int) -> bool {
    &&& after.tag == before.tag
    &&& after.color_space == before.color_space
    &&& after.gradient_angle_or_pattern_height == before.gradient_angle_or_pattern_height
    &&& color_is_dimmed(after.solid, before.solid, factor)
    &&& stop_is_dimmed(after.from_stop, before.from_stop, factor)
    &&& stop_is_dimmed(after.to_stop, before.to_stop, factor)
}

pub open spec fn brush_is_dimmed(
    after: Option<PathBrush>,
    before: Option<PathBrush>,
    factor: int,
) -> bool {
    match (after, before) {
        (None, None) => true,
        (Some(after), Some(before)) => {
            &&& after == (PathBrush { opacity: after.opacity, ..before })
            &&& is_share(after.opacity, before.opacity, factor)
        },
        _ => false,
    }
}

pub open spec fn shadow_is_dimmed(after: Shadow, before: Shadow, factor: int) -> bool {
    &&& after == (Shadow { color: after.color, ..before })
    &&& color_is_dimmed(after.color, before.color, factor)
}

pub open spec fn quad_is_dimmed(after: Quad, before: Quad, factor: int) -> bool {
    &&& after == (Quad {
        background: after.background,
        border_color: after.border_color,
        ..before
    })
    &&& fill_is_dimmed(after.background, before.background, factor)
    &&& color_is_dimmed(after.border_color, before.border_color, factor)
}

pub open spec fn path_is_dimmed(
    after: PathModel<ScaledPixels>,
    before: PathModel<ScaledPixels>,
    factor: int,
) -> bool {
    &&& after == (PathModel { color: after.color, brush: after.brush, ..before })
    &&& fill_is_dimmed(after.color, before.color, factor)
    &&& brush_is_dimmed(after.brush, before.brush, factor)
}

pub open spec fn underline_is_dimmed(after: Underline, before: Underline, factor: int) -> bool {
    &&& after == (Underline { color: after.color, ..before })
    &&& color_is_dimmed(after.color, before.color, factor)
}

pub open spec fn glyph_is_dimmed(
    after: MonochromeSprite,
    before: MonochromeSprite,
    factor: int,
) -> bool {
    &&& after == (MonochromeSprite { color: after.color, ..before })
    &&& color_is_dimmed(after.color, before.color, factor)
}

pub open spec fn image_is_dimmed(
    after: PolychromeSprite,
    before: PolychromeSprite,
    factor: int,
) -> bool {
    &&& after == (PolychromeSprite { opacity: after.opacity, ..before })
    &&& is_share(after.opacity, before.opacity, factor)
}

/// Whether, from `start` on, everything in the arrays is what it was before at a
/// share of its alpha, and before `start` nothing has changed. Glyphs that cover
/// each channel by itself and surfaces have no alpha, and never change.
pub open spec fn is_dimmed_from(
    after: Arrays,
    before: Arrays,
    start: Marks,
    factor: int,
) -> bool {
    &&& after.shadows.len() == before.shadows.len()
    &&& forall|i: int|
        0 <= i < before.shadows.len() ==> if i < start.shadows {
            (#[trigger] after.shadows[i]) == before.shadows[i]
        } else {
            shadow_is_dimmed(after.shadows[i], before.shadows[i], factor)
        }
    &&& after.quads.len() == before.quads.len()
    &&& forall|i: int|
        0 <= i < before.quads.len() ==> if i < start.quads {
            (#[trigger] after.quads[i]) == before.quads[i]
        } else {
            quad_is_dimmed(after.quads[i], before.quads[i], factor)
        }
    &&& after.paths.len() == before.paths.len()
    &&& forall|i: int|
        0 <= i < before.paths.len() ==> if i < start.paths {
            (#[trigger] after.paths[i]) == before.paths[i]
        } else {
            path_is_dimmed(after.paths[i], before.paths[i], factor)
        }
    &&& after.underlines.len() == before.underlines.len()
    &&& forall|i: int|
        0 <= i < before.underlines.len() ==> if i < start.underlines {
            (#[trigger] after.underlines[i]) == before.underlines[i]
        } else {
            underline_is_dimmed(after.underlines[i], before.underlines[i], factor)
        }
    &&& after.monochrome_sprites.len() == before.monochrome_sprites.len()
    &&& forall|i: int|
        0 <= i < before.monochrome_sprites.len() ==> if i < start.monochrome_sprites {
            (#[trigger] after.monochrome_sprites[i]) == before.monochrome_sprites[i]
        } else {
            glyph_is_dimmed(after.monochrome_sprites[i], before.monochrome_sprites[i], factor)
        }
    &&& after.polychrome_sprites.len() == before.polychrome_sprites.len()
    &&& forall|i: int|
        0 <= i < before.polychrome_sprites.len() ==> if i < start.polychrome_sprites {
            (#[trigger] after.polychrome_sprites[i]) == before.polychrome_sprites[i]
        } else {
            image_is_dimmed(after.polychrome_sprites[i], before.polychrome_sprites[i], factor)
        }
    &&& after.subpixel_sprites == before.subpixel_sprites
    &&& after.surfaces == before.surfaces
}

proof fn lemma_share(before: i64, factor: int)
    requires
        0 <= factor <= ONE,
    ensures
        is_share(product(before as int, factor) as i64, before, factor),
        i64::MIN <= product(before as int, factor) <= i64::MAX,
{
    let p = before * factor;
    assert(-0x8000_0000_0000_0000 * 65536 <= p <= 0x8000_0000_0000_0000 * 65536) by (nonlinear_arith)
        requires
            p == before * factor,
            -0x8000_0000_0000_0000 <= before <= 0x7fff_ffff_ffff_ffff,
            0 <= factor <= 65536,
    ;
    assert(p <= 0x7fff_ffff_ffff_ffff * 65536) by (nonlinear_arith)
        requires
            p == before * factor,
            before <= 0x7fff_ffff_ffff_ffff,
            0 <= factor <= 65536,
    ;
    assert(product(before as int, factor) == (2 * p + 65536) / 131072);
}

proof fn lemma_color(color: Hsla, factor: int)
    requires
        0 <= factor <= ONE,
    ensures
        color_is_dimmed(color.faded(factor), color, factor),
{
    lemma_share(color.a, factor);
}

proof fn lemma_fill(fill: Background, factor: int)
    requires
        0 <= factor <= ONE,
    ensures
        fill_is_dimmed(fill.faded(factor), fill, factor),
{
    lemma_color(fill.solid, factor);
    lemma_color(fill.from_stop.color, factor);
    lemma_color(fill.to_stop.color, factor);
}

proof fn lemma_dimmed(arrays: Arrays, start: Marks, factor: int)
    requires
        0 <= factor <= ONE,
        start.le(arrays.marks()),
    ensures
        is_dimmed_from(arrays.faded(start, arrays.marks(), factor), arrays, start, factor),
{
    let after = arrays.faded(start, arrays.marks(), factor);
    assert forall|i: int| 0 <= i < arrays.shadows.len() implies if i < start.shadows {
        (#[trigger] after.shadows[i]) == arrays.shadows[i]
    } else {
        shadow_is_dimmed(after.shadows[i], arrays.shadows[i], factor)
    } by {
        lemma_color(arrays.shadows[i].color, factor);
    }
    assert forall|i: int| 0 <= i < arrays.quads.len() implies if i < start.quads {
        (#[trigger] after.quads[i]) == arrays.quads[i]
    } else {
        quad_is_dimmed(after.quads[i], arrays.quads[i], factor)
    } by {
        lemma_fill(arrays.quads[i].background, factor);
        lemma_color(arrays.quads[i].border_color, factor);
    }
    assert forall|i: int| 0 <= i < arrays.paths.len() implies if i < start.paths {
        (#[trigger] after.paths[i]) == arrays.paths[i]
    } else {
        path_is_dimmed(after.paths[i], arrays.paths[i], factor)
    } by {
        lemma_fill(arrays.paths[i].color, factor);
        if let Some(brush) = arrays.paths[i].brush {
            lemma_share(brush.opacity, factor);
        }
    }
    assert forall|i: int| 0 <= i < arrays.underlines.len() implies if i < start.underlines {
        (#[trigger] after.underlines[i]) == arrays.underlines[i]
    } else {
        underline_is_dimmed(after.underlines[i], arrays.underlines[i], factor)
    } by {
        lemma_color(arrays.underlines[i].color, factor);
    }
    assert forall|i: int| 0 <= i < arrays.monochrome_sprites.len() implies if i
        < start.monochrome_sprites {
        (#[trigger] after.monochrome_sprites[i]) == arrays.monochrome_sprites[i]
    } else {
        glyph_is_dimmed(after.monochrome_sprites[i], arrays.monochrome_sprites[i], factor)
    } by {
        lemma_color(arrays.monochrome_sprites[i].color, factor);
    }
    assert forall|i: int| 0 <= i < arrays.polychrome_sprites.len() implies if i
        < start.polychrome_sprites {
        (#[trigger] after.polychrome_sprites[i]) == arrays.polychrome_sprites[i]
    } else {
        image_is_dimmed(after.polychrome_sprites[i], arrays.polychrome_sprites[i], factor)
    } by {
        lemma_share(arrays.polychrome_sprites[i].opacity, factor);
    }
    assert(after.subpixel_sprites =~= arrays.subpixel_sprites);
    assert(after.surfaces =~= arrays.surfaces);
}

/// A folded group's opacity is multiplied into the alpha of everything that the
/// group held: of a shadow, an underline and a glyph the colour's, of a quad the
/// fill's and the border's, of a path the fill's and the brush's, of an image
/// its opacity; each to the nearest step. Nothing else of them changes, and
/// nothing that the group did not hold.
pub proof fn a_fold_dims_what_the_group_held(s: SceneModel)
    requires
        s.wf(),
        s.can_pop_group(),
        s.group_folds(),
        0 <= s.groups[s.open.last().id as int].opacity <= ONE,
    ensures
        is_dimmed_from(
            s.group_popped().arrays,
            s.arrays,
            s.open.last().content,
            s.groups[s.open.last().id as int].opacity as int,
        ),
{
    reveal(SceneModel::wf);
    let group = s.open.last();
    let opacity = s.groups[group.id as int].opacity as int;
    assert(s.open_group_holds(s.open.len() - 1));
    lemma_dimmed(s.arrays, group.content, opacity);
    if opacity == ONE {
        lemma_undimmed(s.arrays, group.content);
    }
}

proof fn lemma_undimmed(arrays: Arrays, start: Marks)
    ensures
        is_dimmed_from(arrays, arrays, start, ONE as int),
{
    assert forall|v: i64| is_share(v, v, ONE as int) by {
        assert(ONE * v == v * ONE) by (nonlinear_arith);
    }
}

/// A group that is folded at full strength or more leaves every record as it
/// was.
pub proof fn a_fold_at_full_strength_changes_nothing(s: SceneModel)
    requires
        s.group_folds(),
        s.groups[s.open.last().id as int].opacity >= ONE,
    ensures
        s.group_popped().arrays == s.arrays,
{
}

/// A group that is folded at less than nothing hides every colour that it held.
pub proof fn a_fold_below_nothing_hides_every_colour(s: SceneModel, i: int)
    requires
        s.wf(),
        s.can_pop_group(),
        s.group_folds(),
        s.groups[s.open.last().id as int].opacity < 0,
    ensures
        ({
            let now = s.group_popped().arrays;
            let start = s.open.last().content;
            &&& start.shadows <= i < s.arrays.shadows.len() ==> now.shadows[i].color.a == 0
            &&& start.quads <= i < s.arrays.quads.len() ==> now.quads[i].background.solid.a == 0
                && now.quads[i].border_color.a == 0
            &&& start.paths <= i < s.arrays.paths.len() ==> now.paths[i].color.solid.a == 0
            &&& start.underlines <= i < s.arrays.underlines.len() ==> now.underlines[i].color.a == 0
            &&& start.monochrome_sprites <= i < s.arrays.monochrome_sprites.len()
                ==> now.monochrome_sprites[i].color.a == 0
        }),
{
    reveal(SceneModel::wf);
    assert(s.open_group_holds(s.open.len() - 1));
    assert(forall|a: i64| #[trigger] (a * 0int) == 0) by (nonlinear_arith);
    assert((2 * 0 + 65536) / 131072 == 0int);
}

proof fn lemma_arrays_grow(s: SceneModel, ops: Seq<OpModel>)
    requires
        only_primitives(ops),
    ensures
        s.arrays.marks().le(s.applied_all(ops).arrays.marks()),
    decreases ops.len(),
{
    if ops.len() > 0 {
        let rest = ops.drop_last();
        assert forall|i: int| 0 <= i < rest.len() implies (#[trigger] rest[i]) is Primitive by {
            assert(rest[i] == ops[i]);
        }
        lemma_arrays_grow(s, rest);
        assert(ops[ops.len() - 1] is Primitive);
    }
}

/// What a group holds is what was painted since it was pushed: where a group
/// that was pushed, painted into and popped again is folded, what was painted
/// in between is dimmed to the group's opacity, and what was there before is
/// not.
pub proof fn a_folded_group_dims_what_was_painted_into_it(
    s: SceneModel,
    group: GroupModel,
    ops: Seq<OpModel>,
)
    requires
        s.wf(),
        only_primitives(ops),
        s.group_pushed(group).applied_all(ops).group_folds(),
        0 <= group.opacity <= ONE,
    ensures
        ({
            let inside = s.group_pushed(group).applied_all(ops);
            is_dimmed_from(
                inside.group_popped().arrays,
                inside.arrays,
                s.arrays.marks(),
                group.opacity as int,
            )
        }),
{
    a_folded_group_leaves_no_trace(s, group, ops);
    let inside = s.group_pushed(group).applied_all(ops);
    lemma_arrays_grow(s.group_pushed(group), ops);
    lemma_dimmed(inside.arrays, s.arrays.marks(), group.opacity as int);
    if group.opacity == ONE {
        lemma_undimmed(inside.arrays, s.arrays.marks());
    }
}

} // verus!
