//! How far filters carry a picture.

use crate::color::Hsla;
use crate::fixed::{is_nearest, lemma_rounds, ONE};
use crate::geometry::Rect;
use crate::scene::filter::{FilterModel, GAUSSIAN_BLUR_EXTENT};
use crate::scene::group::GroupModel;
use crate::scene::insert_laws::{is_modest, sides_of};
use vstd::prelude::*;

verus! {

/// Whether a length is far from the ends of what can be held.
pub open spec fn is_modest_length(v: int) -> bool {
    -0x100_0000_0000_0000 <= v <= 0x100_0000_0000_0000
}

pub open spec fn least(a: int, b: int) -> int {
    if a < b {
        a
    } else {
        b
    }
}

pub open spec fn most(a: int, b: int) -> int {
    if a < b {
        b
    } else {
        a
    }
}

/// Three deviations of a blur, none for one that is not positive.
pub open spec fn three_of(sigma: int) -> int {
    if sigma > 0 {
        3 * sigma
    } else {
        0
    }
}

/// A colour matrix carries a picture nowhere, and a blur three deviations to
/// either side along each axis.
pub proof fn blurs_carry_three_deviations(input: Rect, radius_x: int, radius_y: int)
    requires
        is_modest(input),
        is_modest_length(radius_x),
        is_modest_length(radius_y),
    ensures
        forall|matrix: [i64; 20]|
            #[trigger] FilterModel::ColorMatrix(matrix).reach(input) == input,
        ({
            let reach = sides_of((FilterModel::Blur { radius_x, radius_y }).reach(input), 0);
            let sides = sides_of(input, 0);
            &&& reach.left == sides.left - three_of(radius_x)
            &&& reach.right == sides.right + three_of(radius_x)
            &&& reach.top == sides.top - three_of(radius_y)
            &&& reach.bottom == sides.bottom + three_of(radius_y)
        }),
{
    assert(GAUSSIAN_BLUR_EXTENT == 3);
    assert(radius_x * GAUSSIAN_BLUR_EXTENT == 3 * radius_x) by (nonlinear_arith)
        requires
            GAUSSIAN_BLUR_EXTENT == 3,
    ;
    assert(radius_y * GAUSSIAN_BLUR_EXTENT == 3 * radius_y) by (nonlinear_arith)
        requires
            GAUSSIAN_BLUR_EXTENT == 3,
    ;
}

/// A drop shadow carries a picture as far as the picture and its shadow
/// together: the shadow is the picture moved by the offset, and three deviations
/// wider to every side.
pub proof fn shadows_carry_their_offset_and_blur(
    input: Rect,
    offset_x: int,
    offset_y: int,
    radius: int,
    color: Hsla,
)
    requires
        is_modest(input),
        input.width >= 0,
        input.height >= 0,
        is_modest_length(offset_x),
        is_modest_length(offset_y),
        is_modest_length(radius),
    ensures
        ({
            let shadow = FilterModel::DropShadow { offset_x, offset_y, radius, color };
            let reach = sides_of(shadow.reach(input), 0);
            let sides = sides_of(input, 0);
            &&& reach.left == least(sides.left, sides.left + offset_x) - three_of(radius)
            &&& reach.right == most(sides.right, sides.right + offset_x) + three_of(radius)
            &&& reach.top == least(sides.top, sides.top + offset_y) - three_of(radius)
            &&& reach.bottom == most(sides.bottom, sides.bottom + offset_y) + three_of(radius)
        }),
{
    assert(GAUSSIAN_BLUR_EXTENT == 3);
    assert(radius * GAUSSIAN_BLUR_EXTENT == 3 * radius) by (nonlinear_arith)
        requires
            GAUSSIAN_BLUR_EXTENT == 3,
    ;
}

/// A chain carries a picture where its last filter carries what the others have
/// carried.
pub proof fn chains_carry_one_after_the_other(
    filters: Seq<FilterModel>,
    last: FilterModel,
    input: Rect,
)
    ensures
        FilterModel::Chain(Seq::empty()).reach(input) == input,
        FilterModel::Chain(filters.push(last)).reach(input) == last.reach(
            FilterModel::Chain(filters).reach(input),
        ),
{
    assert(filters.push(last).drop_last() =~= filters);
}

/// Whether every length of a filter times a factor can be held.
pub open spec fn scales_within_range(v: int, factor: int) -> bool {
    65536 * i64::MIN <= v * factor <= 65536 * i64::MAX
}

/// Under a scale, every length of a filter is the scale's multiple of it, to the
/// nearest step; colours and matrices stay, and so does the order of a chain.
pub proof fn filters_scale_their_lengths(filter: FilterModel, factor: int)
    requires
        match filter {
            FilterModel::Blur { radius_x, radius_y } => scales_within_range(radius_x, factor)
                && scales_within_range(radius_y, factor),
            FilterModel::DropShadow { offset_x, offset_y, radius, .. } => scales_within_range(
                offset_x,
                factor,
            ) && scales_within_range(offset_y, factor) && scales_within_range(radius, factor),
            _ => true,
        },
    ensures
        match (filter, filter.scaled(factor)) {
            (FilterModel::ColorMatrix(a), FilterModel::ColorMatrix(b)) => a == b,
            (
                FilterModel::Blur { radius_x: ax, radius_y: ay },
                FilterModel::Blur { radius_x: bx, radius_y: by },
            ) => is_nearest(bx, ax * factor, ONE as int) && is_nearest(by, ay * factor, ONE as int),
            (
                FilterModel::DropShadow { offset_x: ax, offset_y: ay, radius: ar, color: ac },
                FilterModel::DropShadow { offset_x: bx, offset_y: by, radius: br, color: bc },
            ) => {
                &&& is_nearest(bx, ax * factor, ONE as int)
                &&& is_nearest(by, ay * factor, ONE as int)
                &&& is_nearest(br, ar * factor, ONE as int)
                &&& ac == bc
            },
            (FilterModel::Chain(a), FilterModel::Chain(b)) => {
                &&& a.len() == b.len()
                &&& forall|i: int| 0 <= i < a.len() ==> #[trigger] b[i] == a[i].scaled(factor)
            },
            _ => false,
        },
{
    match filter {
        FilterModel::ColorMatrix(_) => {},
        FilterModel::Blur { radius_x, radius_y } => {
            lemma_rounds(radius_x * factor, 65536);
            lemma_rounds(radius_y * factor, 65536);
        },
        FilterModel::DropShadow { offset_x, offset_y, radius, .. } => {
            lemma_rounds(offset_x * factor, 65536);
            lemma_rounds(offset_y * factor, 65536);
            lemma_rounds(radius * factor, 65536);
        },
        FilterModel::Chain(filters) => {
            lemma_all_scaled(filters, factor);
        },
    }
}

proof fn lemma_all_scaled(filters: Seq<FilterModel>, factor: int)
    ensures
        FilterModel::all_scaled(filters, factor).len() == filters.len(),
        forall|i: int|
            0 <= i < filters.len() ==> #[trigger] FilterModel::all_scaled(filters, factor)[i]
                == filters[i].scaled(factor),
    decreases filters.len(),
{
    if filters.len() > 0 {
        let rest = filters.drop_last();
        lemma_all_scaled(rest, factor);
        let scaled = FilterModel::all_scaled(filters, factor);
        assert forall|i: int| 0 <= i < filters.len() implies #[trigger] scaled[i]
            == filters[i].scaled(factor) by {
            if i < rest.len() {
                assert(scaled[i] == FilterModel::all_scaled(rest, factor)[i]);
                assert(rest[i] == filters[i]);
            }
        }
    }
}

/// A group that paints something is given a box that holds what it painted and
/// the box it had, carried on by its filter and held to its mask, and nothing
/// else of it changes.
pub proof fn groups_grow_to_what_they_paint(group: GroupModel, painted: Rect)
    requires
        is_modest(group.bounds),
        is_modest(painted),
        group.mask matches Some(mask) ==> is_modest(mask),
    ensures
        ({
            let grown = group.grown(painted);
            let held = sides_of(painted, 0);
            let had = sides_of(group.bounds, 0);
            let whole = if group.bounds.width <= 0 || group.bounds.height <= 0 {
                painted
            } else {
                group.bounds.union(painted)
            };
            let around = sides_of(whole, 0);
            &&& grown.clip == group.clip
            &&& grown.opacity == group.opacity
            &&& grown.blend == group.blend
            &&& grown.filter == group.filter
            &&& grown.backdrop_filter == group.backdrop_filter
            &&& grown.mask == group.mask
            &&& around.left <= held.left && around.top <= held.top
            &&& held.right <= around.right && held.bottom <= around.bottom
            &&& group.bounds.width > 0 && group.bounds.height > 0 ==> {
                &&& around.left == least(had.left, held.left)
                &&& around.top == least(had.top, held.top)
                &&& around.right == most(had.right, held.right)
                &&& around.bottom == most(had.bottom, held.bottom)
            }
            &&& group.filter is None ==> grown.bounds == whole
            &&& group.filter matches Some(filter) ==> (match group.mask {
                None => grown.bounds == filter.reach(whole),
                Some(mask) => forall|x: int, y: int|
                    #![trigger grown.bounds.holds(x, y)]
                    filter.reach(whole).in_range() ==> grown.bounds.holds(x, y) == (filter.reach(
                        whole,
                    ).holds(x, y) && mask.holds(x, y)),
            })
        }),
{
}

} // verus!
