//! What the outlines of clip shapes look like.

use crate::clip_path::{
    at, fitted_radii, kappa_of, outline_with, overlap_ratio, radius_of, scaled_point, tighter,
    ClipPathSegment, Radii, KAPPA,
};
use crate::fixed::{is_nearest, lemma_rounds, nearest, ONE};
use crate::geometry::{Corners, Pixels, Point, Rect, ScaledPixels, Size};
use vstd::prelude::*;

verus! {

/// Whether the outer edge of a quarter's middle is where it should be along one
/// axis: `eight_times` as far from the centre as an eighth of it is, for a radius
/// of `radius`. The square of that is half the radius's, but for rounding.
pub open spec fn is_on_the_arc(eight_times: int, radius: int) -> bool {
    let off = eight_times * eight_times - 32 * (radius * radius);
    -(20 * radius + 16) <= off && 100_000_000 * off <= radius * radius + 100_000_000 * (20 * radius
        + 16)
}

proof fn lemma_arc(radius: int)
    requires
        0 <= radius,
    ensures
        is_on_the_arc(4 * radius + 3 * kappa_of(radius), radius),
        0 <= kappa_of(radius) <= radius,
{
    reveal(kappa_of);
    let k = kappa_of(radius);
    let scale: int = 100_000_000;
    assert(radius * KAPPA == radius * 55_228_475);
    let e = scale * k - radius * 55_228_475;
    assert(k == (2 * (radius * 55_228_475) + 100_000_000) / 200_000_000);
    assert(-50_000_000 <= e <= 50_000_000);
    let s = 4 * radius + 3 * k;
    let main = 565_685_425 * radius;
    assert(scale * s == main + 3 * e);
    let square = radius * radius;
    let cross = radius * e;
    assert(-(50_000_000 * radius) <= cross <= 50_000_000 * radius) by (nonlinear_arith)
        requires
            0 <= radius,
            -50_000_000 <= e <= 50_000_000,
            cross == radius * e,
    ;
    let small = e * e;
    assert(0 <= small <= 2_500_000_000_000_000) by (nonlinear_arith)
        requires
            -50_000_000 <= e <= 50_000_000,
            small == e * e,
    ;
    let x = scale * s;
    assert(x * x == 10_000_000_000_000_000 * (s * s)) by (nonlinear_arith)
        requires
            x == 100_000_000 * s,
    ;
    assert(x * x == 320_000_000_057_430_625 * square + 3_394_112_550 * cross + 9 * small)
        by (nonlinear_arith)
        requires
            x == 565_685_425 * radius + 3 * e,
            square == radius * radius,
            cross == radius * e,
            small == e * e,
    ;
    assert(square >= 0) by (nonlinear_arith)
        requires
            square == radius * radius,
    ;
}

/// Whether a curve turns a quarter of the way round an ellipse, from a point
/// right above, below, left or right of its centre to the next one: it leaves
/// along the ellipse there and arrives along it, and is on it halfway.
pub open spec fn turns_a_quarter(
    from: Point<Pixels>,
    segment: ClipPathSegment<Pixels>,
    center: (int, int),
    radii: (int, int),
    towards: (int, int),
) -> bool {
    segment matches ClipPathSegment::CubicTo { control1, control2, to } && {
        let mid_x = from.x.0 + 3 * control1.x.0 + 3 * control2.x.0 + to.x.0 - 8 * center.0;
        let mid_y = from.y.0 + 3 * control1.y.0 + 3 * control2.y.0 + to.y.0 - 8 * center.1;
        let side = (center.0 + towards.0 * radii.0, center.1);
        let end = (center.0, center.1 + towards.1 * radii.1);
        &&& {
            ||| from.x.0 == side.0 && from.y.0 == side.1 && to.x.0 == end.0 && to.y.0 == end.1
                && control1.x.0 == from.x.0 && control2.y.0 == to.y.0
            ||| from.x.0 == end.0 && from.y.0 == end.1 && to.x.0 == side.0 && to.y.0 == side.1
                && control1.y.0 == from.y.0 && control2.x.0 == to.x.0
        }
        &&& is_on_the_arc(towards.0 * mid_x, radii.0)
        &&& is_on_the_arc(towards.1 * mid_y, radii.1)
        &&& towards.0 * mid_x >= 0 && towards.1 * mid_y >= 0
    }
}

/// Where a segment that is no curve goes.
pub open spec fn goes_to(segment: ClipPathSegment<Pixels>) -> Point<Pixels> {
    match segment {
        ClipPathSegment::MoveTo(to) => to,
        ClipPathSegment::LineTo(to) => to,
        ClipPathSegment::QuadTo { to, .. } => to,
        ClipPathSegment::CubicTo { to, .. } => to,
        ClipPathSegment::Close => at(0, 0),
    }
}

/// The outline of a rounded box goes round clockwise from its top edge, along
/// each edge and then a quarter round the corner at its end, each corner by its
/// own radii, and back to where it began.
pub proof fn rounded_boxes_turn_at_their_corners(bounds: Rect, radii: Radii)
    requires
        -0x800_0000_0000_0000 <= bounds.x <= 0x800_0000_0000_0000,
        -0x800_0000_0000_0000 <= bounds.y <= 0x800_0000_0000_0000,
        0 <= bounds.width <= 0x800_0000_0000_0000,
        0 <= bounds.height <= 0x800_0000_0000_0000,
        0 <= radii.top_left.0 <= bounds.width && 0 <= radii.top_left.1 <= bounds.height,
        0 <= radii.top_right.0 <= bounds.width && 0 <= radii.top_right.1 <= bounds.height,
        0 <= radii.bottom_right.0 <= bounds.width && 0 <= radii.bottom_right.1 <= bounds.height,
        0 <= radii.bottom_left.0 <= bounds.width && 0 <= radii.bottom_left.1 <= bounds.height,
    ensures
        ({
            let outline = outline_with(bounds, radii);
            let (left, top) = (bounds.x, bounds.y);
            let (right, bottom) = (bounds.x + bounds.width, bounds.y + bounds.height);
            let (tl, tr) = (radii.top_left, radii.top_right);
            let (br, bl) = (radii.bottom_right, radii.bottom_left);
            &&& outline.len() == 10
            &&& outline[0] is MoveTo && outline[1] is LineTo && outline[3] is LineTo
            &&& outline[5] is LineTo && outline[7] is LineTo && outline[9] is Close
            &&& turns_a_quarter(
                goes_to(outline[1]),
                outline[2],
                (right - tr.0, top + tr.1),
                tr,
                (1, -1),
            )
            &&& turns_a_quarter(
                goes_to(outline[3]),
                outline[4],
                (right - br.0, bottom - br.1),
                br,
                (1, 1),
            )
            &&& turns_a_quarter(
                goes_to(outline[5]),
                outline[6],
                (left + bl.0, bottom - bl.1),
                bl,
                (-1, 1),
            )
            &&& turns_a_quarter(
                goes_to(outline[7]),
                outline[8],
                (left + tl.0, top + tl.1),
                tl,
                (-1, -1),
            )
            &&& goes_to(outline[8]) == goes_to(outline[0])
            &&& goes_to(outline[0]).y.0 == top && goes_to(outline[1]).y.0 == top
            &&& goes_to(outline[2]).x.0 == right && goes_to(outline[3]).x.0 == right
            &&& goes_to(outline[4]).y.0 == bottom && goes_to(outline[5]).y.0 == bottom
            &&& goes_to(outline[6]).x.0 == left && goes_to(outline[7]).x.0 == left
        }),
{
    let outline = outline_with(bounds, radii);
    lemma_arc(radii.top_left.0);
    lemma_arc(radii.top_left.1);
    lemma_arc(radii.top_right.0);
    lemma_arc(radii.top_right.1);
    lemma_arc(radii.bottom_right.0);
    lemma_arc(radii.bottom_right.1);
    lemma_arc(radii.bottom_left.0);
    lemma_arc(radii.bottom_left.1);
    let (left, top) = (bounds.x, bounds.y);
    let (right, bottom) = (bounds.x + bounds.width, bounds.y + bounds.height);
    let (tl, tr) = (radii.top_left, radii.top_right);
    let (br, bl) = (radii.bottom_right, radii.bottom_left);
    lemma_quarter(
        goes_to(outline[1]),
        outline[2],
        (right - tr.0, top + tr.1),
        tr,
        (1, -1),
        4 * tr.0 + 3 * kappa_of(tr.0),
        4 * tr.1 + 3 * kappa_of(tr.1),
    );
    lemma_quarter(
        goes_to(outline[3]),
        outline[4],
        (right - br.0, bottom - br.1),
        br,
        (1, 1),
        4 * br.0 + 3 * kappa_of(br.0),
        4 * br.1 + 3 * kappa_of(br.1),
    );
    lemma_quarter(
        goes_to(outline[5]),
        outline[6],
        (left + bl.0, bottom - bl.1),
        bl,
        (-1, 1),
        4 * bl.0 + 3 * kappa_of(bl.0),
        4 * bl.1 + 3 * kappa_of(bl.1),
    );
    lemma_quarter(
        goes_to(outline[7]),
        outline[8],
        (left + tl.0, top + tl.1),
        tl,
        (-1, -1),
        4 * tl.0 + 3 * kappa_of(tl.0),
        4 * tl.1 + 3 * kappa_of(tl.1),
    );
}

/// `v`, or less `v`, as a sign says.
pub open spec fn signed(sign: int, v: int) -> int {
    if sign == 1 {
        v
    } else {
        -v
    }
}

proof fn lemma_quarter(
    from: Point<Pixels>,
    segment: ClipPathSegment<Pixels>,
    center: (int, int),
    radii: (int, int),
    towards: (int, int),
    across: int,
    down: int,
)
    requires
        towards.0 == 1 || towards.0 == -1,
        towards.1 == 1 || towards.1 == -1,
        is_on_the_arc(across, radii.0),
        is_on_the_arc(down, radii.1),
        0 <= across,
        0 <= down,
        segment matches ClipPathSegment::CubicTo { control1, control2, to } && {
            let mid_x = from.x.0 + 3 * control1.x.0 + 3 * control2.x.0 + to.x.0 - 8 * center.0;
            let mid_y = from.y.0 + 3 * control1.y.0 + 3 * control2.y.0 + to.y.0 - 8 * center.1;
            let side = (center.0 + signed(towards.0, radii.0), center.1);
            let end = (center.0, center.1 + signed(towards.1, radii.1));
            &&& mid_x == signed(towards.0, across)
            &&& mid_y == signed(towards.1, down)
            &&& {
                ||| from.x.0 == side.0 && from.y.0 == side.1 && to.x.0 == end.0 && to.y.0 == end.1
                    && control1.x.0 == from.x.0 && control2.y.0 == to.y.0
                ||| from.x.0 == end.0 && from.y.0 == end.1 && to.x.0 == side.0 && to.y.0 == side.1
                    && control1.y.0 == from.y.0 && control2.x.0 == to.x.0
            }
        },
    ensures
        turns_a_quarter(from, segment, center, radii, towards),
{
    assert(1 * across == across && 1 * down == down);
    assert((-1) * (-across) == across && (-1) * (-down) == down);
    assert((-1) * radii.0 == -radii.0 && (-1) * radii.1 == -radii.1);
    assert(1 * radii.0 == radii.0 && 1 * radii.1 == radii.1);
}

/// Whether every radius is the one asked for, none for one that is negative, by
/// the same share `n / d` of it, rounded down.
pub open spec fn is_share_of(asked: Size<Pixels>, given: (int, int), n: int, d: int) -> bool {
    let width = if asked.width.0 < 0 {
        0
    } else {
        asked.width.0 as int
    };
    let height = if asked.height.0 < 0 {
        0
    } else {
        asked.height.0 as int
    };
    given.0 * d <= width * n < given.0 * d + d && given.1 * d <= height * n < given.1 * d + d
}

/// How long the two radii on an edge are together, as they are asked for.
pub open spec fn asked_along(a: Pixels, b: Pixels) -> int {
    (if a.0 < 0 {
        0
    } else {
        a.0 as int
    }) + (if b.0 < 0 {
        0
    } else {
        b.0 as int
    })
}

proof fn lemma_share(v: int, n: int, d: int)
    requires
        0 < d,
    ensures
        (v * n / d) * d <= v * n < (v * n / d) * d + d,
        (v * d / d) * d == v * d,
        v * d / d == v,
{
    let p = v * n;
    let q = p / d;
    assert(q * d <= p < q * d + d) by (nonlinear_arith)
        requires
            0 < d,
            q == p / d,
    ;
    assert(v * d / d == v) by (nonlinear_arith)
        requires
            0 < d,
    ;
}

/// All the radii of a box are given the same share of what was asked: all of it
/// where every edge has room for its two, and else as much as the edge with the
/// least room has.
pub proof fn radii_shrink_alike(width: int, height: int, asked: Corners<Size<Pixels>>) -> (share: (
    int,
    int,
))
    requires
        0 <= width,
        0 <= height,
    ensures
        ({
            let radii = fitted_radii(width, height, asked);
            let (n, d) = share;
            let top = asked_along(asked.top_left.width, asked.top_right.width);
            let bottom = asked_along(asked.bottom_left.width, asked.bottom_right.width);
            let left = asked_along(asked.top_left.height, asked.bottom_left.height);
            let right = asked_along(asked.top_right.height, asked.bottom_right.height);
            &&& 0 < d
            &&& 0 <= n
            &&& is_share_of(asked.top_left, radii.top_left, n, d)
            &&& is_share_of(asked.top_right, radii.top_right, n, d)
            &&& is_share_of(asked.bottom_right, radii.bottom_right, n, d)
            &&& is_share_of(asked.bottom_left, radii.bottom_left, n, d)
            &&& {
                ||| n == d
                ||| n == width && (d == top || d == bottom)
                ||| n == height && (d == left || d == right)
            }
            &&& top <= width && bottom <= width && left <= height && right <= height ==> n == d
        }),
{
    let radii = Radii {
        top_left: radius_of(asked.top_left),
        top_right: radius_of(asked.top_right),
        bottom_right: radius_of(asked.bottom_right),
        bottom_left: radius_of(asked.bottom_left),
    };
    let ratio = overlap_ratio(width, height, radii);
    let share = if ratio.0 < ratio.1 {
        ratio
    } else {
        (1int, 1int)
    };
    let (n, d) = share;
    lemma_ratio_is_an_edge(width, height, radii);
    lemma_share(radii.top_left.0, n, d);
    lemma_share(radii.top_left.1, n, d);
    lemma_share(radii.top_right.0, n, d);
    lemma_share(radii.top_right.1, n, d);
    lemma_share(radii.bottom_right.0, n, d);
    lemma_share(radii.bottom_right.1, n, d);
    lemma_share(radii.bottom_left.0, n, d);
    lemma_share(radii.bottom_left.1, n, d);
    share
}

proof fn lemma_ratio_is_an_edge(width: int, height: int, radii: Radii)
    requires
        0 <= width,
        0 <= height,
        0 <= radii.top_left.0 && 0 <= radii.top_left.1,
        0 <= radii.top_right.0 && 0 <= radii.top_right.1,
        0 <= radii.bottom_right.0 && 0 <= radii.bottom_right.1,
        0 <= radii.bottom_left.0 && 0 <= radii.bottom_left.1,
    ensures
        ({
            let ratio = overlap_ratio(width, height, radii);
            let top = radii.top_left.0 + radii.top_right.0;
            let bottom = radii.bottom_left.0 + radii.bottom_right.0;
            let left = radii.top_left.1 + radii.bottom_left.1;
            let right = radii.top_right.1 + radii.bottom_right.1;
            &&& 0 <= ratio.0 && 0 < ratio.1
            &&& {
                ||| ratio == (1int, 1int)
                ||| ratio == (width, top) || ratio == (width, bottom)
                ||| ratio == (height, left) || ratio == (height, right)
            }
            &&& top <= width && bottom <= width && left <= height && right <= height ==> ratio == (
                1int,
                1int,
            )
        }),
{
    let top = radii.top_left.0 + radii.top_right.0;
    let bottom = radii.bottom_left.0 + radii.bottom_right.0;
    let left = radii.top_left.1 + radii.bottom_left.1;
    let right = radii.top_right.1 + radii.bottom_right.1;
    let r0 = (1int, 1int);
    let r1 = tighter(r0, width, top);
    let r2 = tighter(r1, width, bottom);
    let r3 = tighter(r2, height, left);
    let r4 = tighter(r3, height, right);
    assert(width * 1 == width && height * 1 == height);
    assert(1 * top == top && 1 * bottom == bottom && 1 * left == left && 1 * right == right);
}

/// Whether a point is another under a scale, each coordinate to the nearest.
pub open spec fn is_scaled(
    now: Point<ScaledPixels>,
    was: Point<Pixels>,
    factor: int,
) -> bool {
    &&& 65536 * i64::MIN <= was.x.0 * factor <= 65536 * i64::MAX ==> is_nearest(
        now.x.0 as int,
        was.x.0 * factor,
        ONE as int,
    )
    &&& 65536 * i64::MIN <= was.y.0 * factor <= 65536 * i64::MAX ==> is_nearest(
        now.y.0 as int,
        was.y.0 * factor,
        ONE as int,
    )
}

/// Under a scale, every point of a segment is moved to the scale's multiple of
/// it, and the segment goes on being of its kind.
pub proof fn outlines_scale_point_by_point(segment: ClipPathSegment<Pixels>, factor: int)
    ensures
        match (segment, segment.scaled(factor)) {
            (ClipPathSegment::MoveTo(was), ClipPathSegment::MoveTo(now)) => is_scaled(
                now,
                was,
                factor,
            ),
            (ClipPathSegment::LineTo(was), ClipPathSegment::LineTo(now)) => is_scaled(
                now,
                was,
                factor,
            ),
            (
                ClipPathSegment::QuadTo { control: a, to: b },
                ClipPathSegment::QuadTo { control, to },
            ) => is_scaled(control, a, factor) && is_scaled(to, b, factor),
            (
                ClipPathSegment::CubicTo { control1: a, control2: b, to: c },
                ClipPathSegment::CubicTo { control1, control2, to },
            ) => is_scaled(control1, a, factor) && is_scaled(control2, b, factor) && is_scaled(
                to,
                c,
                factor,
            ),
            (ClipPathSegment::Close, ClipPathSegment::Close) => true,
            _ => false,
        },
{
    match segment {
        ClipPathSegment::MoveTo(to) => lemma_scales(to, factor),
        ClipPathSegment::LineTo(to) => lemma_scales(to, factor),
        ClipPathSegment::QuadTo { control, to } => {
            lemma_scales(control, factor);
            lemma_scales(to, factor);
        },
        ClipPathSegment::CubicTo { control1, control2, to } => {
            lemma_scales(control1, factor);
            lemma_scales(control2, factor);
            lemma_scales(to, factor);
        },
        ClipPathSegment::Close => {},
    }
}

proof fn lemma_scales(was: Point<Pixels>, factor: int)
    ensures
        is_scaled(scaled_point(was, factor), was, factor),
{
    if 65536 * i64::MIN <= was.x.0 * factor <= 65536 * i64::MAX {
        lemma_rounds(was.x.0 * factor, 65536);
    }
    if 65536 * i64::MIN <= was.y.0 * factor <= 65536 * i64::MAX {
        lemma_rounds(was.y.0 * factor, 65536);
    }
}

} // verus!
