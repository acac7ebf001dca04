//! What the triangles of a path cover.

use crate::fixed::{is_nearest, lemma_rounds, nearest, product, ONE};
use crate::geometry::{ContentMask, Pixels, Place, Point};
use crate::scene::insert_laws::is_modest;
use crate::scene::path::{PathModel, PathVertex, Triangle};
use vstd::prelude::*;

verus! {

/// Whether a place can be held.
pub open spec fn can_be_held(at: Place) -> bool {
    i64::MIN <= at.x <= i64::MAX && i64::MIN <= at.y <= i64::MAX
}

/// Where a quadratic curve is `i` parts of `n` along it, times `n * n`, for one
/// coordinate of its ends and its control point.
pub open spec fn on_curve(a: int, control: int, b: int, i: int, n: int) -> int {
    (n - i) * (n - i) * a + 2 * (i * (n - i)) * control + i * i * b
}

/// Whether a vertex is in a place.
pub open spec fn is_at(vertex: PathVertex<Pixels>, at: Place) -> bool {
    vertex.xy_position.x.0 == at.x && vertex.xy_position.y.0 == at.y
}

/// Whether the square of a vertex's first texture coordinate is less than its
/// second: it is inside whatever curve there is.
pub open spec fn is_inside(vertex: PathVertex<Pixels>) -> bool {
    vertex.st_position.x * vertex.st_position.x < vertex.st_position.y * ONE
}

/// A curve adds a triangle of its two ends and its control point, in whose
/// texture coordinates the curve is where the square of the first is the second:
/// at every part of the way, what the corners' coordinates come to there. The
/// control point is outside it.
pub proof fn curves_are_where_the_square_is(
    path: PathModel<Pixels>,
    to: Place,
    control: Place,
    i: int,
    n: int,
)
    requires
        can_be_held(path.current),
        can_be_held(to),
        can_be_held(control),
        0 <= i <= n,
    ensures
        ({
            let after = path.curved_to(to, control);
            let k = after.vertices.len() as int;
            let (a, b, c) = (after.vertices[k - 3], after.vertices[k - 2], after.vertices[k - 1]);
            let s = on_curve(
                a.st_position.x as int,
                b.st_position.x as int,
                c.st_position.x as int,
                i,
                n,
            );
            let t = on_curve(
                a.st_position.y as int,
                b.st_position.y as int,
                c.st_position.y as int,
                i,
                n,
            );
            &&& k >= path.vertices.len() + 3
            &&& is_at(a, path.current)
            &&& is_at(b, control)
            &&& is_at(c, to)
            &&& s * s == t * ONE * (n * n)
            &&& b.st_position.x * b.st_position.x > b.st_position.y * ONE
            &&& after.current == to
            &&& after.start == path.start
        }),
{
    let one: int = 65536;
    let half: int = 32768;
    let ahead = n - i;
    let after = path.curved_to(to, control);
    let k = after.vertices.len() as int;
    let (a, b, c) = (after.vertices[k - 3], after.vertices[k - 2], after.vertices[k - 1]);
    assert(b.st_position.x == 32768);
    let s = on_curve(0, half, one, i, n);
    let t = on_curve(0, 0, one, i, n);
    assert(s == one * (i * n)) by (nonlinear_arith)
        requires
            ahead == n - i,
            half == 32768,
            one == 65536,
            s == ahead * ahead * 0 + 2 * (i * ahead) * half + i * i * one,
    ;
    assert(t == i * i * one) by (nonlinear_arith)
        requires
            t == ahead * ahead * 0 + 2 * (i * ahead) * 0 + i * i * one,
    ;
    let x = i * n;
    assert(s * s == (one * one) * (x * x)) by (nonlinear_arith)
        requires
            s == one * x,
    ;
    assert(x * x == (i * i) * (n * n)) by (nonlinear_arith)
        requires
            x == i * n,
    ;
    let squares = i * i;
    let parts = n * n;
    assert((squares * one) * one * parts == (one * one) * (squares * parts)) by (nonlinear_arith);
    assert(32768 * 32768 > 0 * ONE);
}

/// A side of a contour that is not its first adds the triangle of the contour's
/// start and the side's ends, all of which is covered.
pub proof fn sides_fan_out_from_the_start(path: PathModel<Pixels>, to: Place)
    requires
        can_be_held(path.start),
        can_be_held(path.current),
        can_be_held(to),
    ensures
        ({
            let after = path.lined_to(to);
            let k = after.vertices.len() as int;
            &&& after.current == to
            &&& after.start == path.start
            &&& path.contour_count == 0 ==> after.vertices == path.vertices
            &&& path.contour_count > 0 ==> {
                &&& k == path.vertices.len() + 3
                &&& after.vertices.take(k - 3) == path.vertices
                &&& is_at(after.vertices[k - 3], path.start) && is_inside(after.vertices[k - 3])
                &&& is_at(after.vertices[k - 2], path.current) && is_inside(after.vertices[k - 2])
                &&& is_at(after.vertices[k - 1], to) && is_inside(after.vertices[k - 1])
            }
        }),
{
    let after = path.lined_to(to);
    assert(0 * 0 < ONE * ONE) by (nonlinear_arith)
        requires
            ONE == 65536,
    ;
    if path.contour_count > 0 {
        assert(after.vertices.take(after.vertices.len() - 3) =~= path.vertices);
    }
}

/// A path begins as a point with nothing drawn, and a move begins a contour
/// anew, where it goes to, and draws nothing.
pub proof fn moves_begin_a_contour(path: PathModel<Pixels>, at: Place)
    ensures
        ({
            let begun = PathModel::begun_at(at);
            &&& begun.vertices.len() == 0
            &&& begun.start == at && begun.current == at
            &&& begun.bounds.x == at.x && begun.bounds.y == at.y
            &&& begun.bounds.width == 0 && begun.bounds.height == 0
            &&& begun.contour_count == 0
        }),
        ({
            let moved = path.moved_to(at);
            &&& moved.vertices == path.vertices
            &&& moved.bounds == path.bounds
            &&& moved.start == at && moved.current == at
            &&& moved.contour_count > 0
        }),
{
}

/// Twice the area between the origin and two places, counted by the way round.
pub open spec fn cross(a: Place, b: Place) -> int {
    a.x * b.y - a.y * b.x
}

/// Twice the area that triangles cover, counted by the way round.
pub open spec fn area_covered(vertices: Seq<PathVertex<Pixels>>) -> int
    decreases vertices.len(),
{
    if vertices.len() < 3 {
        0
    } else {
        let k = vertices.len();
        let a = vertices[k - 3].xy_position;
        let b = vertices[k - 2].xy_position;
        let c = vertices[k - 1].xy_position;
        area_covered(vertices.take(k - 3)) + (b.x.0 - a.x.0) * (c.y.0 - a.y.0) - (b.y.0 - a.y.0)
            * (c.x.0 - a.x.0)
    }
}

/// Twice the area under the sides from corner to corner.
pub open spec fn area_under(corners: Seq<Place>) -> int
    decreases corners.len(),
{
    if corners.len() < 2 {
        0
    } else {
        area_under(corners.drop_last()) + cross(corners[corners.len() - 2], corners.last())
    }
}

/// A path begun at the first of some corners, with a side to each other one.
pub open spec fn drawn_through(corners: Seq<Place>) -> PathModel<Pixels>
    decreases corners.len(),
{
    if corners.len() <= 1 {
        PathModel::begun_at(corners[0])
    } else {
        drawn_through(corners.drop_last()).lined_to(corners.last())
    }
}

/// The triangles of an outline of straight sides cover its area, the last corner
/// joined to the first, whichever way round it goes.
pub proof fn triangles_cover_the_outline(corners: Seq<Place>)
    requires
        corners.len() > 0,
        forall|i: int| 0 <= i < corners.len() ==> can_be_held(#[trigger] corners[i]),
    ensures
        area_covered(drawn_through(corners).vertices) == area_under(corners) + cross(
            corners.last(),
            corners[0],
        ),
        drawn_through(corners).start == corners[0],
        drawn_through(corners).current == corners.last(),
        drawn_through(corners).contour_count == corners.len() - 1,
    decreases corners.len(),
{
    let path = drawn_through(corners);
    let a = corners[0];
    if corners.len() == 1 {
        assert(a.x * a.y == a.y * a.x) by (nonlinear_arith);
    } else {
        let rest = corners.drop_last();
        let before = drawn_through(rest);
        assert forall|i: int| 0 <= i < rest.len() implies can_be_held(#[trigger] rest[i]) by {
            assert(rest[i] == corners[i]);
        }
        triangles_cover_the_outline(rest);
        let b = rest.last();
        let c = corners.last();
        assert(b == corners[corners.len() - 2]);
        assert(can_be_held(c));
        assert(can_be_held(a));
        assert(can_be_held(b));
        sides_fan_out_from_the_start(before, c);
        let (ax, ay, bx, by, cx, cy) = (a.x, a.y, b.x, b.y, c.x, c.y);
        assert((bx - ax) * (cy - ay) == bx * cy - bx * ay - ax * cy + ax * ay) by (nonlinear_arith);
        assert((by - ay) * (cx - ax) == by * cx - by * ax - ay * cx + ay * ax) by (nonlinear_arith);
        assert(ax * ay == ay * ax && ax * cy == cy * ax && ay * cx == cx * ay && ax * by == by * ax
            && ay * bx == bx * ay) by (nonlinear_arith);
        if before.contour_count > 0 {
            let k = path.vertices.len();
            assert(path.vertices.take(k - 3) =~= before.vertices);
        } else {
            assert(rest.len() == 1);
            assert(b == a);
            assert(area_under(rest) == 0);
        }
    }
}

/// A triangle's corners are in the path's box once it is added, and so is what
/// was there before; and no side of the box is moved further than it has to be.
pub proof fn boxes_hold_their_triangles(
    path: PathModel<Pixels>,
    triangle: Triangle<Pixels>,
    x: int,
    y: int,
)
    requires
        is_modest(path.bounds),
        is_modest_place(triangle.a.xy_position),
        is_modest_place(triangle.b.xy_position),
        is_modest_place(triangle.c.xy_position),
    ensures
        ({
            let (a, b, c) = (
                triangle.a.xy_position@,
                triangle.b.xy_position@,
                triangle.c.xy_position@,
            );
            let was = path.bounds;
            let now = path.with_triangle(triangle).bounds;
            &&& now.holds(a.x, a.y) && now.holds(b.x, b.y) && now.holds(c.x, c.y)
            &&& was.holds(x, y) ==> now.holds(x, y)
            &&& now.x == was.x || now.x == a.x || now.x == b.x || now.x == c.x
            &&& now.y == was.y || now.y == a.y || now.y == b.y || now.y == c.y
            &&& {
                ||| now.right() == was.right()
                ||| now.right() == a.x
                ||| now.right() == b.x
                ||| now.right() == c.x
            }
            &&& {
                ||| now.bottom() == was.bottom()
                ||| now.bottom() == a.y
                ||| now.bottom() == b.y
                ||| now.bottom() == c.y
            }
        }),
{
}

/// Whether a point's numbers are far from the ends of what can be held.
pub open spec fn is_modest_place(at: Point<Pixels>) -> bool {
    &&& -0x800_0000_0000_0000 <= at.x.0 <= 0x800_0000_0000_0000
    &&& -0x800_0000_0000_0000 <= at.y.0 <= 0x800_0000_0000_0000
}

/// Under a scale, every corner of a path is moved to the scale's multiple of it,
/// to the nearest step, and its texture coordinates stay.
pub proof fn scaled_paths_keep_their_shape(path: PathModel<Pixels>, factor: int, i: int)
    requires
        0 <= i < path.vertices.len(),
        ({
            let at = path.vertices[i].xy_position;
            &&& 65536 * i64::MIN <= at.x.0 * factor <= 65536 * i64::MAX
            &&& 65536 * i64::MIN <= at.y.0 * factor <= 65536 * i64::MAX
        }),
    ensures
        ({
            let was = path.vertices[i];
            let now = path.scaled(factor).vertices[i];
            &&& path.scaled(factor).vertices.len() == path.vertices.len()
            &&& is_nearest(
                now.xy_position.x.0 as int,
                was.xy_position.x.0 * factor,
                ONE as int,
            )
            &&& is_nearest(
                now.xy_position.y.0 as int,
                was.xy_position.y.0 * factor,
                ONE as int,
            )
            &&& now.st_position == was.st_position
            &&& path.scaled(factor).color == path.color
            &&& path.scaled(factor).brush == path.brush
        }),
{
    let at = path.vertices[i].xy_position;
    lemma_rounds(at.x.0 * factor, 65536);
    lemma_rounds(at.y.0 * factor, 65536);
}

/// Whether a number is the factor's multiple of another, to the nearest, where
/// that can be held.
pub open spec fn is_multiple(now: int, was: int, factor: int) -> bool {
    65536 * i64::MIN <= was * factor <= 65536 * i64::MAX ==> is_nearest(
        now,
        was * factor,
        ONE as int,
    )
}

proof fn lemma_multiple(was: int, factor: int)
    ensures
        is_multiple(product(was, factor), was, factor),
        i64::MIN <= product(was, factor) <= i64::MAX,
{
    if 65536 * i64::MIN <= was * factor <= 65536 * i64::MAX {
        lemma_rounds(was * factor, 65536);
    }
}

/// Under a scale, a path's box and its mask's, where its contour began and where
/// it has got to are all the scale's multiples, and its number, order and clip
/// stay.
pub proof fn scaled_paths_keep_their_place(path: PathModel<Pixels>, factor: int)
    ensures
        ({
            let now = path.scaled(factor);
            let mask = path.content_mask.bounds@;
            &&& is_multiple(now.bounds.x, path.bounds.x, factor)
            &&& is_multiple(now.bounds.y, path.bounds.y, factor)
            &&& is_multiple(now.bounds.width, path.bounds.width, factor)
            &&& is_multiple(now.bounds.height, path.bounds.height, factor)
            &&& is_multiple(now.content_mask.bounds@.x, mask.x, factor)
            &&& is_multiple(now.content_mask.bounds@.y, mask.y, factor)
            &&& is_multiple(now.content_mask.bounds@.width, mask.width, factor)
            &&& is_multiple(now.content_mask.bounds@.height, mask.height, factor)
            &&& is_multiple(now.start.x, path.start.x, factor)
            &&& is_multiple(now.start.y, path.start.y, factor)
            &&& is_multiple(now.current.x, path.current.x, factor)
            &&& is_multiple(now.current.y, path.current.y, factor)
            &&& now.id == path.id && now.order == path.order && now.clip == path.clip
            &&& now.contour_count == path.contour_count
        }),
{
    let mask = path.content_mask.bounds@;
    lemma_multiple(path.bounds.x, factor);
    lemma_multiple(path.bounds.y, factor);
    lemma_multiple(path.bounds.width, factor);
    lemma_multiple(path.bounds.height, factor);
    lemma_multiple(mask.x, factor);
    lemma_multiple(mask.y, factor);
    lemma_multiple(mask.width, factor);
    lemma_multiple(mask.height, factor);
    lemma_multiple(path.start.x, factor);
    lemma_multiple(path.start.y, factor);
    lemma_multiple(path.current.x, factor);
    lemma_multiple(path.current.y, factor);
}

/// Under a scale, each corner of a mask keeps its own radius, multiplied.
pub proof fn scaled_masks_keep_their_corners(mask: ContentMask<Pixels>, factor: int)
    ensures
        ({
            let was = mask.corner_radii;
            let now = mask.scaled(factor).corner_radii;
            &&& is_multiple(now.top_left.0 as int, was.top_left.0 as int, factor)
            &&& is_multiple(now.top_right.0 as int, was.top_right.0 as int, factor)
            &&& is_multiple(now.bottom_right.0 as int, was.bottom_right.0 as int, factor)
            &&& is_multiple(now.bottom_left.0 as int, was.bottom_left.0 as int, factor)
        }),
{
    let was = mask.corner_radii;
    lemma_multiple(was.top_left.0 as int, factor);
    lemma_multiple(was.top_right.0 as int, factor);
    lemma_multiple(was.bottom_right.0 as int, factor);
    lemma_multiple(was.bottom_left.0 as int, factor);
}

} // verus!
