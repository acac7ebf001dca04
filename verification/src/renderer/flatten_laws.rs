//! What holds of flattened outlines.

use crate::clip_path::ClipPathSegment;
use crate::fixed::{is_nearest, lemma_rounds, ONE};
use crate::geometry::{Place, Point, ScaledPixels};
use crate::renderer::flatten::{
    bend_of, cubic_at, cubic_points, cubic_steps, curves_end_where_they_should, lemma_steps_from,
    polygons_of, quadratic_at, quadratic_points, quadratic_steps, Tracing, MAX_FLATTEN_STEPS,
};
use vstd::prelude::*;

verus! {

/// What lies `step` of `steps` of the way from `a` to `b`, `steps` times as
/// large.
pub open spec fn along(a: int, b: int, step: int, steps: int) -> int {
    (steps - step) * a + step * b
}

/// The point of a quadratic curve `step` of `steps` of the way along it,
/// `steps^2` times as large: what lies so far along the line between the points
/// that lie so far along its two sides.
pub open spec fn along_two(a: int, b: int, c: int, step: int, steps: int) -> int {
    along(along(a, b, step, steps), along(b, c, step, steps), step, steps)
}

/// The point of a cubic curve `step` of `steps` of the way along it, `steps^3`
/// times as large, found the same way from its three sides.
pub open spec fn along_three(a: int, b: int, c: int, d: int, step: int, steps: int) -> int {
    along(along_two(a, b, c, step, steps), along_two(b, c, d, step, steps), step, steps)
}

pub open spec fn is_coordinate(v: int) -> bool {
    i64::MIN <= v <= i64::MAX
}

pub open spec fn is_place(at: Place) -> bool {
    is_coordinate(at.x) && is_coordinate(at.y)
}

proof fn lemma_along_bounds(a: int, b: int, step: int, steps: int, low: int, high: int)
    requires
        0 <= step <= steps,
        low <= a <= high,
        low <= b <= high,
    ensures
        steps * low <= along(a, b, step, steps) <= steps * high,
{
    let rest = steps - step;
    assert(rest * low <= rest * a <= rest * high) by (nonlinear_arith)
        requires
            0 <= rest,
            low <= a <= high,
    ;
    assert(step * low <= step * b <= step * high) by (nonlinear_arith)
        requires
            0 <= step,
            low <= b <= high,
    ;
    assert(rest * low + step * low == steps * low) by (nonlinear_arith)
        requires
            rest == steps - step,
    ;
    assert(rest * high + step * high == steps * high) by (nonlinear_arith)
        requires
            rest == steps - step,
    ;
}

proof fn lemma_two_expanded(a: int, b: int, c: int, r: int, s: int)
    ensures
        r * (r * a + s * b) + s * (r * b + s * c) == r * r * a + 2 * (r * s) * b + s * s * c,
{
    assert(r * (r * a + s * b) == r * r * a + (r * s) * b) by (nonlinear_arith);
    assert(s * (r * b + s * c) == (r * s) * b + s * s * c) by (nonlinear_arith);
    assert(2 * (r * s) * b == 2 * ((r * s) * b)) by (nonlinear_arith);
}

proof fn lemma_three_expanded(a: int, b: int, c: int, d: int, r: int, s: int)
    ensures
        r * (r * r * a + 2 * (r * s) * b + s * s * c) + s * (r * r * b + 2 * (r * s) * c + s * s
            * d) == r * r * r * a + 3 * (r * r * s) * b + 3 * (r * s * s) * c + s * s * s * d,
{
    let rrs = r * r * s;
    let rss = r * s * s;
    assert(r * (r * r * a) == r * r * r * a) by (nonlinear_arith);
    assert(r * (2 * (r * s) * b) == 2 * (rrs * b)) by (nonlinear_arith)
        requires
            rrs == r * r * s,
    ;
    assert(r * (s * s * c) == rss * c) by (nonlinear_arith)
        requires
            rss == r * s * s,
    ;
    assert(s * (r * r * b) == rrs * b) by (nonlinear_arith)
        requires
            rrs == r * r * s,
    ;
    assert(s * (2 * (r * s) * c) == 2 * (rss * c)) by (nonlinear_arith)
        requires
            rss == r * s * s,
    ;
    assert(s * (s * s * d) == s * s * s * d) by (nonlinear_arith);
    let p = r * r * a;
    let q = 2 * (r * s) * b;
    let t = s * s * c;
    assert(r * (p + q + t) == r * p + r * q + r * t) by (nonlinear_arith);
    let u = r * r * b;
    let v = 2 * (r * s) * c;
    let w = s * s * d;
    assert(s * (u + v + w) == s * u + s * v + s * w) by (nonlinear_arith);
    assert(3 * rrs * b == 3 * (rrs * b)) by (nonlinear_arith);
    assert(3 * rss * c == 3 * (rss * c)) by (nonlinear_arith);
}

proof fn lemma_quadratic_at(a: int, b: int, c: int, step: int, steps: int)
    requires
        0 <= step <= steps,
        0 < steps,
        is_coordinate(a),
        is_coordinate(b),
        is_coordinate(c),
    ensures
        is_nearest(
            quadratic_at(a, b, c, step, steps),
            along_two(a, b, c, step, steps),
            steps * steps,
        ),
{
    let (low, high) = (i64::MIN as int, i64::MAX as int);
    let rest = steps - step;
    lemma_along_bounds(a, b, step, steps, low, high);
    lemma_along_bounds(b, c, step, steps, low, high);
    lemma_along_bounds(
        along(a, b, step, steps),
        along(b, c, step, steps),
        step,
        steps,
        steps * low,
        steps * high,
    );
    assert(steps * (steps * low) == steps * steps * low) by (nonlinear_arith);
    assert(steps * (steps * high) == steps * steps * high) by (nonlinear_arith);
    assert(steps * steps > 0) by (nonlinear_arith)
        requires
            0 < steps,
    ;
    lemma_two_expanded(a, b, c, rest, step);
    lemma_rounds(along_two(a, b, c, step, steps), steps * steps);
}

proof fn lemma_two_bounds(a: int, b: int, c: int, step: int, steps: int)
    requires
        0 <= step <= steps,
        is_coordinate(a),
        is_coordinate(b),
        is_coordinate(c),
    ensures
        steps * steps * i64::MIN <= along_two(a, b, c, step, steps) <= steps * steps * i64::MAX,
{
    let (low, high) = (i64::MIN as int, i64::MAX as int);
    lemma_along_bounds(a, b, step, steps, low, high);
    lemma_along_bounds(b, c, step, steps, low, high);
    lemma_along_bounds(
        along(a, b, step, steps),
        along(b, c, step, steps),
        step,
        steps,
        steps * low,
        steps * high,
    );
    assert(steps * (steps * low) == steps * steps * low) by (nonlinear_arith);
    assert(steps * (steps * high) == steps * steps * high) by (nonlinear_arith);
}

proof fn lemma_cubic_at(a: int, b: int, c: int, d: int, step: int, steps: int)
    requires
        0 <= step <= steps,
        0 < steps,
        is_coordinate(a),
        is_coordinate(b),
        is_coordinate(c),
        is_coordinate(d),
    ensures
        is_nearest(
            cubic_at(a, b, c, d, step, steps),
            along_three(a, b, c, d, step, steps),
            steps * steps * steps,
        ),
{
    let (low, high) = (i64::MIN as int, i64::MAX as int);
    let rest = steps - step;
    lemma_two_bounds(a, b, c, step, steps);
    lemma_two_bounds(b, c, d, step, steps);
    lemma_along_bounds(
        along_two(a, b, c, step, steps),
        along_two(b, c, d, step, steps),
        step,
        steps,
        steps * steps * low,
        steps * steps * high,
    );
    assert(steps * (steps * steps * low) == steps * steps * steps * low) by (nonlinear_arith);
    assert(steps * (steps * steps * high) == steps * steps * steps * high) by (nonlinear_arith);
    assert(steps * steps * steps > 0) by (nonlinear_arith)
        requires
            0 < steps,
    ;
    lemma_two_expanded(a, b, c, rest, step);
    lemma_two_expanded(b, c, d, rest, step);
    lemma_three_expanded(a, b, c, d, rest, step);
    lemma_rounds(along_three(a, b, c, d, step, steps), steps * steps * steps);
}

/// A cubic side of an outline is drawn along its curve: as some points, the
/// `k`th of `n` of which is, to the nearest step, the point `k` of `n` of the
/// way along the curve from where the outline stood, with both of the side's
/// control points; and the outline then stands where the side ends.
pub proof fn cubics_follow_their_curve(
    tracing: Tracing,
    control1: Point<ScaledPixels>,
    control2: Point<ScaledPixels>,
    to: Point<ScaledPixels>,
    k: int,
)
    requires
        is_place(tracing.at),
    ensures
        ({
            let after = tracing.traced(ClipPathSegment::CubicTo { control1, control2, to });
            let before = tracing.contour.len();
            let n = after.contour.len() - before;
            let (a, b, c, d) = (tracing.at, control1, control2, to);
            &&& 1 <= n <= MAX_FLATTEN_STEPS
            &&& after.contour.take(before as int) == tracing.contour
            &&& after.contours == tracing.contours
            &&& after.start == tracing.start
            &&& after.at.x == to.x.0 && after.at.y == to.y.0
            &&& after.contour.last() == after.at
            &&& 1 <= k <= n ==> {
                let at = after.contour[before + k - 1];
                &&& is_nearest(
                    at.x,
                    along_three(a.x, b.x.0 as int, c.x.0 as int, d.x.0 as int, k, n),
                    n * n * n,
                )
                &&& is_nearest(
                    at.y,
                    along_three(a.y, b.y.0 as int, c.y.0 as int, d.y.0 as int, k, n),
                    n * n * n,
                )
            }
        }),
{
    let after = tracing.traced(ClipPathSegment::CubicTo { control1, control2, to });
    let before = tracing.contour.len();
    let n = cubic_steps(tracing.at, control1@, control2@, to@);
    let first = bend_of(tracing.at, control1@, control2@);
    let second = bend_of(control1@, control2@, to@);
    lemma_steps_from(1, 900, first);
    lemma_steps_from(1, 900, second);
    assert(after.contour.len() - before == n);
    assert(after.contour.take(before as int) =~= tracing.contour);
    if 1 <= k <= n {
        assert(after.contour[before + k - 1] == cubic_points(
            tracing.at,
            control1@,
            control2@,
            to@,
            n,
            n as nat,
        )[k - 1]);
        lemma_cubic_at(tracing.at.x, control1@.x, control2@.x, to@.x, k, n);
        lemma_cubic_at(tracing.at.y, control1@.y, control2@.y, to@.y, k, n);
    }
    curves_end_where_they_should(
        tracing.at,
        control1@,
        control2@,
        to@,
        n,
    );
    assert(after.contour.last() == cubic_points(
        tracing.at,
        control1@,
        control2@,
        to@,
        n,
        n as nat,
    ).last());
}

/// A quadratic side of an outline is drawn along its curve in the same way.
pub proof fn quadratics_follow_their_curve(
    tracing: Tracing,
    control: Point<ScaledPixels>,
    to: Point<ScaledPixels>,
    k: int,
)
    requires
        is_place(tracing.at),
    ensures
        ({
            let after = tracing.traced(ClipPathSegment::QuadTo { control, to });
            let before = tracing.contour.len();
            let n = after.contour.len() - before;
            let (a, b, c) = (tracing.at, control, to);
            &&& 1 <= n <= MAX_FLATTEN_STEPS
            &&& after.contour.take(before as int) == tracing.contour
            &&& after.contours == tracing.contours
            &&& after.start == tracing.start
            &&& after.at.x == to.x.0 && after.at.y == to.y.0
            &&& after.contour.last() == after.at
            &&& 1 <= k <= n ==> {
                let at = after.contour[before + k - 1];
                &&& is_nearest(at.x, along_two(a.x, b.x.0 as int, c.x.0 as int, k, n), n * n)
                &&& is_nearest(at.y, along_two(a.y, b.y.0 as int, c.y.0 as int, k, n), n * n)
            }
        }),
{
    let after = tracing.traced(ClipPathSegment::QuadTo { control, to });
    let before = tracing.contour.len();
    let n = quadratic_steps(tracing.at, control@, to@);
    lemma_steps_from(1, 100, bend_of(tracing.at, control@, to@));
    assert(after.contour.len() - before == n);
    assert(after.contour.take(before as int) =~= tracing.contour);
    if 1 <= k <= n {
        assert(after.contour[before + k - 1] == quadratic_points(
            tracing.at,
            control@,
            to@,
            n,
            n as nat,
        )[k - 1]);
        lemma_quadratic_at(tracing.at.x, control@.x, to@.x, k, n);
        lemma_quadratic_at(tracing.at.y, control@.y, to@.y, k, n);
    }
    curves_end_where_they_should(tracing.at, control@, to@, to@, n);
    assert(after.contour.last() == quadratic_points(
        tracing.at,
        control@,
        to@,
        n,
        n as nat,
    ).last());
}

/// A straight side of an outline adds the point that it ends at, and nothing
/// else.
pub proof fn lines_go_straight_to_their_end(tracing: Tracing, to: Point<ScaledPixels>)
    ensures
        ({
            let after = tracing.traced(ClipPathSegment::LineTo(to));
            let end = Place { x: to.x.0 as int, y: to.y.0 as int };
            &&& after.contour == tracing.contour.push(end)
            &&& after.at == end
            &&& after.start == tracing.start
            &&& after.contours == tracing.contours
        }),
{
}

/// Moving, and closing an outline, both finish it: it is kept exactly where it
/// has three points at least. The next outline begins where the outline is
/// moved to, or where the closed one began.
pub proof fn outlines_are_finished_where_they_end(tracing: Tracing, to: Point<ScaledPixels>)
    ensures
        ({
            let moved = tracing.traced(ClipPathSegment::MoveTo(to));
            let closed = tracing.traced(ClipPathSegment::Close);
            let end = Place { x: to.x.0 as int, y: to.y.0 as int };
            &&& moved.contour == seq![end] && moved.at == end && moved.start == end
            &&& closed.contour == seq![tracing.start] && closed.at == tracing.start
                && closed.start == tracing.start
            &&& moved.contours == closed.contours
            &&& tracing.contour.len() >= 3 ==> moved.contours == tracing.contours.push(
                tracing.contour,
            )
            &&& tracing.contour.len() < 3 ==> moved.contours == tracing.contours
        }),
{
}

/// A path's polygons are the outlines that are finished by the end of its
/// sides, and the one that is still being drawn there, where it has three
/// points at least.
pub proof fn polygons_are_the_finished_outlines(
    segments: Seq<ClipPathSegment<ScaledPixels>>,
    to: Point<ScaledPixels>,
)
    ensures
        polygons_of(segments) == Tracing::traced_all(
            segments.push(ClipPathSegment::MoveTo(to)),
        ).contours,
        Tracing::traced_all(segments.push(ClipPathSegment::MoveTo(to)))
            == Tracing::traced_all(segments).traced(ClipPathSegment::MoveTo(to)),
        polygons_of(Seq::empty()).len() == 0,
{
    let all = segments.push(ClipPathSegment::MoveTo(to));
    assert(all.drop_last() =~= segments);
    assert(all.last() == ClipPathSegment::MoveTo(to));
}

/// How far the middle of a quadratic curve's `k`th piece of `n` is from the
/// middle of the line that is drawn for it, `4 * n^2` times as large.
pub open spec fn sag_of_two(a: int, b: int, c: int, k: int, n: int) -> int {
    along_two(a, b, c, 2 * k + 1, 2 * n) - 2 * (along_two(a, b, c, k, n) + along_two(
        a,
        b,
        c,
        k + 1,
        n,
    ))
}

/// How far the middle of a cubic curve's `k`th piece of `n` is from the middle
/// of the line that is drawn for it, `8 * n^3` times as large.
pub open spec fn sag_of_three(a: int, b: int, c: int, d: int, k: int, n: int) -> int {
    along_three(a, b, c, d, 2 * k + 1, 2 * n) - 4 * (along_three(a, b, c, d, k, n) + along_three(
        a,
        b,
        c,
        d,
        k + 1,
        n,
    ))
}

proof fn lemma_sag_of_two(a: int, b: int, c: int, k: int, n: int)
    ensures
        sag_of_two(a, b, c, k, n) == -(a - 2 * b + c),
{
    let r = n - k;
    let (p, q) = (2 * r - 1, 2 * k + 1);
    let (t, u) = (r - 1, k + 1);
    lemma_two_expanded(a, b, c, p, q);
    lemma_two_expanded(a, b, c, r, k);
    lemma_two_expanded(a, b, c, t, u);
    assert(p * p == 2 * (r * r + t * t) - 1) by (nonlinear_arith)
        requires
            p == 2 * r - 1,
            t == r - 1,
    ;
    assert(q * q == 2 * (k * k + u * u) - 1) by (nonlinear_arith)
        requires
            q == 2 * k + 1,
            u == k + 1,
    ;
    assert(p * q == 2 * (r * k + t * u) + 1) by (nonlinear_arith)
        requires
            p == 2 * r - 1,
            q == 2 * k + 1,
            t == r - 1,
            u == k + 1,
    ;
    lemma_weights(p * p, r * r, t * t, a, -1, 2);
    lemma_weights(q * q, k * k, u * u, c, -1, 2);
    lemma_weights(p * q, r * k, t * u, b, 1, 2);
    assert(2 * (p * q) * b == 2 * ((p * q) * b)) by (nonlinear_arith);
    assert(2 * (r * k) * b == 2 * ((r * k) * b)) by (nonlinear_arith);
    assert(2 * (t * u) * b == 2 * ((t * u) * b)) by (nonlinear_arith);
}

proof fn lemma_weights(w: int, x: int, y: int, v: int, more: int, times: int)
    requires
        w == times * (x + y) + more,
    ensures
        w * v == times * (x * v + y * v) + more * v,
{
    assert(w * v == times * (x * v + y * v) + more * v) by (nonlinear_arith)
        requires
            w == times * (x + y) + more,
    ;
}

/// The lines that a quadratic side is drawn as stay within a tenth of a pixel
/// of the curve, in the middle of each of them, where not even the most lines
/// are drawn.
pub proof fn quadratics_are_drawn_closely(
    tracing: Tracing,
    control: Point<ScaledPixels>,
    to: Point<ScaledPixels>,
    k: int,
)
    ensures
        ({
            let after = tracing.traced(ClipPathSegment::QuadTo { control, to });
            let n = after.contour.len() - tracing.contour.len();
            let x = sag_of_two(tracing.at.x, control.x.0 as int, to.x.0 as int, k, n);
            let y = sag_of_two(tracing.at.y, control.y.0 as int, to.y.0 as int, k, n);
            0 <= k < n < MAX_FLATTEN_STEPS ==> 100 * (x * x + y * y) <= (4 * n * n * ONE) * (4 * n
                * n * ONE)
        }),
{
    let n = quadratic_steps(tracing.at, control@, to@);
    let bend = bend_of(tracing.at, control@, to@);
    lemma_steps_from(1, 100, bend);
    lemma_sag_of_two(tracing.at.x, control@.x, to@.x, k, n);
    lemma_sag_of_two(tracing.at.y, control@.y, to@.y, k, n);
    let x = tracing.at.x - 2 * control@.x + to@.x;
    let y = tracing.at.y - 2 * control@.y + to@.y;
    assert((-x) * (-x) == x * x) by (nonlinear_arith);
    assert((-y) * (-y) == y * y) by (nonlinear_arith);
}

/// One more step along a quadratic curve.
proof fn lemma_two_moves(a: int, b: int, c: int, k: int, n: int)
    ensures
        along_two(a, b, c, k + 1, n) - along_two(a, b, c, k, n) == along(
            b - a,
            c - b,
            2 * k + 1,
            2 * n,
        ),
{
    let r = n - k;
    let (p, q) = (2 * r - 1, 2 * k + 1);
    let (t, u) = (r - 1, k + 1);
    lemma_two_expanded(a, b, c, r, k);
    lemma_two_expanded(a, b, c, t, u);
    assert(t * t == r * r - p) by (nonlinear_arith)
        requires
            t == r - 1,
            p == 2 * r - 1,
    ;
    assert(u * u == k * k + q) by (nonlinear_arith)
        requires
            u == k + 1,
            q == 2 * k + 1,
    ;
    assert(2 * (t * u) == 2 * (r * k) + p - q) by (nonlinear_arith)
        requires
            t == r - 1,
            u == k + 1,
            p == 2 * r - 1,
            q == 2 * k + 1,
    ;
    assert(t * t * a == r * r * a - p * a) by (nonlinear_arith)
        requires
            t * t == r * r - p,
    ;
    assert(u * u * c == k * k * c + q * c) by (nonlinear_arith)
        requires
            u * u == k * k + q,
    ;
    assert(2 * (t * u) * b == 2 * (r * k) * b + p * b - q * b) by (nonlinear_arith)
        requires
            2 * (t * u) == 2 * (r * k) + p - q,
    ;
    assert(p * (b - a) == p * b - p * a) by (nonlinear_arith);
    assert(q * (c - b) == q * c - q * b) by (nonlinear_arith);
}

proof fn lemma_sag_of_three(a: int, b: int, c: int, d: int, k: int, n: int)
    ensures
        sag_of_three(a, b, c, d, k, n) == -3 * along(
            a - 2 * b + c,
            b - 2 * c + d,
            2 * k + 1,
            2 * n,
        ),
{
    let r = n - k;
    let (p, q) = (2 * r - 1, 2 * k + 1);
    let (t, u) = (r - 1, k + 1);
    let (a0, a1) = (along_two(a, b, c, k, n), along_two(a, b, c, k + 1, n));
    let (b0, b1) = (along_two(b, c, d, k, n), along_two(b, c, d, k + 1, n));
    let (e, f) = (a - 2 * b + c, b - 2 * c + d);
    lemma_sag_of_two(a, b, c, k, n);
    lemma_sag_of_two(b, c, d, k, n);
    lemma_two_moves(a, b, c, k, n);
    lemma_two_moves(b, c, d, k, n);
    let x = 2 * (a0 + a1) - e;
    let y = 2 * (b0 + b1) - f;
    assert(along_two(a, b, c, 2 * k + 1, 2 * n) == x);
    assert(along_two(b, c, d, 2 * k + 1, 2 * n) == y);
    assert(2 * n - (2 * k + 1) == p);
    assert(p * x == 4 * (r * a0 + t * a1) - 2 * a0 + 2 * a1 - p * e) by {
        assert(p * x == 2 * (p * a0) + 2 * (p * a1) - p * e) by (nonlinear_arith)
            requires
                x == 2 * (a0 + a1) - e,
        ;
        assert(p * a0 == 2 * (r * a0) - a0) by (nonlinear_arith)
            requires
                p == 2 * r - 1,
        ;
        assert(p * a1 == 2 * (t * a1) + a1) by (nonlinear_arith)
            requires
                p == 2 * t + 1,
        ;
    }
    assert(q * y == 4 * (k * b0 + u * b1) + 2 * b0 - 2 * b1 - q * f) by {
        assert(q * y == 2 * (q * b0) + 2 * (q * b1) - q * f) by (nonlinear_arith)
            requires
                y == 2 * (b0 + b1) - f,
        ;
        assert(q * b0 == 2 * (k * b0) + b0) by (nonlinear_arith)
            requires
                q == 2 * k + 1,
        ;
        assert(q * b1 == 2 * (u * b1) - b1) by (nonlinear_arith)
            requires
                q == 2 * u - 1,
        ;
    }
    assert(p * (b - a) - p * (c - b) == -(p * e)) by (nonlinear_arith)
        requires
            e == a - 2 * b + c,
    ;
    assert(q * (c - b) - q * (d - c) == -(q * f)) by (nonlinear_arith)
        requires
            f == b - 2 * c + d,
    ;
}

proof fn lemma_square_of_sum(p: int, q: int, u: int, v: int)
    ensures
        (p * u + q * v) * (p * u + q * v) == p * p * (u * u) + 2 * (p * q) * (u * v) + q * q * (v
            * v),
{
    let (m, w) = (p * u, q * v);
    assert((m + w) * (m + w) == m * m + 2 * (m * w) + w * w) by (nonlinear_arith);
    assert(m * m == p * p * (u * u)) by (nonlinear_arith)
        requires
            m == p * u,
    ;
    assert(w * w == q * q * (v * v)) by (nonlinear_arith)
        requires
            w == q * v,
    ;
    assert(2 * (m * w) == 2 * (p * q) * (u * v)) by (nonlinear_arith)
        requires
            m == p * u,
            w == q * v,
    ;
}

/// A point between two others is no further out than the further of them.
proof fn lemma_between(x1: int, y1: int, x2: int, y2: int, p: int, q: int, most: int)
    requires
        0 <= p,
        0 <= q,
        x1 * x1 + y1 * y1 <= most,
        x2 * x2 + y2 * y2 <= most,
    ensures
        ({
            let x = p * x1 + q * x2;
            let y = p * y1 + q * y2;
            x * x + y * y <= (p + q) * (p + q) * most
        }),
{
    let x = p * x1 + q * x2;
    let y = p * y1 + q * y2;
    let one = x1 * x1 + y1 * y1;
    let two = x2 * x2 + y2 * y2;
    let both = x1 * x2 + y1 * y2;
    lemma_square_of_sum(p, q, x1, x2);
    lemma_square_of_sum(p, q, y1, y2);
    assert(p * p * one == p * p * (x1 * x1) + p * p * (y1 * y1)) by (nonlinear_arith)
        requires
            one == x1 * x1 + y1 * y1,
    ;
    assert(q * q * two == q * q * (x2 * x2) + q * q * (y2 * y2)) by (nonlinear_arith)
        requires
            two == x2 * x2 + y2 * y2,
    ;
    assert(2 * (p * q) * both == 2 * (p * q) * (x1 * x2) + 2 * (p * q) * (y1 * y2))
        by (nonlinear_arith)
        requires
            both == x1 * x2 + y1 * y2,
    ;
    assert(both <= most) by {
        assert(2 * (x1 * x2) <= x1 * x1 + x2 * x2) by (nonlinear_arith);
        assert(2 * (y1 * y2) <= y1 * y1 + y2 * y2) by (nonlinear_arith);
    }
    assert(p * p >= 0 && q * q >= 0 && p * q >= 0) by (nonlinear_arith)
        requires
            0 <= p,
            0 <= q,
    ;
    assert(p * p * one <= p * p * most) by (nonlinear_arith)
        requires
            p * p >= 0,
            one <= most,
    ;
    assert(q * q * two <= q * q * most) by (nonlinear_arith)
        requires
            q * q >= 0,
            two <= most,
    ;
    assert(2 * (p * q) * both <= 2 * (p * q) * most) by (nonlinear_arith)
        requires
            p * q >= 0,
            both <= most,
    ;
    assert((p + q) * (p + q) * most == p * p * most + 2 * (p * q) * most + q * q * most)
        by (nonlinear_arith);
}

/// The lines that a cubic side is drawn as stay within a tenth of a pixel of
/// the curve, in the middle of each of them, where not even the most lines are
/// drawn.
pub proof fn cubics_are_drawn_closely(
    tracing: Tracing,
    control1: Point<ScaledPixels>,
    control2: Point<ScaledPixels>,
    to: Point<ScaledPixels>,
    k: int,
)
    ensures
        ({
            let after = tracing.traced(ClipPathSegment::CubicTo { control1, control2, to });
            let n = after.contour.len() - tracing.contour.len();
            let (a, b, c, d) = (tracing.at, control1, control2, to);
            let x = sag_of_three(a.x, b.x.0 as int, c.x.0 as int, d.x.0 as int, k, n);
            let y = sag_of_three(a.y, b.y.0 as int, c.y.0 as int, d.y.0 as int, k, n);
            0 <= k < n < MAX_FLATTEN_STEPS ==> 100 * (x * x + y * y) <= (8 * n * n * n * ONE) * (8
                * n * n * n * ONE)
        }),
{
    let (a, b, c, d) = (tracing.at, control1@, control2@, to@);
    let n = cubic_steps(a, b, c, d);
    let first = bend_of(a, b, c);
    let second = bend_of(b, c, d);
    let most = if first >= second {
        first
    } else {
        second
    };
    lemma_steps_from(1, 900, most);
    if 0 <= k < n < MAX_FLATTEN_STEPS {
        lemma_sag_of_three(a.x, b.x, c.x, d.x, k, n);
        lemma_sag_of_three(a.y, b.y, c.y, d.y, k, n);
        let (p, q) = (2 * n - (2 * k + 1), 2 * k + 1);
        let (x1, x2) = (a.x - 2 * b.x + c.x, b.x - 2 * c.x + d.x);
        let (y1, y2) = (a.y - 2 * b.y + c.y, b.y - 2 * c.y + d.y);
        lemma_between(x1, y1, x2, y2, p, q, most);
        let (x, y) = (p * x1 + q * x2, p * y1 + q * y2);
        assert((-3 * x) * (-3 * x) == 9 * (x * x)) by (nonlinear_arith);
        assert((-3 * y) * (-3 * y) == 9 * (y * y)) by (nonlinear_arith);
        let reach = 4 * n * n * ONE;
        let whole = 8 * n * n * n * ONE;
        assert(whole == 2 * n * reach) by (nonlinear_arith)
            requires
                whole == 8 * n * n * n * ONE,
                reach == 4 * n * n * ONE,
        ;
        assert(p + q == 2 * n);
        assert(900 * ((2 * n) * (2 * n) * most) <= whole * whole) by (nonlinear_arith)
            requires
                900 * most <= reach * reach,
                whole == 2 * n * reach,
        ;
    }
}

} // verus!
