//! What holds of gradients: where their colours lie.

use crate::fixed::{is_nearest, lemma_rounds, nearest, saturate, ONE};
use crate::geometry::{Pixels, Point, Rect, Size};
use crate::gradient::bake::{is_root, parameter_at, radius_at, root_of};
use crate::gradient::plan::{
    between, gradient_plan, FieldKey, Gradient, GradientKind, MAX_RINGS, RAMP_TEXELS, TURN,
};
use crate::gradient::stops::{sampled, stop_past, MixStop};
use crate::scene::path::BrushExtend;
use vstd::prelude::*;

verus! {

/// A position, where its coordinates can be held.
pub open spec fn position(x: int, y: int) -> Point<Pixels> {
    Point { x: Pixels(x as i64), y: Pixels(y as i64) }
}

pub open spec fn is_held(v: int) -> bool {
    i64::MIN <= v <= i64::MAX
}

proof fn lemma_half_of_one(h: int, r: int)
    requires
        0 < h,
        0 < r,
    ensures
        is_nearest(nearest(r * ONE, 2 * (h * r)), ONE as int, 2 * h),
{
    let v = nearest(r * ONE, 2 * (h * r));
    let d = 2 * (h * r);
    assert(d > 0) by (nonlinear_arith)
        requires
            0 < h,
            0 < r,
            d == 2 * (h * r),
    ;
    let n = 2 * (r * ONE) + d;
    assert(2 * d * v <= n < 2 * d * v + 2 * d) by (nonlinear_arith)
        requires
            d > 0,
            v == n / (2 * d),
    ;
    assert(2 * d * v == r * (4 * (h * v))) by (nonlinear_arith)
        requires
            d == 2 * (h * r),
    ;
    assert(d == r * (2 * h)) by (nonlinear_arith)
        requires
            d == 2 * (h * r),
    ;
    assert(4 * (h * v) <= 2 * ONE + 2 * h) by (nonlinear_arith)
        requires
            r > 0,
            r * (4 * (h * v)) <= 2 * (r * ONE) + r * (2 * h),
    ;
    assert(2 * ONE + 2 * h < 4 * (h * v) + 4 * h) by (nonlinear_arith)
        requires
            r > 0,
            2 * (r * ONE) + r * (2 * h) < r * (4 * (h * v)) + 2 * (r * (2 * h)),
    ;
    assert(v * (2 * h) == 2 * (h * v)) by (nonlinear_arith);
}

/// A radial gradient's texture is laid around its centre, so many radii to each
/// side along each axis as its texels are baked out to. So its last stop stands
/// on its ellipse: a position one radius right of the centre is found half of
/// one such share right of the texture's middle, and one a radius below the
/// centre as far below it.
pub proof fn radial_textures_are_laid_over_the_ellipse(
    gradient: Gradient,
    center: Point<Pixels>,
    radii: Size<Pixels>,
    bounds: Rect,
    scale: int,
)
    requires
        gradient.kind == (GradientKind::Radial { center, radii }),
        gradient_plan(gradient, bounds, scale) is Some,
    ensures
        ({
            let plan = gradient_plan(gradient, bounds, scale)->0;
            let h = plan.key.field->half_extent as int;
            let half = plan.mapping->half;
            let (rx, ry) = (radii.width.0 as int, radii.height.0 as int);
            &&& plan.key.field is Radial
            &&& 1 <= h <= MAX_RINGS
            &&& gradient.extend == BrushExtend::Pad ==> h == 1
            &&& plan.mapping is Square
            &&& plan.mapping->center == center
            &&& plan.x_extend == BrushExtend::Pad && plan.y_extend == BrushExtend::Pad
            &&& 0 < rx && 0 < ry
            &&& is_held(h * rx) ==> half.width.0 == h * rx
            &&& is_held(h * ry) ==> half.height.0 == h * ry
            &&& is_held(h * rx) && is_held(center.x.0 + rx) ==> {
                let at = plan.mapping.place(position(center.x.0 + rx, center.y.0 as int));
                is_nearest(at.0 - ONE / 2, ONE as int, 2 * h) && at.1 == ONE / 2
            }
            &&& is_held(h * ry) && is_held(center.y.0 + ry) ==> {
                let at = plan.mapping.place(position(center.x.0 as int, center.y.0 + ry));
                at.0 == ONE / 2 && is_nearest(at.1 - ONE / 2, ONE as int, 2 * h)
            }
        }),
{
    let plan = gradient_plan(gradient, bounds, scale)->0;
    let h = plan.key.field->half_extent as int;
    let half = plan.mapping->half;
    let (rx, ry) = (radii.width.0 as int, radii.height.0 as int);
    assert(rx * h == h * rx && ry * h == h * ry) by (nonlinear_arith);
    lemma_middle(half.width.0 as int);
    lemma_middle(half.height.0 as int);
    if is_held(h * rx) {
        lemma_half_of_one(h, rx);
    }
    if is_held(h * ry) {
        lemma_half_of_one(h, ry);
    }
    assert(h * rx > 0 && h * ry > 0) by (nonlinear_arith)
        requires
            h >= 1,
            rx > 0,
            ry > 0,
    ;
}

proof fn lemma_middle(half: int)
    ensures
        0 < half ==> nearest(0 * ONE, 2 * half) == 0,
{
    if 0 < half {
        assert((2 * 0 + 2 * half) / (2 * (2 * half)) == 0int) by (nonlinear_arith)
            requires
                half > 0,
        ;
    }
}

/// A texel of a radial gradient holds the colour of its own distance from the
/// texture's middle, in radii: squared, that distance is what the texel's own
/// offsets come to, rounded down; and past the last stop it is the last stop.
pub proof fn radial_texels_hold_their_distance(half_extent: u32, x: int, y: int, texels: int)
    requires
        0 <= x < texels,
        0 <= y < texels,
    ensures
        ({
            let t = parameter_at(
                FieldKey::Radial { half_extent },
                BrushExtend::Pad,
                x,
                y,
                texels,
                0,
            );
            let across = 2 * x + 1 - texels;
            let down = 2 * y + 1 - texels;
            let reach = half_extent * ONE;
            let apart = (across * across + down * down) * (reach * reach);
            let whole = texels * texels;
            &&& 0 <= t <= ONE
            &&& t * t * whole <= apart
            &&& t < ONE ==> apart < (t + 1) * (t + 1) * whole
        }),
{
    let across = 2 * x + 1 - texels;
    let down = 2 * y + 1 - texels;
    let reach = half_extent * ONE;
    let apart = (across * across + down * down) * (reach * reach);
    let whole = texels * texels;
    assert(whole > 0) by (nonlinear_arith)
        requires
            whole == texels * texels,
            texels > 0,
    ;
    assert(apart >= 0) by (nonlinear_arith)
        requires
            apart == (across * across + down * down) * (reach * reach),
    ;
    let n = apart / whole;
    assert(n >= 0 && n * whole <= apart < n * whole + whole) by (nonlinear_arith)
        requires
            whole > 0,
            apart >= 0,
            n == apart / whole,
    ;
    let r = radius_at(x, y, texels, half_extent as int);
    lemma_has_root(n);
    assert(is_root(r, n));
    let t = parameter_at(FieldKey::Radial { half_extent }, BrushExtend::Pad, x, y, texels, 0);
    assert(t * t <= r * r) by (nonlinear_arith)
        requires
            0 <= t <= r,
    ;
    assert(t * t * whole <= n * whole) by (nonlinear_arith)
        requires
            t * t <= n,
            whole > 0,
    ;
    if t < ONE {
        assert(t == r);
        assert((n + 1) * whole <= (t + 1) * (t + 1) * whole) by (nonlinear_arith)
            requires
                n + 1 <= (t + 1) * (t + 1),
                whole > 0,
        ;
        assert((n + 1) * whole == n * whole + whole) by (nonlinear_arith);
    }
}

pub proof fn lemma_has_root(n: int)
    requires
        0 <= n,
    ensures
        is_root(root_of(n), n),
    decreases n,
{
    if n == 0 {
        assert(0nat * 0nat == 0 && (0nat + 1) * (0nat + 1) == 1) by (nonlinear_arith);
        assert(is_root(0, 0));
    } else {
        lemma_has_root(n - 1);
        let r = root_of(n - 1);
        if n < (r + 1) * (r + 1) {
            assert(is_root(r, n));
        } else {
            assert(n == (r + 1) * (r + 1));
            assert((r + 1) * (r + 1) < (r + 2) * (r + 2)) by (nonlinear_arith)
                requires
                    r >= 0,
            ;
            assert(is_root(r + 1, n));
        }
    }
}

/// A linear gradient begins where its line starts and ends where the line ends,
/// and its colours run straight across the line: moving a position at right
/// angles to the line changes nothing.
pub proof fn linear_textures_run_along_the_line(
    gradient: Gradient,
    start: Point<Pixels>,
    end: Point<Pixels>,
    bounds: Rect,
    scale: int,
    at: Point<Pixels>,
    aside: int,
)
    requires
        gradient.kind == (GradientKind::Linear { start, end }),
        gradient_plan(gradient, bounds, scale) is Some,
        is_held(end.x.0 - start.x.0),
        is_held(end.y.0 - start.y.0),
    ensures
        ({
            let plan = gradient_plan(gradient, bounds, scale)->0;
            let (dx, dy) = (end.x.0 - start.x.0, end.y.0 - start.y.0);
            &&& plan.key.field == FieldKey::Ramp
            &&& plan.key.width == RAMP_TEXELS && plan.key.height == 1
            &&& plan.x_extend == gradient.extend
            &&& plan.mapping.place(start) == (0int, (ONE / 2) as int)
            &&& plan.mapping.place(end) == (ONE as int, (ONE / 2) as int)
            &&& is_held(at.x.0 - aside * dy) && is_held(at.y.0 + aside * dx)
                ==> plan.mapping.place(position(at.x.0 - aside * dy, at.y.0 + aside * dx))
                == plan.mapping.place(at)
        }),
{
    let plan = gradient_plan(gradient, bounds, scale)->0;
    let (dx, dy) = (end.x.0 - start.x.0, end.y.0 - start.y.0);
    let whole = dx * dx + dy * dy;
    assert(dx * dx >= 0 && dy * dy >= 0) by (nonlinear_arith);
    assert(whole <= 0x8000_0000_0000_0000_0000_0000_0000_0000) by (nonlinear_arith)
        requires
            whole == dx * dx + dy * dy,
            -0x8000_0000_0000_0000 <= dx <= 0x8000_0000_0000_0000,
            -0x8000_0000_0000_0000 <= dy <= 0x8000_0000_0000_0000,
    ;
    assert(plan.mapping->length_squared == whole);
    assert(0 * dx + 0 * dy == 0);
    lemma_whole(0, whole);
    lemma_whole(ONE as int, whole);
    assert(whole * ONE == ONE * whole) by (nonlinear_arith);
    let (x, y) = (at.x.0 - start.x.0, at.y.0 - start.y.0);
    assert((x - aside * dy) * dx + (y + aside * dx) * dy == x * dx + y * dy) by {
        assert((x - aside * dy) * dx == x * dx - aside * (dy * dx)) by (nonlinear_arith);
        assert((y + aside * dx) * dy == y * dy + aside * (dy * dx)) by (nonlinear_arith);
    }
    let moved = position(at.x.0 - aside * dy, at.y.0 + aside * dx);
    if is_held(at.x.0 - aside * dy) && is_held(at.y.0 + aside * dx) {
        assert(moved.x.0 - start.x.0 == x - aside * dy);
        assert(moved.y.0 - start.y.0 == y + aside * dx);
    }
}

proof fn lemma_whole(k: int, d: int)
    requires
        0 < d,
    ensures
        nearest(k * d, d) == k,
{
    assert((2 * (k * d) + d) / (2 * d) == k) by (nonlinear_arith)
        requires
            0 < d,
    ;
}

/// A sweep's texture is laid around its centre, square, and reaches every side
/// of the path it fills; its texels know where the sweep begins and how far it
/// turns.
pub proof fn sweep_textures_reach_the_path(
    gradient: Gradient,
    bounds: Rect,
    scale: int,
)
    requires
        gradient.kind is Sweep,
        gradient_plan(gradient, bounds, scale) is Some,
        is_held(bounds.x),
        is_held(bounds.y),
    ensures
        ({
            let plan = gradient_plan(gradient, bounds, scale)->0;
            let center = gradient.kind->Sweep_center;
            let half = plan.mapping->half;
            &&& plan.mapping is Square
            &&& plan.mapping->center == center
            &&& half.width == half.height
            &&& plan.key.field == FieldKey::Sweep {
                from_angle: gradient.kind->from_angle.0,
                sweep_angle: gradient.kind->sweep_angle.0,
            }
            &&& plan.x_extend == BrushExtend::Pad && plan.y_extend == BrushExtend::Pad
            &&& half.width.0 >= ONE
            &&& half.width.0 < i64::MAX ==> {
                &&& center.x.0 - half.width.0 <= bounds.x && bounds.right() <= center.x.0
                    + half.width.0
                &&& center.y.0 - half.height.0 <= bounds.y && bounds.bottom() <= center.y.0
                    + half.height.0
            }
        }),
{
}

/// A sweep's colours run evenly with the angle: where it begins is the first
/// stop, and where it has turned all the way the last, whichever way it turns.
pub proof fn sweeps_run_with_the_angle(
    from_angle: i64,
    sweep_angle: i64,
    x: int,
    y: int,
    texels: int,
    turned: int,
)
    requires
        sweep_angle != 0,
    ensures
        ({
            let field = FieldKey::Sweep { from_angle, sweep_angle };
            let t = parameter_at(field, BrushExtend::Pad, x, y, texels, turned);
            let past = if sweep_angle > 0 {
                turned
            } else {
                -turned
            };
            let sweep = if sweep_angle > 0 {
                sweep_angle as int
            } else {
                -sweep_angle
            };
            &&& parameter_at(field, BrushExtend::Pad, x, y, texels, 0) == 0
            &&& parameter_at(field, BrushExtend::Pad, x, y, texels, sweep_angle as int) == ONE
            &&& 0 <= past <= sweep ==> is_nearest(t, past * ONE, sweep)
            &&& past < 0 ==> t == 0
            &&& past > sweep ==> t == ONE
        }),
{
    let past = if sweep_angle > 0 {
        turned
    } else {
        -turned
    };
    let sweep = if sweep_angle > 0 {
        sweep_angle as int
    } else {
        -sweep_angle
    };
    lemma_part(past, sweep);
    lemma_part(0, sweep);
    lemma_part(sweep, sweep);
    lemma_whole(0, sweep);
    lemma_whole(ONE as int, sweep);
    assert(sweep * ONE == ONE * sweep) by (nonlinear_arith);
    assert(-turned * ONE == (-turned) * ONE) by (nonlinear_arith);
    assert(-sweep_angle * ONE == (-sweep_angle) * ONE) by (nonlinear_arith);
}

proof fn lemma_part(past: int, sweep: int)
    requires
        0 < sweep,
    ensures
        0 <= past <= sweep ==> 0 <= nearest(past * ONE, sweep) <= ONE && is_nearest(
            nearest(past * ONE, sweep),
            past * ONE,
            sweep,
        ),
        past < 0 ==> nearest(past * ONE, sweep) <= 0,
        past > sweep ==> nearest(past * ONE, sweep) >= ONE,
{
    let n = 2 * (past * ONE) + sweep;
    let d = 2 * sweep;
    let r = nearest(past * ONE, sweep);
    assert(d * r <= n < d * r + d) by (nonlinear_arith)
        requires
            0 < d,
            r == n / d,
    ;
    assert(d * r == 2 * (r * sweep)) by (nonlinear_arith)
        requires
            d == 2 * sweep,
    ;
    assert(past * ONE == past * 65536);
    if past < 0 {
        assert(r <= 0) by (nonlinear_arith)
            requires
                0 < sweep,
                2 * (r * sweep) <= n,
                n < sweep,
        ;
    } else if past > sweep {
        assert(r >= 65536) by (nonlinear_arith)
            requires
                0 < sweep,
                n < 2 * (r * sweep) + 2 * sweep,
                n >= 2 * (sweep * 65536) + sweep,
        ;
    } else {
        assert(0 <= r <= 65536) by (nonlinear_arith)
            requires
                0 < sweep,
                2 * (r * sweep) <= n,
                n < 2 * (r * sweep) + 2 * sweep,
                0 <= n - sweep,
                n <= 2 * (sweep * 65536) + sweep,
        ;
    }
}

/// A gradient that has stops and a scale has a texture unless there is nothing
/// to run them along: a radius of nothing, a line that ends where it starts, or
/// a sweep through no angle.
pub proof fn only_what_has_no_room_has_no_texture(gradient: Gradient, bounds: Rect, scale: int)
    requires
        gradient.stops@.len() > 0,
        scale > 0,
    ensures
        gradient.kind matches GradientKind::Radial { radii, .. } ==> {
            gradient_plan(gradient, bounds, scale) is None <==> radii.width.0 <= 0
                || radii.height.0 <= 0
        },
        gradient.kind matches GradientKind::Linear { start, end } ==> {
            &&& start == end ==> gradient_plan(gradient, bounds, scale) is None
            &&& end.x.0 - start.x.0 >= ONE || end.y.0 - start.y.0 >= ONE || start.x.0 - end.x.0
                >= ONE || start.y.0 - end.y.0 >= ONE ==> gradient_plan(
                gradient,
                bounds,
                scale,
            ) is Some
        },
        gradient.kind matches GradientKind::Sweep { sweep_angle, .. } ==> {
            &&& sweep_angle.0 == 0 ==> gradient_plan(gradient, bounds, scale) is None
            &&& sweep_angle.0 >= TURN / 65536 || sweep_angle.0 <= -(TURN / 65536)
                ==> gradient_plan(gradient, bounds, scale) is Some
        },
{
    if let GradientKind::Linear { start, end } = gradient.kind {
        let dx = between(start.x, end.x).0 as int;
        let dy = between(start.y, end.y).0 as int;
        assert(dx * dx >= 0 && dy * dy >= 0) by (nonlinear_arith);
        if start == end {
            assert(dx * dx == 0 && dy * dy == 0) by (nonlinear_arith)
                requires
                    dx == 0,
                    dy == 0,
            ;
        }
        if dx >= ONE || dx <= -ONE {
            assert(dx * dx >= 65536) by (nonlinear_arith)
                requires
                    dx >= 65536 || dx <= -65536,
            ;
        }
        if dy >= ONE || dy <= -ONE {
            assert(dy * dy >= 65536) by (nonlinear_arith)
                requires
                    dy >= 65536 || dy <= -65536,
            ;
        }
    }
}

/// Between two neighbouring stops a gradient's colour moves evenly from one to
/// the other: its alpha in proportion to how far along it is, and its channels
/// as well, each weighed by its stop's alpha. Each is held to the nearest step.
pub proof fn colours_between_stops_move_evenly(stops: Seq<MixStop>, k: int, at: int)
    requires
        0 < k < stops.len(),
        forall|i: int| 0 <= i < k ==> (#[trigger] stops[i]).position < at,
        0 <= at <= stops[k].position <= ONE,
        0 <= stops[k - 1].color.a,
        0 <= stops[k].color.a,
    ensures
        ({
            let (low, high) = (stops[k - 1], stops[k]);
            let whole = high.position - low.position;
            let part = at - low.position;
            let (a, b) = (low.color.a * (whole - part), high.color.a * part);
            let color = sampled(stops, at);
            &&& is_nearest(color.a as int, a + b, whole)
            &&& a + b > 0 ==> {
                &&& is_nearest(color.x as int, low.color.x * a + high.color.x * b, a + b)
                &&& is_nearest(color.y as int, low.color.y * a + high.color.y * b, a + b)
                &&& is_nearest(color.z as int, low.color.z * a + high.color.z * b, a + b)
            }
        }),
{
    let (low, high) = (stops[k - 1], stops[k]);
    assert(stops[k - 1].position < at);
    let whole = high.position - low.position;
    let part = at - low.position;
    let (a, b) = (low.color.a * (whole - part), high.color.a * part);
    lemma_first_past(stops, at, 0, k as nat);
    assert(a >= 0 && b >= 0) by (nonlinear_arith)
        requires
            a == low.color.a * (whole - part),
            b == high.color.a * part,
            0 <= low.color.a,
            0 <= high.color.a,
            0 <= part <= whole,
    ;
    lemma_weighed_rounds(low.color.a as int, high.color.a as int, whole - part, part);
    assert(whole - part + part == whole);
    if a + b > 0 {
        lemma_weighed_rounds(low.color.x as int, high.color.x as int, a, b);
        lemma_weighed_rounds(low.color.y as int, high.color.y as int, a, b);
        lemma_weighed_rounds(low.color.z as int, high.color.z as int, a, b);
        lemma_regroup(low.color.x as int, low.color.a as int, whole - part);
        lemma_regroup(low.color.y as int, low.color.a as int, whole - part);
        lemma_regroup(low.color.z as int, low.color.a as int, whole - part);
        lemma_regroup(high.color.x as int, high.color.a as int, part);
        lemma_regroup(high.color.y as int, high.color.a as int, part);
        lemma_regroup(high.color.z as int, high.color.a as int, part);
    } else {
        assert(nearest(0, whole) == 0) by (nonlinear_arith)
            requires
                whole > 0,
                nearest(0, whole) == (2 * 0 + whole) / (2 * whole),
        ;
    }
}

proof fn lemma_regroup(channel: int, alpha: int, weight: int)
    ensures
        channel * alpha * weight == channel * (alpha * weight),
{
    assert(channel * alpha * weight == channel * (alpha * weight)) by (nonlinear_arith);
}

proof fn lemma_first_past(stops: Seq<MixStop>, at: int, from: nat, k: nat)
    requires
        from <= k < stops.len(),
        at <= stops[k as int].position,
        forall|i: int| from <= i < k ==> (#[trigger] stops[i]).position < at,
    ensures
        stop_past(stops, at, from) == Some(k),
    decreases k - from,
{
    if from < k {
        assert(stops[from as int].position < at);
        lemma_first_past(stops, at, from + 1, k);
    }
}

/// What is weighed from two coordinates lies between them.
proof fn lemma_weighed_rounds(u: int, v: int, a: int, b: int)
    requires
        0 <= a,
        0 <= b,
        0 < a + b,
        is_held(u),
        is_held(v),
    ensures
        is_nearest(
            saturate(nearest(u * a + v * b, a + b)),
            u * a + v * b,
            a + b,
        ),
{
    let (low, high) = (i64::MIN as int, i64::MAX as int);
    assert(low * a <= u * a <= high * a) by (nonlinear_arith)
        requires
            0 <= a,
            low <= u <= high,
    ;
    assert(low * b <= v * b <= high * b) by (nonlinear_arith)
        requires
            0 <= b,
            low <= v <= high,
    ;
    assert(low * a + low * b == (a + b) * low) by (nonlinear_arith);
    assert(high * a + high * b == (a + b) * high) by (nonlinear_arith);
    lemma_rounds(u * a + v * b, a + b);
}

} // verus!
