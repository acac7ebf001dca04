//! Clip outlines as polygons.

use crate::clip_path::{ClipPath, ClipPathSegment};
use crate::fixed::{floor_div, nearest, saturate, saturated, ONE};
use crate::geometry::{Place, Point, ScaledPixels};
use vstd::prelude::*;

verus! {

/// The most lines a curve is drawn with.
pub const MAX_FLATTEN_STEPS: u32 = 256;

/// Whether `steps` lines keep a curve within a tenth of a pixel of its outline:
/// whether `(4 * steps^2 * tolerance)^2 >= weight / 100 * bend`, where `bend` is
/// the square of the curve's second difference.
pub open spec fn is_close_enough(steps: int, weight: int, bend: int) -> bool {
    (4 * steps * steps * ONE) * (4 * steps * steps * ONE) >= weight * bend
}

/// The fewest lines from `steps` on that keep a curve close to its outline, and
/// never more than [`MAX_FLATTEN_STEPS`].
pub open spec fn steps_from(steps: int, weight: int, bend: int) -> int
    decreases MAX_FLATTEN_STEPS - steps,
{
    if steps >= MAX_FLATTEN_STEPS || is_close_enough(steps, weight, bend) {
        steps
    } else {
        steps_from(steps + 1, weight, bend)
    }
}

/// The square of the second difference of three points.
pub open spec fn bend_of(a: Place, b: Place, c: Place) -> int {
    let x = a.x - 2 * b.x + c.x;
    let y = a.y - 2 * b.y + c.y;
    x * x + y * y
}

/// How many lines a quadratic curve is drawn with.
pub open spec fn quadratic_steps(from: Place, control: Place, to: Place) -> int {
    steps_from(1, 100, bend_of(from, control, to))
}

/// How many lines a cubic curve is drawn with.
pub open spec fn cubic_steps(from: Place, control1: Place, control2: Place, to: Place) -> int {
    let first = bend_of(from, control1, control2);
    let second = bend_of(control1, control2, to);
    steps_from(
        1,
        900,
        if first >= second {
            first
        } else {
            second
        },
    )
}

/// The number the fewest lines from `steps` on is.
pub proof fn lemma_steps_from(steps: int, weight: int, bend: int)
    requires
        1 <= steps <= MAX_FLATTEN_STEPS,
    ensures
        steps <= steps_from(steps, weight, bend) <= MAX_FLATTEN_STEPS,
        steps_from(steps, weight, bend) < MAX_FLATTEN_STEPS ==> is_close_enough(
            steps_from(steps, weight, bend),
            weight,
            bend,
        ),
        forall|n: int|
            steps <= n < steps_from(steps, weight, bend) ==> !#[trigger] is_close_enough(
                n,
                weight,
                bend,
            ),
    decreases MAX_FLATTEN_STEPS - steps,
{
    if steps < MAX_FLATTEN_STEPS && !is_close_enough(steps, weight, bend) {
        lemma_steps_from(steps + 1, weight, bend);
    }
}

/// A coordinate of a quadratic curve, `step` parts of `steps` along it.
pub open spec fn quadratic_at(from: int, control: int, to: int, step: int, steps: int) -> int {
    let rest = steps - step;
    saturate(
        nearest(
            rest * rest * from + 2 * (rest * step) * control + step * step * to,
            steps * steps,
        ),
    )
}

/// A coordinate of a cubic curve, `step` parts of `steps` along it.
pub open spec fn cubic_at(
    from: int,
    control1: int,
    control2: int,
    to: int,
    step: int,
    steps: int,
) -> int {
    let rest = steps - step;
    saturate(
        nearest(
            rest * rest * rest * from + 3 * (rest * rest * step) * control1 + 3 * (rest * step
                * step) * control2 + step * step * step * to,
            steps * steps * steps,
        ),
    )
}

/// The first `n` points of a quadratic curve drawn with `steps` lines.
pub open spec fn quadratic_points(
    from: Place,
    control: Place,
    to: Place,
    steps: int,
    n: nat,
) -> Seq<Place> {
    Seq::new(
        n,
        |i: int|
            Place {
                x: quadratic_at(from.x, control.x, to.x, i + 1, steps),
                y: quadratic_at(from.y, control.y, to.y, i + 1, steps),
            },
    )
}

/// The first `n` points of a cubic curve drawn with `steps` lines.
pub open spec fn cubic_points(
    from: Place,
    control1: Place,
    control2: Place,
    to: Place,
    steps: int,
    n: nat,
) -> Seq<Place> {
    Seq::new(
        n,
        |i: int|
            Place {
                x: cubic_at(from.x, control1.x, control2.x, to.x, i + 1, steps),
                y: cubic_at(from.y, control1.y, control2.y, to.y, i + 1, steps),
            },
    )
}

/// The contours that are done, the one being drawn, where it began, and where
/// it has got to.
#[verifier::ext_equal]
pub struct Tracing {
    pub contours: Seq<Seq<Place>>,
    pub contour: Seq<Place>,
    pub start: Place,
    pub at: Place,
}

/// The contours with one more, unless it encloses no area.
pub open spec fn with_contour(contours: Seq<Seq<Place>>, contour: Seq<Place>) -> Seq<Seq<Place>> {
    if contour.len() >= 3 {
        contours.push(contour)
    } else {
        contours
    }
}

impl Tracing {
    pub open spec fn begun() -> Tracing {
        let origin = Place { x: 0, y: 0 };
        Tracing { contours: Seq::empty(), contour: Seq::empty(), start: origin, at: origin }
    }

    /// The tracing after one more segment.
    pub open spec fn traced(self, segment: ClipPathSegment<ScaledPixels>) -> Tracing {
        match segment {
            ClipPathSegment::MoveTo(to) => Tracing {
                contours: with_contour(self.contours, self.contour),
                contour: seq![to@],
                start: to@,
                at: to@,
            },
            ClipPathSegment::LineTo(to) => Tracing {
                contour: self.contour.push(to@),
                at: to@,
                ..self
            },
            ClipPathSegment::QuadTo { control, to } => {
                let steps = quadratic_steps(self.at, control@, to@);
                Tracing {
                    contour: self.contour + quadratic_points(
                        self.at,
                        control@,
                        to@,
                        steps,
                        steps as nat,
                    ),
                    at: to@,
                    ..self
                }
            },
            ClipPathSegment::CubicTo { control1, control2, to } => {
                let steps = cubic_steps(self.at, control1@, control2@, to@);
                Tracing {
                    contour: self.contour + cubic_points(
                        self.at,
                        control1@,
                        control2@,
                        to@,
                        steps,
                        steps as nat,
                    ),
                    at: to@,
                    ..self
                }
            },
            ClipPathSegment::Close => Tracing {
                contours: with_contour(self.contours, self.contour),
                contour: seq![self.start],
                at: self.start,
                ..self
            },
        }
    }

    /// The tracing after some segments.
    pub open spec fn traced_all(segments: Seq<ClipPathSegment<ScaledPixels>>) -> Tracing
        decreases segments.len(),
    {
        if segments.len() == 0 {
            Tracing::begun()
        } else {
            Tracing::traced_all(segments.drop_last()).traced(segments.last())
        }
    }
}

/// A path's contours as polygons: those that enclose an area.
pub open spec fn polygons_of(segments: Seq<ClipPathSegment<ScaledPixels>>) -> Seq<Seq<Place>> {
    let traced = Tracing::traced_all(segments);
    with_contour(traced.contours, traced.contour)
}

pub open spec fn places(points: Seq<Point<ScaledPixels>>) -> Seq<Place> {
    points.map_values(|point: Point<ScaledPixels>| point@)
}

pub open spec fn contours_view(contours: Seq<Vec<Point<ScaledPixels>>>) -> Seq<Seq<Place>> {
    contours.map_values(|contour: Vec<Point<ScaledPixels>>| places(contour@))
}

/// The second difference of three coordinates.
fn second_difference(a: i64, b: i64, c: i64) -> (r: i128)
    ensures
        r == a - 2 * b + c,
        -0x2_0000_0000_0000_0000 <= r <= 0x2_0000_0000_0000_0000,
{
    a as i128 - 2 * b as i128 + c as i128
}

/// Whether a second difference is so large that the most lines are needed.
fn is_far(d: i128) -> (r: bool)
    ensures
        r == (d < -0x100_0000_0000 || d > 0x100_0000_0000),
{
    d < -0x100_0000_0000 || d > 0x100_0000_0000
}

/// How many lines a curve needs whose second difference is `(x, y)`.
pub fn flatten_steps(x: i128, y: i128, weight: u128) -> (steps: u32)
    requires
        weight == 100 || weight == 900,
        -0x2_0000_0000_0000_0000 <= x <= 0x2_0000_0000_0000_0000,
        -0x2_0000_0000_0000_0000 <= y <= 0x2_0000_0000_0000_0000,
    ensures
        steps == steps_from(1, weight as int, x * x + y * y),
        1 <= steps <= MAX_FLATTEN_STEPS,
{
    proof {
        lemma_steps_from(1, weight as int, x * x + y * y);
    }
    if is_far(x) || is_far(y) {
        proof {
            lemma_far_needs_most(x as int, y as int, weight as int, 1);
        }
        return MAX_FLATTEN_STEPS;
    }
    assert(0 <= x * x <= 0x100_0000_0000 * 0x100_0000_0000) by (nonlinear_arith)
        requires
            -0x100_0000_0000 <= x <= 0x100_0000_0000,
    ;
    assert(0 <= y * y <= 0x100_0000_0000 * 0x100_0000_0000) by (nonlinear_arith)
        requires
            -0x100_0000_0000 <= y <= 0x100_0000_0000,
    ;
    let bend: u128 = (x * x) as u128 + (y * y) as u128;
    assert(weight * bend <= 900 * 0x2_0000_0000_0000_0000_0000) by (nonlinear_arith)
        requires
            0 <= weight <= 900,
            0 <= bend <= 0x2_0000_0000_0000_0000_0000,
    ;
    let needed: u128 = weight * bend;
    let mut steps: u32 = 1;
    while steps < MAX_FLATTEN_STEPS
        invariant_except_break
            steps_from(1, weight as int, bend as int) == steps_from(
                steps as int,
                weight as int,
                bend as int,
            ),
        invariant
            1 <= steps <= MAX_FLATTEN_STEPS,
            needed == weight * bend,
        ensures
            steps == steps_from(1, weight as int, bend as int),
        decreases MAX_FLATTEN_STEPS - steps,
    {
        let n: u128 = steps as u128;
        assert(n * n <= 256 * 256) by (nonlinear_arith)
            requires
                0 <= n <= 256,
        ;
        let reach: u128 = 4 * (n * n) * 65536;
        assert(reach == 4 * steps * steps * ONE) by (nonlinear_arith)
            requires
                reach == 4 * (n * n) * 65536,
                n == steps,
                ONE == 65536,
        ;
        assert(reach * reach <= 0x4_0000_0000 * 0x4_0000_0000) by (nonlinear_arith)
            requires
                0 <= reach <= 0x4_0000_0000,
        ;
        if reach * reach >= needed {
            break;
        }
        steps += 1;
    }
    steps
}

/// A curve that bends so far needs the most lines.
proof fn lemma_far_needs_most(x: int, y: int, weight: int, steps: int)
    requires
        x < -0x100_0000_0000 || x > 0x100_0000_0000 || y < -0x100_0000_0000 || y
            > 0x100_0000_0000,
        weight >= 100,
        1 <= steps <= MAX_FLATTEN_STEPS,
    ensures
        steps_from(steps, weight, x * x + y * y) == MAX_FLATTEN_STEPS,
    decreases MAX_FLATTEN_STEPS - steps,
{
    if steps < MAX_FLATTEN_STEPS {
        let bend = x * x + y * y;
        assert(bend >= 0x100_0000_0000 * 0x100_0000_0000) by (nonlinear_arith)
            requires
                bend == x * x + y * y,
                x < -0x100_0000_0000 || x > 0x100_0000_0000 || y < -0x100_0000_0000 || y
                    > 0x100_0000_0000,
        ;
        let reach = 4 * steps * steps * ONE;
        assert(0 <= reach <= 0x4_0000_0000) by (nonlinear_arith)
            requires
                reach == 4 * steps * steps * ONE,
                1 <= steps <= 256,
                ONE == 65536,
        ;
        assert(reach * reach <= 0x4_0000_0000 * 0x4_0000_0000) by (nonlinear_arith)
            requires
                0 <= reach <= 0x4_0000_0000,
        ;
        assert(weight * bend >= 100 * (0x100_0000_0000 * 0x100_0000_0000)) by (nonlinear_arith)
            requires
                weight >= 100,
                bend >= 0x100_0000_0000 * 0x100_0000_0000,
        ;
        lemma_far_needs_most(x, y, weight, steps + 1);
    }
}

/// `numerator / denominator` to the nearest whole number.
fn nearest_of(numerator: i128, denominator: i128) -> (r: i64)
    requires
        0 < denominator <= 0x100_0000,
        -0x1000_0000_0000_0000_0000_0000 <= numerator <= 0x1000_0000_0000_0000_0000_0000,
    ensures
        r == saturate(nearest(numerator as int, denominator as int)),
{
    saturated(floor_div(2 * numerator + denominator, 2 * denominator))
}

fn weighted(weight: i128, v: i64) -> (r: i128)
    requires
        0 <= weight <= 0x300_0000,
    ensures
        r == weight * v,
        -0x200_0000_0000_0000_0000_0000 <= r <= 0x200_0000_0000_0000_0000_0000,
{
    assert(-0x300_0000 * 0x8000_0000_0000_0000 <= weight * v <= 0x300_0000
        * 0x8000_0000_0000_0000) by (nonlinear_arith)
        requires
            0 <= weight <= 0x300_0000,
            -0x8000_0000_0000_0000 <= v <= 0x7fff_ffff_ffff_ffff,
    ;
    weight * v as i128
}

fn quadratic_coordinate(from: i64, control: i64, to: i64, step: u32, steps: u32) -> (r: i64)
    requires
        1 <= step <= steps <= 256,
    ensures
        r == quadratic_at(from as int, control as int, to as int, step as int, steps as int),
{
    let s: i128 = step as i128;
    let n: i128 = steps as i128;
    let rest: i128 = n - s;
    proof {
        lemma_square_bound(rest as int);
        lemma_square_bound(s as int);
        lemma_square_bound(n as int);
        lemma_product_bound(rest as int, s as int);
        assert(n * n >= 1) by (nonlinear_arith)
            requires
                n >= 1,
        ;
    }
    let a: i128 = weighted(rest * rest, from);
    let b: i128 = weighted(2 * (rest * s), control);
    let c: i128 = weighted(s * s, to);
    nearest_of(a + b + c, n * n)
}

proof fn lemma_square_bound(a: int)
    requires
        0 <= a <= 256,
    ensures
        0 <= a * a <= 65536,
        0 <= a * a * a <= 0x100_0000,
{
    lemma_product_bound(a, a);
    assert(0 <= a * a * a <= 65536 * 256) by (nonlinear_arith)
        requires
            0 <= a * a <= 65536,
            0 <= a <= 256,
    ;
}

proof fn lemma_product_bound(a: int, b: int)
    requires
        0 <= a <= 256,
        0 <= b <= 256,
    ensures
        0 <= a * b <= 65536,
{
    assert(0 <= a * b <= 256 * 256) by (nonlinear_arith)
        requires
            0 <= a <= 256,
            0 <= b <= 256,
    ;
}

proof fn lemma_triple_bound(a: int, b: int, c: int)
    requires
        0 <= a <= 256,
        0 <= b <= 256,
        0 <= c <= 256,
    ensures
        0 <= a * b <= 65536,
        0 <= a * b * c <= 0x100_0000,
{
    lemma_product_bound(a, b);
    assert(0 <= a * b * c <= 65536 * 256) by (nonlinear_arith)
        requires
            0 <= a * b <= 65536,
            0 <= c <= 256,
    ;
}

fn cubic_coordinate(
    from: i64,
    control1: i64,
    control2: i64,
    to: i64,
    step: u32,
    steps: u32,
) -> (r: i64)
    requires
        1 <= step <= steps <= 256,
    ensures
        r == cubic_at(
            from as int,
            control1 as int,
            control2 as int,
            to as int,
            step as int,
            steps as int,
        ),
{
    let s: i128 = step as i128;
    let n: i128 = steps as i128;
    let rest: i128 = n - s;
    proof {
        lemma_triple_bound(rest as int, rest as int, rest as int);
        lemma_triple_bound(rest as int, rest as int, s as int);
        lemma_triple_bound(rest as int, s as int, s as int);
        lemma_triple_bound(s as int, s as int, s as int);
        lemma_triple_bound(n as int, n as int, n as int);
        assert(n * n * n >= 1) by (nonlinear_arith)
            requires
                n >= 1,
        ;
    }
    let a: i128 = weighted(rest * rest * rest, from);
    let b: i128 = weighted(3 * (rest * rest * s), control1);
    let c: i128 = weighted(3 * (rest * s * s), control2);
    let d: i128 = weighted(s * s * s, to);
    nearest_of(a + b + c + d, n * n * n)
}

/// Add the points of a quadratic curve from `from`.
pub fn flatten_quadratic(
    from: Point<ScaledPixels>,
    control: Point<ScaledPixels>,
    to: Point<ScaledPixels>,
    out: &mut Vec<Point<ScaledPixels>>,
)
    ensures
        places(final(out)@) == places(old(out)@) + quadratic_points(
            from@,
            control@,
            to@,
            quadratic_steps(from@, control@, to@),
            quadratic_steps(from@, control@, to@) as nat,
        ),
{
    let ghost before = places(out@);
    let steps: u32 = flatten_steps(
        second_difference(from.x.0, control.x.0, to.x.0),
        second_difference(from.y.0, control.y.0, to.y.0),
        100,
    );
    let mut step: u32 = 1;
    assert(places(out@) =~= before + quadratic_points(from@, control@, to@, steps as int, 0));
    while step <= steps
        invariant
            1 <= step <= steps + 1,
            1 <= steps <= 256,
            places(out@) == before + quadratic_points(
                from@,
                control@,
                to@,
                steps as int,
                (step - 1) as nat,
            ),
        decreases steps + 1 - step,
    {
        let ghost prior = out@;
        let point = Point {
            x: ScaledPixels(quadratic_coordinate(from.x.0, control.x.0, to.x.0, step, steps)),
            y: ScaledPixels(quadratic_coordinate(from.y.0, control.y.0, to.y.0, step, steps)),
        };
        out.push(point);
        proof {
            assert(places(out@) =~= places(prior).push(point@));
            assert(quadratic_points(from@, control@, to@, steps as int, step as nat)
                =~= quadratic_points(
                from@,
                control@,
                to@,
                steps as int,
                (step - 1) as nat,
            ).push(point@));
            assert(places(out@) =~= before + quadratic_points(
                from@,
                control@,
                to@,
                steps as int,
                step as nat,
            ));
        }
        step += 1;
    }
}

/// Add the points of a cubic curve from `from`.
pub fn flatten_cubic(
    from: Point<ScaledPixels>,
    control1: Point<ScaledPixels>,
    control2: Point<ScaledPixels>,
    to: Point<ScaledPixels>,
    out: &mut Vec<Point<ScaledPixels>>,
)
    ensures
        places(final(out)@) == places(old(out)@) + cubic_points(
            from@,
            control1@,
            control2@,
            to@,
            cubic_steps(from@, control1@, control2@, to@),
            cubic_steps(from@, control1@, control2@, to@) as nat,
        ),
{
    let ghost before = places(out@);
    let steps: u32 = larger_steps(
        flatten_steps(
            second_difference(from.x.0, control1.x.0, control2.x.0),
            second_difference(from.y.0, control1.y.0, control2.y.0),
            900,
        ),
        flatten_steps(
            second_difference(control1.x.0, control2.x.0, to.x.0),
            second_difference(control1.y.0, control2.y.0, to.y.0),
            900,
        ),
    );
    proof {
        let first = bend_of(from@, control1@, control2@);
        let second = bend_of(control1@, control2@, to@);
        if first <= second {
            lemma_more_bend_more_steps(1, 900, first, second);
        } else {
            lemma_more_bend_more_steps(1, 900, second, first);
        }
        assert(steps == cubic_steps(from@, control1@, control2@, to@));
    }
    let mut step: u32 = 1;
    assert(places(out@) =~= before + cubic_points(
        from@,
        control1@,
        control2@,
        to@,
        steps as int,
        0,
    ));
    while step <= steps
        invariant
            1 <= step <= steps + 1,
            1 <= steps <= 256,
            places(out@) == before + cubic_points(
                from@,
                control1@,
                control2@,
                to@,
                steps as int,
                (step - 1) as nat,
            ),
        decreases steps + 1 - step,
    {
        let ghost prior = out@;
        let point = Point {
            x: ScaledPixels(
                cubic_coordinate(from.x.0, control1.x.0, control2.x.0, to.x.0, step, steps),
            ),
            y: ScaledPixels(
                cubic_coordinate(from.y.0, control1.y.0, control2.y.0, to.y.0, step, steps),
            ),
        };
        out.push(point);
        proof {
            assert(places(out@) =~= places(prior).push(point@));
            assert(cubic_points(from@, control1@, control2@, to@, steps as int, step as nat)
                =~= cubic_points(
                from@,
                control1@,
                control2@,
                to@,
                steps as int,
                (step - 1) as nat,
            ).push(point@));
            assert(places(out@) =~= before + cubic_points(
                from@,
                control1@,
                control2@,
                to@,
                steps as int,
                step as nat,
            ));
        }
        step += 1;
    }
}

fn larger_steps(a: u32, b: u32) -> (r: u32)
    ensures
        r == if a >= b {
            a
        } else {
            b
        },
{
    if a >= b {
        a
    } else {
        b
    }
}

/// A curve that bends further needs no fewer lines.
proof fn lemma_more_bend_more_steps(steps: int, weight: int, bend: int, more: int)
    requires
        1 <= steps <= MAX_FLATTEN_STEPS,
        weight >= 0,
        bend <= more,
    ensures
        steps_from(steps, weight, bend) <= steps_from(steps, weight, more),
    decreases MAX_FLATTEN_STEPS - steps,
{
    assert(weight * bend <= weight * more) by (nonlinear_arith)
        requires
            weight >= 0,
            bend <= more,
    ;
    lemma_steps_from(steps, weight, more);
    if steps < MAX_FLATTEN_STEPS && !is_close_enough(steps, weight, bend) {
        lemma_more_bend_more_steps(steps + 1, weight, bend, more);
    }
}

/// Keep a contour that encloses an area.
fn finish_contour(
    contours: &mut Vec<Vec<Point<ScaledPixels>>>,
    contour: Vec<Point<ScaledPixels>>,
)
    ensures
        contours_view(final(contours)@) == with_contour(
            contours_view(old(contours)@),
            places(contour@),
        ),
{
    let ghost before = contours@;
    if contour.len() >= 3 {
        contours.push(contour);
        assert(contours_view(contours@) =~= contours_view(before).push(places(contour@)));
    }
}

/// A clip path's contours as polygons in device space, without those that
/// enclose no area.
pub fn flatten_clip_path(path: &ClipPath<ScaledPixels>) -> (r: Vec<Vec<Point<ScaledPixels>>>)
    ensures
        contours_view(r@) == polygons_of(path@.segments),
{
    let mut contours: Vec<Vec<Point<ScaledPixels>>> = Vec::new();
    let mut contour: Vec<Point<ScaledPixels>> = Vec::new();
    let mut start = Point { x: ScaledPixels(0), y: ScaledPixels(0) };
    let mut at = Point { x: ScaledPixels(0), y: ScaledPixels(0) };
    let segments = path.segments();
    let mut index: usize = 0;
    proof {
        assert(segments@.take(0) =~= Seq::<ClipPathSegment<ScaledPixels>>::empty());
        assert(contours_view(contours@) =~= Seq::<Seq<Place>>::empty());
        assert(places(contour@) =~= Seq::<Place>::empty());
    }
    while index < segments.len()
        invariant
            segments@ == path@.segments,
            index <= segments@.len(),
            Tracing::traced_all(segments@.take(index as int)) == (Tracing {
                contours: contours_view(contours@),
                contour: places(contour@),
                start: start@,
                at: at@,
            }),
        decreases segments@.len() - index,
    {
        let segment = segments[index];
        let ghost traced = Tracing::traced_all(segments@.take(index as int));
        proof {
            assert(segments@.take(index + 1).drop_last() =~= segments@.take(index as int));
            assert(segments@.take(index + 1).last() == segment);
        }
        match segment {
            ClipPathSegment::MoveTo(to) => {
                finish_contour(&mut contours, contour);
                contour = Vec::new();
                at = to;
                start = to;
                contour.push(to);
                assert(places(contour@) =~= seq![to@]);
            },
            ClipPathSegment::LineTo(to) => {
                let ghost prior = contour@;
                at = to;
                contour.push(to);
                assert(places(contour@) =~= places(prior).push(to@));
            },
            ClipPathSegment::QuadTo { control, to } => {
                flatten_quadratic(at, control, to, &mut contour);
                at = to;
            },
            ClipPathSegment::CubicTo { control1, control2, to } => {
                flatten_cubic(at, control1, control2, to, &mut contour);
                at = to;
            },
            ClipPathSegment::Close => {
                finish_contour(&mut contours, contour);
                contour = Vec::new();
                at = start;
                contour.push(start);
                assert(places(contour@) =~= seq![start@]);
            },
        }
        index += 1;
        assert(Tracing::traced_all(segments@.take(index as int)) =~= Tracing {
            contours: contours_view(contours@),
            contour: places(contour@),
            start: start@,
            at: at@,
        });
    }
    assert(segments@.take(index as int) =~= segments@);
    finish_contour(&mut contours, contour);
    contours
}

/// Every polygon encloses an area: it has three points at least.
pub proof fn polygons_enclose_an_area(segments: Seq<ClipPathSegment<ScaledPixels>>, i: int)
    requires
        0 <= i < polygons_of(segments).len(),
    ensures
        polygons_of(segments)[i].len() >= 3,
{
    lemma_traced_contours(segments);
}

proof fn lemma_traced_contours(segments: Seq<ClipPathSegment<ScaledPixels>>)
    ensures
        forall|i: int|
            0 <= i < Tracing::traced_all(segments).contours.len() ==> (
            #[trigger] Tracing::traced_all(segments).contours[i]).len() >= 3,
    decreases segments.len(),
{
    if segments.len() > 0 {
        lemma_traced_contours(segments.drop_last());
        let before = Tracing::traced_all(segments.drop_last());
        let after = Tracing::traced_all(segments);
        assert forall|i: int| 0 <= i < after.contours.len() implies (
        #[trigger] after.contours[i]).len() >= 3 by {
            if i < before.contours.len() {
                assert(after.contours[i] == before.contours[i]);
            }
        }
    }
}

/// A curve's last point is where it ends.
pub proof fn curves_end_where_they_should(
    from: Place,
    control1: Place,
    control2: Place,
    to: Place,
    steps: int,
)
    requires
        1 <= steps <= MAX_FLATTEN_STEPS,
        i64::MIN <= to.x <= i64::MAX,
        i64::MIN <= to.y <= i64::MAX,
    ensures
        quadratic_points(from, control1, to, steps, steps as nat).last() == to,
        cubic_points(from, control1, control2, to, steps, steps as nat).last() == to,
{
    lemma_end_of_curve(from.x, control1.x, control2.x, to.x, steps);
    lemma_end_of_curve(from.y, control1.y, control2.y, to.y, steps);
}

proof fn lemma_end_of_curve(from: int, control1: int, control2: int, to: int, steps: int)
    requires
        1 <= steps <= MAX_FLATTEN_STEPS,
        i64::MIN <= to <= i64::MAX,
    ensures
        quadratic_at(from, control1, to, steps, steps) == to,
        cubic_at(from, control1, control2, to, steps, steps) == to,
{
    let n2 = steps * steps;
    let n3 = steps * steps * steps;
    assert(n2 >= 1 && n3 >= 1) by (nonlinear_arith)
        requires
            steps >= 1,
            n2 == steps * steps,
            n3 == steps * steps * steps,
    ;
    lemma_nearest_exact(to, n2);
    lemma_nearest_exact(to, n3);
    assert(0 * 0 * from == 0 && 0 * steps == 0 && 2 * (0 * steps) * control1 == 0)
        by (nonlinear_arith);
    assert(0 * 0 * 0 * from == 0 && 3 * (0 * 0 * steps) * control1 == 0 && 3 * (0 * steps * steps)
        * control2 == 0) by (nonlinear_arith);
}

proof fn lemma_nearest_exact(v: int, n: int)
    requires
        n >= 1,
    ensures
        nearest(n * v, n) == v,
{
    assert((2 * (n * v) + n) / (2 * n) == v) by (nonlinear_arith)
        requires
            n >= 1,
    ;
}

} // verus!
