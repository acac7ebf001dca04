//! Transformations of the plane.

use crate::fixed::{floor_div, nearest, saturate, saturated};
use crate::geometry::{Pixels, Point, ScaledPixels, Size};
use vstd::prelude::*;

verus! {

/// The number one, as a transformation holds it. Its numbers are finer than
/// lengths are: one that maps a window into an image has small ones.
pub const FINE: i64 = 0x1_0000_0000;

/// How large a number of a transformation that is inverted may be.
pub const FINE_LIMIT: i64 = 0x2000_0000_0000_0000;

/// A transformation of the plane: a rotation and scale, and then a translation.
#[derive(Clone, Copy, Debug, PartialEq, Eq)]
pub struct TransformationMatrix {
    /// A 2x2 matrix of rotation and scale, row by row.
    pub rotation_scale: [[i64; 2]; 2],
    /// A translation.
    pub translation: [i64; 2],
}

/// A transformation, as its numbers.
pub struct MatrixModel {
    pub a: int,
    pub b: int,
    pub c: int,
    pub d: int,
    pub x: int,
    pub y: int,
}

impl View for TransformationMatrix {
    type V = MatrixModel;

    open spec fn view(&self) -> MatrixModel {
        MatrixModel {
            a: self.rotation_scale@[0]@[0] as int,
            b: self.rotation_scale@[0]@[1] as int,
            c: self.rotation_scale@[1]@[0] as int,
            d: self.rotation_scale@[1]@[1] as int,
            x: self.translation@[0] as int,
            y: self.translation@[1] as int,
        }
    }
}

/// The product of two fine numbers, or of one and a length.
#[verifier::opaque]
pub open spec fn share(a: int, b: int) -> int {
    nearest(a * b, FINE as int)
}

impl MatrixModel {
    pub open spec fn unit() -> MatrixModel {
        MatrixModel { a: FINE as int, b: 0, c: 0, d: FINE as int, x: 0, y: 0 }
    }

    /// A move by a point.
    pub open spec fn moving(x: int, y: int) -> MatrixModel {
        MatrixModel { x: saturate(x * 65536), y: saturate(y * 65536), ..MatrixModel::unit() }
    }

    /// A clockwise turn around the origin, by the angle with this cosine and
    /// this sine.
    pub open spec fn turning(cosine: int, sine: int) -> MatrixModel {
        MatrixModel { a: cosine, b: -sine, c: sine, d: cosine, x: 0, y: 0 }
    }

    /// A scale around the origin.
    pub open spec fn stretching(width: int, height: int) -> MatrixModel {
        MatrixModel { a: width, b: 0, c: 0, d: height, x: 0, y: 0 }
    }

    /// The transformation that does what `other` does, and then what this one
    /// does.
    pub open spec fn composed(self, other: MatrixModel) -> MatrixModel {
        MatrixModel {
            a: saturate(share(self.a, other.a) + share(self.b, other.c)),
            b: saturate(share(self.a, other.b) + share(self.b, other.d)),
            c: saturate(share(self.c, other.a) + share(self.d, other.c)),
            d: saturate(share(self.c, other.b) + share(self.d, other.d)),
            x: saturate(self.x + share(self.a, other.x) + share(self.b, other.y)),
            y: saturate(self.y + share(self.c, other.x) + share(self.d, other.y)),
        }
    }

    /// Where a point goes.
    pub open spec fn applied(self, x: int, y: int) -> (int, int) {
        (
            saturate(nearest(self.x, 65536) + share(self.a, x) + share(self.b, y)),
            saturate(nearest(self.y, 65536) + share(self.c, x) + share(self.d, y)),
        )
    }

    pub open spec fn determinant(self) -> int {
        self.a * self.d - self.b * self.c
    }

    /// `v` over the determinant.
    pub open spec fn over(v: int, determinant: int) -> int {
        if determinant > 0 {
            saturate(nearest(v * 0x1_0000_0000_0000_0000, determinant))
        } else {
            saturate(nearest(-v * 0x1_0000_0000_0000_0000, -determinant))
        }
    }

    /// The transformation that undoes this one.
    pub open spec fn inverted(self) -> MatrixModel {
        let determinant = self.determinant();
        let a = MatrixModel::over(self.d, determinant);
        let b = MatrixModel::over(-self.b, determinant);
        let c = MatrixModel::over(-self.c, determinant);
        let d = MatrixModel::over(self.a, determinant);
        MatrixModel {
            a,
            b,
            c,
            d,
            x: saturate(-(share(a, self.x) + share(b, self.y))),
            y: saturate(-(share(c, self.x) + share(d, self.y))),
        }
    }

    /// Whether the matrix's numbers are small enough for it to be inverted.
    pub open spec fn is_moderate(self) -> bool {
        &&& -FINE_LIMIT <= self.a <= FINE_LIMIT
        &&& -FINE_LIMIT <= self.b <= FINE_LIMIT
        &&& -FINE_LIMIT <= self.c <= FINE_LIMIT
        &&& -FINE_LIMIT <= self.d <= FINE_LIMIT
    }
}

fn part(a: i64, b: i64) -> (r: i128)
    ensures
        r == share(a as int, b as int),
        -0x1_0000_0000_0000_0000_0000_0000 <= r <= 0x1_0000_0000_0000_0000_0000_0000,
{
    assert(-0x4000_0000_0000_0000_0000_0000_0000_0000 <= a * b
        <= 0x4000_0000_0000_0000_0000_0000_0000_0000) by (nonlinear_arith)
        requires
            i64::MIN <= a <= i64::MAX,
            i64::MIN <= b <= i64::MAX,
    ;
    let whole: i128 = a as i128 * b as i128;
    let r: i128 = floor_div(whole + 0x8000_0000, 0x1_0000_0000);
    proof {
        reveal(share);
        let p = a * b;
        assert((2 * p + 0x1_0000_0000) / 0x2_0000_0000 == (p + 0x8000_0000) / 0x1_0000_0000);
    }
    r
}

fn over_determinant(v: i64, determinant: i128) -> (r: i64)
    requires
        determinant != 0,
        -FINE_LIMIT <= v <= FINE_LIMIT,
        -0x1000_0000_0000_0000_0000_0000_0000_0000 <= determinant
            <= 0x1000_0000_0000_0000_0000_0000_0000_0000,
    ensures
        r == MatrixModel::over(v as int, determinant as int),
{
    let wide: i128 = v as i128 * 0x1_0000_0000_0000_0000;
    let (over, under): (i128, i128) = if determinant > 0 {
        (wide, determinant)
    } else {
        (-wide, -determinant)
    };
    saturated(floor_div(2 * over + under, 2 * under))
}

impl Default for TransformationMatrix {
    fn default() -> (r: Self)
        ensures
            r@ == MatrixModel::unit(),
    {
        TransformationMatrix::unit()
    }
}

impl TransformationMatrix {
    /// The transformation that changes nothing.
    pub fn unit() -> (r: Self)
        ensures
            r@ == MatrixModel::unit(),
    {
        TransformationMatrix {
            rotation_scale: [[FINE, 0], [0, FINE]],
            translation: [0, 0],
        }
    }

    /// Move the origin by a point, before this transformation.
    pub fn translate(self, point: Point<ScaledPixels>) -> (r: Self)
        ensures
            r@ == self@.composed(MatrixModel::moving(point.x.0 as int, point.y.0 as int)),
    {
        let x: i64 = saturated(point.x.0 as i128 * 65536);
        let y: i64 = saturated(point.y.0 as i128 * 65536);
        self.compose(
            TransformationMatrix { rotation_scale: [[FINE, 0], [0, FINE]], translation: [x, y] },
        )
    }

    /// Rotate clockwise around the origin, before this transformation, by the
    /// angle with this cosine and this sine.
    pub fn rotate(self, cosine: i64, sine: i64) -> (r: Self)
        requires
            sine > i64::MIN,
        ensures
            r@ == self@.composed(MatrixModel::turning(cosine as int, sine as int)),
    {
        self.compose(
            TransformationMatrix {
                rotation_scale: [[cosine, -sine], [sine, cosine]],
                translation: [0, 0],
            },
        )
    }

    /// Scale around the origin, before this transformation.
    pub fn scale(self, size: Size<i64>) -> (r: Self)
        ensures
            r@ == self@.composed(
                MatrixModel::stretching(size.width as int, size.height as int),
            ),
    {
        self.compose(
            TransformationMatrix {
                rotation_scale: [[size.width, 0], [0, size.height]],
                translation: [0, 0],
            },
        )
    }

    /// The transformation that does what `other` does, and then what this one
    /// does.
    pub fn compose(self, other: TransformationMatrix) -> (r: TransformationMatrix)
        ensures
            r@ == self@.composed(other@),
    {
        let a: i64 = self.rotation_scale[0][0];
        let b: i64 = self.rotation_scale[0][1];
        let c: i64 = self.rotation_scale[1][0];
        let d: i64 = self.rotation_scale[1][1];
        let e: i64 = other.rotation_scale[0][0];
        let f: i64 = other.rotation_scale[0][1];
        let g: i64 = other.rotation_scale[1][0];
        let h: i64 = other.rotation_scale[1][1];
        let x: i64 = other.translation[0];
        let y: i64 = other.translation[1];
        TransformationMatrix {
            rotation_scale: [
                [saturated(part(a, e) + part(b, g)), saturated(part(a, f) + part(b, h))],
                [saturated(part(c, e) + part(d, g)), saturated(part(c, f) + part(d, h))],
            ],
            translation: [
                saturated(self.translation[0] as i128 + part(a, x) + part(b, y)),
                saturated(self.translation[1] as i128 + part(c, x) + part(d, y)),
            ],
        }
    }

    /// Where a point goes.
    pub fn apply(&self, point: Point<Pixels>) -> (r: Point<Pixels>)
        ensures
            (r.x.0 as int, r.y.0 as int) == self@.applied(point.x.0 as int, point.y.0 as int),
    {
        let a: i64 = self.rotation_scale[0][0];
        let b: i64 = self.rotation_scale[0][1];
        let c: i64 = self.rotation_scale[1][0];
        let d: i64 = self.rotation_scale[1][1];
        let x: i128 = floor_div(2 * self.translation[0] as i128 + 65536, 131072);
        let y: i128 = floor_div(2 * self.translation[1] as i128 + 65536, 131072);
        Point {
            x: Pixels(saturated(x + part(a, point.x.0) + part(b, point.y.0))),
            y: Pixels(saturated(y + part(c, point.x.0) + part(d, point.y.0))),
        }
    }

    /// The transformation that undoes this one, or `None` where this one
    /// collapses the plane onto a line or a point.
    pub fn invert(&self) -> (r: Option<TransformationMatrix>)
        requires
            self@.is_moderate(),
        ensures
            match r {
                None => self@.determinant() == 0,
                Some(inverse) => self@.determinant() != 0 && inverse@ == self@.inverted(),
            },
    {
        let a: i64 = self.rotation_scale[0][0];
        let b: i64 = self.rotation_scale[0][1];
        let c: i64 = self.rotation_scale[1][0];
        let d: i64 = self.rotation_scale[1][1];
        proof {
            lemma_moderate_product(a as int, d as int);
            lemma_moderate_product(b as int, c as int);
        }
        let determinant: i128 = a as i128 * d as i128 - b as i128 * c as i128;
        if determinant == 0 {
            return None;
        }
        let e: i64 = over_determinant(d, determinant);
        let f: i64 = over_determinant(-b, determinant);
        let g: i64 = over_determinant(-c, determinant);
        let h: i64 = over_determinant(a, determinant);
        let x: i64 = self.translation[0];
        let y: i64 = self.translation[1];
        Some(
            TransformationMatrix {
                rotation_scale: [[e, f], [g, h]],
                translation: [
                    saturated(-(part(e, x) + part(f, y))),
                    saturated(-(part(g, x) + part(h, y))),
                ],
            },
        )
    }
}

proof fn lemma_moderate_product(a: int, b: int)
    requires
        -FINE_LIMIT <= a <= FINE_LIMIT,
        -FINE_LIMIT <= b <= FINE_LIMIT,
    ensures
        -0x400_0000_0000_0000_0000_0000_0000_0000 <= a * b
            <= 0x400_0000_0000_0000_0000_0000_0000_0000,
{
    assert(-0x400_0000_0000_0000_0000_0000_0000_0000 <= a * b
        <= 0x400_0000_0000_0000_0000_0000_0000_0000) by (nonlinear_arith)
        requires
            -0x2000_0000_0000_0000 <= a <= 0x2000_0000_0000_0000,
            -0x2000_0000_0000_0000 <= b <= 0x2000_0000_0000_0000,
    ;
}

/// Whether a number is one that a transformation can hold.
pub open spec fn is_held(v: int) -> bool {
    i64::MIN <= v <= i64::MAX
}

/// The unit changes nothing: before a transformation, after it, and on a point.
pub proof fn the_unit_changes_nothing(matrix: MatrixModel, x: int, y: int)
    requires
        is_held(matrix.a),
        is_held(matrix.b),
        is_held(matrix.c),
        is_held(matrix.d),
        is_held(matrix.x),
        is_held(matrix.y),
        is_held(x),
        is_held(y),
    ensures
        matrix.composed(MatrixModel::unit()) == matrix,
        MatrixModel::unit().composed(matrix) == matrix,
        MatrixModel::unit().applied(x, y) == (x, y),
{
    lemma_shares(matrix.a);
    lemma_shares(matrix.b);
    lemma_shares(matrix.c);
    lemma_shares(matrix.d);
    lemma_shares(matrix.x);
    lemma_shares(matrix.y);
    lemma_shares(x);
    lemma_shares(y);
    assert(nearest(0, 65536) == 65536int / 131072);
}

proof fn lemma_shares(v: int)
    ensures
        share(v, FINE as int) == v,
        share(FINE as int, v) == v,
        share(v, 0) == 0,
        share(0, v) == 0,
{
    reveal(share);
    assert(v * FINE == v * 0x1_0000_0000);
    assert(FINE * v == v * 0x1_0000_0000) by (nonlinear_arith)
        requires
            FINE == 0x1_0000_0000,
    ;
    assert(v * 0 == 0 && 0 * v == 0) by (nonlinear_arith);
    assert((2 * (v * 0x1_0000_0000) + 0x1_0000_0000) / 0x2_0000_0000 == v);
}

/// A translation moves every point by as much.
pub proof fn translations_move_points(dx: int, dy: int, x: int, y: int)
    requires
        is_held(dx * 65536),
        is_held(dy * 65536),
        is_held(x),
        is_held(y),
        is_held(x + dx),
        is_held(y + dy),
    ensures
        (MatrixModel { x: dx * 65536, y: dy * 65536, ..MatrixModel::unit() }).applied(x, y) == (
            x + dx,
            y + dy,
        ),
{
    lemma_shares(x);
    lemma_shares(y);
    assert((2 * (dx * 65536) + 65536) / 131072 == dx);
    assert((2 * (dy * 65536) + 65536) / 131072 == dy);
}

/// How far a number is from zero.
pub open spec fn magnitude(v: int) -> int {
    if v < 0 {
        -v
    } else {
        v
    }
}

/// Whether a number is smaller than the largest that a transformation can hold.
pub open spec fn is_inside(v: int) -> bool {
    i64::MIN < v < i64::MAX
}

/// Whether a transformation holds its numbers without any of them having
/// stopped at the end of the range.
pub open spec fn matrix_is_inside(matrix: MatrixModel) -> bool {
    &&& is_inside(matrix.a)
    &&& is_inside(matrix.b)
    &&& is_inside(matrix.c)
    &&& is_inside(matrix.d)
    &&& is_inside(matrix.x)
    &&& is_inside(matrix.y)
}

proof fn lemma_over(v: int, determinant: int)
    requires
        determinant != 0,
        is_inside(MatrixModel::over(v, determinant)),
    ensures
        magnitude(
            2 * (determinant * MatrixModel::over(v, determinant)) - 2 * (v
                * 0x1_0000_0000_0000_0000),
        ) <= magnitude(determinant),
{
    let r = MatrixModel::over(v, determinant);
    let (n, d) = if determinant > 0 {
        (v * 0x1_0000_0000_0000_0000, determinant)
    } else {
        (-v * 0x1_0000_0000_0000_0000, -determinant)
    };
    assert(r == (2 * n + d) / (2 * d));
    assert(0 <= 2 * n + d - 2 * (d * r) < 2 * d) by (nonlinear_arith)
        requires
            d > 0,
            r == (2 * n + d) / (2 * d),
    ;
    if determinant < 0 {
        assert(d * r == -(determinant * r)) by (nonlinear_arith)
            requires
                d == -determinant,
        ;
    }
}

proof fn lemma_row_undone(
    p: int,
    q: int,
    u: int,
    v: int,
    s: int,
    t: int,
    determinant: int,
    product: int,
)
    requires
        determinant != 0,
        magnitude(2 * (determinant * p) - 2 * (s * 0x1_0000_0000_0000_0000)) <= magnitude(
            determinant,
        ),
        magnitude(2 * (determinant * q) - 2 * (t * 0x1_0000_0000_0000_0000)) <= magnitude(
            determinant,
        ),
        u * s + v * t == product * determinant,
    ensures
        2 * magnitude(p * u + q * v - product * 0x1_0000_0000_0000_0000) <= magnitude(u)
            + magnitude(v),
{
    let e = 2 * (determinant * p) - 2 * (s * 0x1_0000_0000_0000_0000);
    let f = 2 * (determinant * q) - 2 * (t * 0x1_0000_0000_0000_0000);
    let size = magnitude(determinant);
    let gap = p * u + q * v - product * 0x1_0000_0000_0000_0000;
    let one = 0x1_0000_0000_0000_0000int;
    assert(u * e == 2 * (determinant * (p * u)) - 2 * ((u * s) * one)) by (nonlinear_arith)
        requires
            e == 2 * (determinant * p) - 2 * (s * one),
    ;
    assert(v * f == 2 * (determinant * (q * v)) - 2 * ((v * t) * one)) by (nonlinear_arith)
        requires
            f == 2 * (determinant * q) - 2 * (t * one),
    ;
    assert((u * s) * one + (v * t) * one == determinant * (product * one)) by (nonlinear_arith)
        requires
            u * s + v * t == product * determinant,
    ;
    assert(determinant * gap == determinant * (p * u) + determinant * (q * v) - determinant * (
    product * one)) by (nonlinear_arith)
        requires
            gap == p * u + q * v - product * one,
    ;
    lemma_bounded_product(u, e, size);
    lemma_bounded_product(v, f, size);
    let all = magnitude(u) + magnitude(v);
    assert(size * all == size * magnitude(u) + size * magnitude(v)) by (nonlinear_arith)
        requires
            all == magnitude(u) + magnitude(v),
    ;
    assert(magnitude(determinant * gap) == size * magnitude(gap)) by (nonlinear_arith)
        requires
            size == magnitude(determinant),
            magnitude(determinant) == if determinant < 0 { -determinant } else { determinant },
            magnitude(gap) == if gap < 0 { -gap } else { gap },
            magnitude(determinant * gap) == if determinant * gap < 0 {
                -(determinant * gap)
            } else {
                determinant * gap
            },
    ;
    assert(2 * magnitude(gap) <= all) by (nonlinear_arith)
        requires
            size > 0,
            2 * (size * magnitude(gap)) <= size * all,
    ;
}

proof fn lemma_bounded_product(u: int, e: int, size: int)
    requires
        magnitude(e) <= size,
    ensures
        magnitude(u * e) <= size * magnitude(u),
{
    let f = magnitude(e);
    let w = magnitude(u);
    assert(magnitude(u * e) == w * f) by (nonlinear_arith)
        requires
            f == if e < 0 { -e } else { e },
            w == if u < 0 { -u } else { u },
            magnitude(u * e) == if u * e < 0 {
                -(u * e)
            } else {
                u * e
            },
    ;
    assert(w * f <= size * w) by (nonlinear_arith)
        requires
            0 <= w,
            f <= size,
    ;
}

/// A transformation that its inverse is applied after leaves everything where
/// it was, but for the rounding of the inverse's numbers: each number of the
/// two together is off the unit's by no more than half a step of the inverse
/// for each step of this transformation, and the origin comes back exactly.
pub proof fn inverting_a_transformation_undoes_it(matrix: MatrixModel)
    requires
        matrix.is_moderate(),
        matrix.determinant() != 0,
        matrix_is_inside(matrix.inverted()),
    ensures
        ({
            let inverse = matrix.inverted();
            &&& 2 * magnitude(inverse.a * matrix.a + inverse.b * matrix.c - FINE * FINE)
                <= magnitude(matrix.a) + magnitude(matrix.c)
            &&& 2 * magnitude(inverse.a * matrix.b + inverse.b * matrix.d) <= magnitude(matrix.b)
                + magnitude(matrix.d)
            &&& 2 * magnitude(inverse.c * matrix.a + inverse.d * matrix.c) <= magnitude(matrix.a)
                + magnitude(matrix.c)
            &&& 2 * magnitude(inverse.c * matrix.b + inverse.d * matrix.d - FINE * FINE)
                <= magnitude(matrix.b) + magnitude(matrix.d)
            &&& inverse.x + share(inverse.a, matrix.x) + share(inverse.b, matrix.y) == 0
            &&& inverse.y + share(inverse.c, matrix.x) + share(inverse.d, matrix.y) == 0
        }),
{
    let inverse = matrix.inverted();
    let det = matrix.determinant();
    let (a, b, c, d) = (matrix.a, matrix.b, matrix.c, matrix.d);
    lemma_over(d, det);
    lemma_over(-b, det);
    lemma_over(-c, det);
    lemma_over(a, det);
    assert(a * d + c * -b == 1 * det) by (nonlinear_arith)
        requires
            det == a * d - b * c,
    ;
    assert(b * d + d * -b == 0 * det) by (nonlinear_arith);
    assert(a * -c + c * a == 0 * det) by (nonlinear_arith);
    assert(b * -c + d * a == 1 * det) by (nonlinear_arith)
        requires
            det == a * d - b * c,
    ;
    lemma_row_undone(inverse.a, inverse.b, a, c, d, -b, det, 1);
    lemma_row_undone(inverse.a, inverse.b, b, d, d, -b, det, 0);
    lemma_row_undone(inverse.c, inverse.d, a, c, -c, a, det, 0);
    lemma_row_undone(inverse.c, inverse.d, b, d, -c, a, det, 1);
    assert(FINE * FINE == 0x1_0000_0000_0000_0000) by (nonlinear_arith)
        requires
            FINE == 0x1_0000_0000,
    ;
}

proof fn lemma_share(a: int, b: int)
    ensures
        2 * magnitude(0x1_0000_0000 * share(a, b) - a * b) <= 0x1_0000_0000,
{
    reveal(share);
    let p = a * b;
    assert(share(a, b) == (2 * p + 0x1_0000_0000) / 0x2_0000_0000);
}

/// What is left of a number that is held to the range of an `i64` is no further
/// from another such number than it was.
proof fn lemma_saturated_apart(v: int, w: int)
    ensures
        magnitude(saturate(v) - saturate(w)) <= magnitude(v - w),
{
}

proof fn lemma_product_of_sum(whole: int, left: int, right: int, rest: int, p: int)
    requires
        0x1_0000_0000 * whole == left + right + rest,
    ensures
        0x1_0000_0000 * (whole * p) == left * p + right * p + rest * p,
        0x1_0000_0000 * (p * whole) == p * left + p * right + p * rest,
{
    assert((0x1_0000_0000 * whole) * p == 0x1_0000_0000 * (whole * p)) by (nonlinear_arith);
    assert((left + right + rest) * p == left * p + right * p + rest * p) by (nonlinear_arith);
    assert(p * whole == whole * p) by (nonlinear_arith);
    assert(p * left == left * p) by (nonlinear_arith);
    assert(p * right == right * p) by (nonlinear_arith);
    assert(p * rest == rest * p) by (nonlinear_arith);
}

/// A sum of two shares, in whole steps.
proof fn lemma_two_shares(a: int, b: int, c: int, d: int) -> (rest: int)
    ensures
        0x1_0000_0000 * (share(a, b) + share(c, d)) == a * b + c * d + rest,
        magnitude(rest) <= 0x1_0000_0000,
{
    lemma_share(a, b);
    lemma_share(c, d);
    0x1_0000_0000 * (share(a, b) + share(c, d)) - a * b - c * d
}

/// A row times a matrix times a column, worked out from the row.
proof fn lemma_chain_left(
    u: int,
    v: int,
    e: int,
    f: int,
    g: int,
    h: int,
    p: int,
    q: int,
)
    ensures
        magnitude(
            0x1_0000_0000_0000_0000 * (share(share(u, e) + share(v, g), p) + share(
                share(u, f) + share(v, h),
                q,
            )) - (u * (e * p) + v * (g * p) + u * (f * q) + v * (h * q)),
        ) <= 0x1_0000_0000 * (0x1_0000_0000 + magnitude(p) + magnitude(q)),
{
    let l1 = share(u, e) + share(v, g);
    let l2 = share(u, f) + share(v, h);
    let e1 = lemma_two_shares(u, e, v, g);
    let e2 = lemma_two_shares(u, f, v, h);
    let e3 = lemma_two_shares(l1, p, l2, q);
    lemma_product_of_sum(l1, u * e, v * g, e1, p);
    lemma_product_of_sum(l2, u * f, v * h, e2, q);
    lemma_bounded_product(p, e1, 0x1_0000_0000);
    lemma_bounded_product(q, e2, 0x1_0000_0000);
    assert(e1 * p == p * e1) by (nonlinear_arith);
    assert(e2 * q == q * e2) by (nonlinear_arith);
    assert((u * e) * p == u * (e * p)) by (nonlinear_arith);
    assert((v * g) * p == v * (g * p)) by (nonlinear_arith);
    assert((u * f) * q == u * (f * q)) by (nonlinear_arith);
    assert((v * h) * q == v * (h * q)) by (nonlinear_arith);
    lemma_three_parts(0x1_0000_0000 * e3, p * e1, q * e2);
}

/// A row times a matrix times a column, worked out from the column.
proof fn lemma_chain_right(
    u: int,
    v: int,
    e: int,
    f: int,
    g: int,
    h: int,
    p: int,
    q: int,
)
    ensures
        magnitude(
            0x1_0000_0000_0000_0000 * (share(u, share(e, p) + share(f, q)) + share(
                v,
                share(g, p) + share(h, q),
            )) - (u * (e * p) + v * (g * p) + u * (f * q) + v * (h * q)),
        ) <= 0x1_0000_0000 * (0x1_0000_0000 + magnitude(u) + magnitude(v)),
{
    let r1 = share(e, p) + share(f, q);
    let r2 = share(g, p) + share(h, q);
    let e1 = lemma_two_shares(e, p, f, q);
    let e2 = lemma_two_shares(g, p, h, q);
    let e3 = lemma_two_shares(u, r1, v, r2);
    lemma_product_of_sum(r1, e * p, f * q, e1, u);
    lemma_product_of_sum(r2, g * p, h * q, e2, v);
    lemma_bounded_product(u, e1, 0x1_0000_0000);
    lemma_bounded_product(v, e2, 0x1_0000_0000);
    lemma_three_parts(0x1_0000_0000 * e3, u * e1, v * e2);
}

proof fn lemma_three_parts(a: int, b: int, c: int)
    ensures
        magnitude(a + b + c) <= magnitude(a) + magnitude(b) + magnitude(c),
{
}

/// A row times a matrix times a column, worked out from either end.
proof fn lemma_chain(
    u: int,
    v: int,
    e: int,
    f: int,
    g: int,
    h: int,
    p: int,
    q: int,
)
    ensures
        0x1_0000_0000 * magnitude(
            (share(share(u, e) + share(v, g), p) + share(share(u, f) + share(v, h), q)) - (share(
                u,
                share(e, p) + share(f, q),
            ) + share(v, share(g, p) + share(h, q))),
        ) <= 2 * 0x1_0000_0000 + magnitude(p) + magnitude(q) + magnitude(u) + magnitude(v),
{
    lemma_chain_left(u, v, e, f, g, h, p, q);
    lemma_chain_right(u, v, e, f, g, h, p, q);
}

/// A share of a sum is the sum of the shares, but for one step.
proof fn lemma_share_of_sum(u: int, s: int, t: int)
    ensures
        magnitude(share(u, s + t) - share(u, s) - share(u, t)) <= 1,
{
    lemma_share(u, s);
    lemma_share(u, t);
    lemma_share(u, s + t);
    assert(u * (s + t) == u * s + u * t) by (nonlinear_arith);
}

proof fn lemma_nearest_length(n: int)
    ensures
        2 * magnitude(65536 * nearest(n, 65536) - n) <= 65536,
{
    assert(nearest(n, 65536) == (2 * n + 65536) / 131072);
}

/// A fine number's share, as a length.
proof fn lemma_share_of_length(u: int, n: int)
    ensures
        0x2_0000_0000 * magnitude(share(u, n) - 65536 * share(u, nearest(n, 65536)))
            <= 65537 * 0x1_0000_0000 + 65536 * magnitude(u),
{
    let k = nearest(n, 65536);
    let rest = 65536 * k - n;
    lemma_share(u, n);
    lemma_share(u, k);
    lemma_nearest_length(n);
    lemma_bounded_product(u, rest, 32768);
    assert(u * rest == 65536 * (u * k) - u * n) by (nonlinear_arith)
        requires
            rest == 65536 * k - n,
    ;
    let e1 = 0x1_0000_0000 * share(u, n) - u * n;
    let e2 = 0x1_0000_0000 * share(u, k) - u * k;
    let gap = share(u, n) - 65536 * share(u, k);
    assert(0x1_0000_0000 * gap == e1 + -(u * rest) + -(65536 * e2));
    lemma_three_parts(e1, -(u * rest), -(65536 * e2));
    assert(magnitude(-(65536 * e2)) == 65536 * magnitude(e2));
    assert(magnitude(-(u * rest)) <= 32768 * magnitude(u));
    assert(magnitude(0x1_0000_0000 * gap) == 0x1_0000_0000 * magnitude(gap));
}

/// How far apart one coordinate of a point may come out, in halves of
/// `1 / FINE`th of a step: six steps and a little, one more for every 65536
/// pixels of the point, and one and a half for every unit of the row's scale.
pub open spec fn coordinate_gap(u: int, v: int, x: int, y: int) -> int {
    12 * FINE + 2 * 65536 + 2 * (magnitude(x) + magnitude(y)) + 3 * (magnitude(u) + magnitude(v))
}

/// One coordinate of a point that goes through `other` and then through the
/// row, and through the two at once, before either is held to the range.
proof fn lemma_coordinate(u: int, v: int, w: int, other: MatrixModel, x: int, y: int)
    ensures
        0x2_0000_0000 * magnitude(
            (nearest(w + share(u, other.x) + share(v, other.y), 65536) + share(
                share(u, other.a) + share(v, other.c),
                x,
            ) + share(share(u, other.b) + share(v, other.d), y)) - (nearest(w, 65536) + share(
                u,
                nearest(other.x, 65536) + share(other.a, x) + share(other.b, y),
            ) + share(v, nearest(other.y, 65536) + share(other.c, x) + share(other.d, y))),
        ) <= coordinate_gap(u, v, x, y),
{
    let r1 = share(other.a, x) + share(other.b, y);
    let r2 = share(other.c, x) + share(other.d, y);
    let n1 = nearest(other.x, 65536);
    let n2 = nearest(other.y, 65536);
    lemma_chain(u, v, other.a, other.b, other.c, other.d, x, y);
    lemma_share_of_sum(u, n1, r1);
    lemma_share_of_sum(v, n2, r2);
    assert(n1 + share(other.a, x) + share(other.b, y) == n1 + r1);
    assert(n2 + share(other.c, x) + share(other.d, y) == n2 + r2);
    lemma_share_of_length(u, other.x);
    lemma_share_of_length(v, other.y);
    let z = w + share(u, other.x) + share(v, other.y);
    lemma_nearest_length(z);
    lemma_nearest_length(w);
    let gap = nearest(z, 65536) - nearest(w, 65536) - share(u, n1) - share(v, n2);
    let d1 = share(u, other.x) - 65536 * share(u, n1);
    let d2 = share(v, other.y) - 65536 * share(v, n2);
    let e1 = 65536 * nearest(z, 65536) - z;
    let e2 = 65536 * nearest(w, 65536) - w;
    assert(65536 * gap == d1 + d2 + e1 - e2);
    assert(65536 * magnitude(gap) <= magnitude(d1) + magnitude(d2) + magnitude(e1) + magnitude(e2));
    assert(0x2_0000_0000_0000 * magnitude(gap) <= 0x2_0000_0000 * magnitude(d1) + 0x2_0000_0000
        * magnitude(d2) + 0x2_0000_0000 * 65536);
    assert(0x2_0000_0000 * magnitude(gap) <= 4 * 0x1_0000_0000 + 2 * 65536 + magnitude(u)
        + magnitude(v));
}

/// A composed transformation takes a point where the two take it one after the
/// other, `other` first, but for rounding.
pub proof fn composing_applies_one_after_the_other(
    matrix: MatrixModel,
    other: MatrixModel,
    x: int,
    y: int,
)
    requires
        matrix_is_inside(matrix.composed(other)),
        is_inside(other.applied(x, y).0),
        is_inside(other.applied(x, y).1),
    ensures
        ({
            let at_once = matrix.composed(other).applied(x, y);
            let between = other.applied(x, y);
            let in_turn = matrix.applied(between.0, between.1);
            &&& 2 * (FINE * magnitude(at_once.0 - in_turn.0)) <= coordinate_gap(
                matrix.a,
                matrix.b,
                x,
                y,
            )
            &&& 2 * (FINE * magnitude(at_once.1 - in_turn.1)) <= coordinate_gap(
                matrix.c,
                matrix.d,
                x,
                y,
            )
        }),
{
    lemma_coordinate(matrix.a, matrix.b, matrix.x, other, x, y);
    lemma_coordinate(matrix.c, matrix.d, matrix.y, other, x, y);
    let both = matrix.composed(other);
    let (p, q) = other.applied(x, y);
    lemma_saturated_apart(
        nearest(both.x, 65536) + share(both.a, x) + share(both.b, y),
        nearest(matrix.x, 65536) + share(matrix.a, p) + share(matrix.b, q),
    );
    lemma_saturated_apart(
        nearest(both.y, 65536) + share(both.c, x) + share(both.d, y),
        nearest(matrix.y, 65536) + share(matrix.c, p) + share(matrix.d, q),
    );
}

/// How far apart one number of three composed transformations may come out, in
/// `1 / FINE`ths of a step: four steps, and one for every unit that the numbers
/// at either end are large.
pub open spec fn number_gap(u: int, v: int, p: int, q: int) -> int {
    4 * FINE + magnitude(u) + magnitude(v) + magnitude(p) + magnitude(q)
}

proof fn lemma_number(u: int, v: int, w: int, other: MatrixModel, p: int, q: int)
    ensures
        0x1_0000_0000 * magnitude(
            (w + share(u, other.x) + share(v, other.y) + share(
                share(u, other.a) + share(v, other.c),
                p,
            ) + share(share(u, other.b) + share(v, other.d), q)) - (w + share(
                u,
                other.x + share(other.a, p) + share(other.b, q),
            ) + share(v, other.y + share(other.c, p) + share(other.d, q))),
        ) <= number_gap(u, v, p, q),
{
    let r1 = share(other.a, p) + share(other.b, q);
    let r2 = share(other.c, p) + share(other.d, q);
    lemma_chain(u, v, other.a, other.b, other.c, other.d, p, q);
    lemma_share_of_sum(u, other.x, r1);
    lemma_share_of_sum(v, other.y, r2);
    assert(other.x + share(other.a, p) + share(other.b, q) == other.x + r1);
    assert(other.y + share(other.c, p) + share(other.d, q) == other.y + r2);
}

/// Three transformations composed come out the same whichever two are composed
/// first, but for rounding.
pub proof fn composing_is_associative(first: MatrixModel, second: MatrixModel, third: MatrixModel)
    requires
        matrix_is_inside(first.composed(second)),
        matrix_is_inside(second.composed(third)),
    ensures
        ({
            let left = first.composed(second).composed(third);
            let right = first.composed(second.composed(third));
            let (a, b, c, d) = (first.a, first.b, first.c, first.d);
            &&& FINE * magnitude(left.a - right.a) <= number_gap(a, b, third.a, third.c)
            &&& FINE * magnitude(left.b - right.b) <= number_gap(a, b, third.b, third.d)
            &&& FINE * magnitude(left.c - right.c) <= number_gap(c, d, third.a, third.c)
            &&& FINE * magnitude(left.d - right.d) <= number_gap(c, d, third.b, third.d)
            &&& FINE * magnitude(left.x - right.x) <= number_gap(a, b, third.x, third.y)
            &&& FINE * magnitude(left.y - right.y) <= number_gap(c, d, third.x, third.y)
        }),
{
    let ab = first.composed(second);
    let bc = second.composed(third);
    let (a, b, c, d) = (first.a, first.b, first.c, first.d);
    lemma_chain(a, b, second.a, second.b, second.c, second.d, third.a, third.c);
    lemma_chain(a, b, second.a, second.b, second.c, second.d, third.b, third.d);
    lemma_chain(c, d, second.a, second.b, second.c, second.d, third.a, third.c);
    lemma_chain(c, d, second.a, second.b, second.c, second.d, third.b, third.d);
    lemma_number(a, b, first.x, second, third.x, third.y);
    lemma_number(c, d, first.y, second, third.x, third.y);
    lemma_saturated_apart(
        share(ab.a, third.a) + share(ab.b, third.c),
        share(a, bc.a) + share(b, bc.c),
    );
    lemma_saturated_apart(
        share(ab.a, third.b) + share(ab.b, third.d),
        share(a, bc.b) + share(b, bc.d),
    );
    lemma_saturated_apart(
        share(ab.c, third.a) + share(ab.d, third.c),
        share(c, bc.a) + share(d, bc.c),
    );
    lemma_saturated_apart(
        share(ab.c, third.b) + share(ab.d, third.d),
        share(c, bc.b) + share(d, bc.d),
    );
    lemma_saturated_apart(
        ab.x + share(ab.a, third.x) + share(ab.b, third.y),
        first.x + share(a, bc.x) + share(b, bc.y),
    );
    lemma_saturated_apart(
        ab.y + share(ab.c, third.x) + share(ab.d, third.y),
        first.y + share(c, bc.x) + share(d, bc.y),
    );
}

/// Twice a share of a number that is nearly one, or nearly nothing.
proof fn lemma_near_share(whole: int, product: int, near: int, size: int, x: int)
    requires
        magnitude(0x1_0000_0000 * whole - product) <= 0x1_0000_0000,
        2 * magnitude(product - near * 0x1_0000_0000_0000_0000) <= size,
        0 <= size,
    ensures
        0x2_0000_0000_0000_0000 * magnitude(share(whole, x) - near * x)
            <= 0x1_0000_0000_0000_0000 + magnitude(x) * (size + 2 * 0x1_0000_0000),
{
    let rest = 0x1_0000_0000 * whole - near * 0x1_0000_0000_0000_0000;
    assert(2 * magnitude(rest) <= size + 2 * 0x1_0000_0000);
    lemma_share(whole, x);
    let bound = size + 2 * 0x1_0000_0000;
    lemma_bounded_product(x, 2 * rest, bound);
    assert(x * (2 * rest) == 0x2_0000_0000 * (whole * x) - 0x2_0000_0000_0000_0000 * (near * x))
        by (nonlinear_arith)
        requires
            rest == 0x1_0000_0000 * whole - near * 0x1_0000_0000_0000_0000,
    ;
    assert(bound * magnitude(x) == magnitude(x) * bound) by (nonlinear_arith);
    let gap = share(whole, x) - near * x;
    let off = 0x1_0000_0000 * share(whole, x) - whole * x;
    assert(0x2_0000_0000_0000_0000 * gap == x * (2 * rest) + 0x2_0000_0000 * off);
    assert(0x2_0000_0000_0000_0000 * magnitude(gap) <= magnitude(x * (2 * rest)) + 0x2_0000_0000
        * magnitude(off));
}

/// How far from where it was one coordinate of a point may come back, in halves
/// of `1 / (FINE * FINE)`th of a step: seven steps and a little, one and a half
/// for every unit of the scale of the inverse's row, and for every 65536 pixels
/// of the point two, and half as many as the transformation's columns,
/// `across` and `down`, are units large.
pub open spec fn return_gap(u: int, v: int, x: int, y: int, across: int, down: int) -> int {
    14 * (FINE * FINE) + FINE * (2 * 65536 + 3 * (magnitude(u) + magnitude(v))) + magnitude(x) * (
    across + 4 * FINE) + magnitude(y) * (down + 4 * FINE)
}

proof fn lemma_coordinate_returns(
    u: int,
    v: int,
    w: int,
    matrix: MatrixModel,
    x: int,
    y: int,
    across: int,
    down: int,
    first: bool,
)
    requires
        across == magnitude(matrix.a) + magnitude(matrix.c),
        down == magnitude(matrix.b) + magnitude(matrix.d),
        w + share(u, matrix.x) + share(v, matrix.y) == 0,
        2 * magnitude(
            u * matrix.a + v * matrix.c - (if first { 1int } else { 0 })
                * 0x1_0000_0000_0000_0000,
        ) <= across,
        2 * magnitude(
            u * matrix.b + v * matrix.d - (if first { 0int } else { 1 })
                * 0x1_0000_0000_0000_0000,
        ) <= down,
    ensures
        0x2_0000_0000_0000_0000 * magnitude(
            (nearest(w, 65536) + share(
                u,
                nearest(matrix.x, 65536) + share(matrix.a, x) + share(matrix.b, y),
            ) + share(v, nearest(matrix.y, 65536) + share(matrix.c, x) + share(matrix.d, y))) - (
            if first {
                x
            } else {
                y
            }),
        ) <= return_gap(u, v, x, y, across, down),
{
    let (m, n) = if first {
        (1int, 0int)
    } else {
        (0int, 1int)
    };
    let a = share(u, matrix.a) + share(v, matrix.c);
    let b = share(u, matrix.b) + share(v, matrix.d);
    lemma_coordinate(u, v, w, matrix, x, y);
    lemma_share(u, matrix.a);
    lemma_share(v, matrix.c);
    lemma_share(u, matrix.b);
    lemma_share(v, matrix.d);
    lemma_near_share(a, u * matrix.a + v * matrix.c, m, across, x);
    lemma_near_share(b, u * matrix.b + v * matrix.d, n, down, y);
    assert(nearest(0, 65536) == 65536int / 131072);
    assert(m * x + n * y == if first { x } else { y }) by (nonlinear_arith)
        requires
            first ==> m == 1 && n == 0,
            !first ==> m == 0 && n == 1,
    ;
    let there = nearest(w, 65536) + share(
        u,
        nearest(matrix.x, 65536) + share(matrix.a, x) + share(matrix.b, y),
    ) + share(v, nearest(matrix.y, 65536) + share(matrix.c, x) + share(matrix.d, y));
    let here = share(a, x) + share(b, y);
    let gap = coordinate_gap(u, v, x, y);
    assert(0x2_0000_0000 * magnitude(here - there) <= gap);
    let off = magnitude(here - there);
    assert(0x2_0000_0000_0000_0000 * off <= 0x1_0000_0000 * gap) by (nonlinear_arith)
        requires
            0x2_0000_0000 * off <= gap,
    ;
    let left = share(a, x) - m * x;
    let right = share(b, y) - n * y;
    lemma_three_parts(there - here, left, right);
    let back = there - (m * x + n * y);
    assert(back == there - here + left + right);
    assert(off == magnitude(there - here));
    assert(magnitude(back) <= off + magnitude(left) + magnitude(right));
    let (near, far, lost) = (magnitude(left), magnitude(right), magnitude(back));
    assert(0x2_0000_0000_0000_0000 * lost <= 0x2_0000_0000_0000_0000 * off
        + 0x2_0000_0000_0000_0000 * near + 0x2_0000_0000_0000_0000 * far) by (nonlinear_arith)
        requires
            lost <= off + near + far,
    ;
    let p = magnitude(x);
    let q = magnitude(y);
    assert(p * (across + 2 * 0x1_0000_0000) + 0x2_0000_0000 * p == p * (across + 4
        * 0x1_0000_0000)) by (nonlinear_arith);
    assert(q * (down + 2 * 0x1_0000_0000) + 0x2_0000_0000 * q == q * (down + 4 * 0x1_0000_0000))
        by (nonlinear_arith);
    assert(FINE * FINE == 0x1_0000_0000_0000_0000) by (nonlinear_arith)
        requires
            FINE == 0x1_0000_0000,
    ;
    let scale = 2 * 65536 + 3 * (magnitude(u) + magnitude(v));
    assert(FINE * scale == 0x1_0000_0000 * scale);
    assert(0x1_0000_0000 * gap == 12 * 0x1_0000_0000_0000_0000 + 0x1_0000_0000 * scale
        + 0x2_0000_0000 * p + 0x2_0000_0000 * q);
    assert(p * (across + 4 * FINE) == p * (across + 4 * 0x1_0000_0000));
    assert(q * (down + 4 * FINE) == q * (down + 4 * 0x1_0000_0000));
}

/// The inverse brings a point back to where it was, but for rounding.
pub proof fn inverting_brings_points_back(matrix: MatrixModel, x: int, y: int)
    requires
        matrix.is_moderate(),
        matrix.determinant() != 0,
        matrix_is_inside(matrix.inverted()),
        is_inside(matrix.applied(x, y).0),
        is_inside(matrix.applied(x, y).1),
        is_held(x),
        is_held(y),
    ensures
        ({
            let inverse = matrix.inverted();
            let there = matrix.applied(x, y);
            let back = inverse.applied(there.0, there.1);
            let across = magnitude(matrix.a) + magnitude(matrix.c);
            let down = magnitude(matrix.b) + magnitude(matrix.d);
            &&& 2 * ((FINE * FINE) * magnitude(back.0 - x)) <= return_gap(
                inverse.a,
                inverse.b,
                x,
                y,
                across,
                down,
            )
            &&& 2 * ((FINE * FINE) * magnitude(back.1 - y)) <= return_gap(
                inverse.c,
                inverse.d,
                x,
                y,
                across,
                down,
            )
        }),
{
    inverting_a_transformation_undoes_it(matrix);
    let inverse = matrix.inverted();
    let across = magnitude(matrix.a) + magnitude(matrix.c);
    let down = magnitude(matrix.b) + magnitude(matrix.d);
    assert(FINE * FINE == 0x1_0000_0000_0000_0000) by (nonlinear_arith)
        requires
            FINE == 0x1_0000_0000,
    ;
    lemma_coordinate_returns(inverse.a, inverse.b, inverse.x, matrix, x, y, across, down, true);
    lemma_coordinate_returns(inverse.c, inverse.d, inverse.y, matrix, x, y, across, down, false);
    let (p, q) = matrix.applied(x, y);
    lemma_saturated_apart(
        nearest(inverse.x, 65536) + share(inverse.a, p) + share(inverse.b, q),
        x,
    );
    lemma_saturated_apart(
        nearest(inverse.y, 65536) + share(inverse.c, p) + share(inverse.d, q),
        y,
    );
}

} // verus!
