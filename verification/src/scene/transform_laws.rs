//! Where transformations take points.

use crate::fixed::nearest;
use crate::scene::transform::{is_held, is_inside, magnitude, share, MatrixModel, FINE};
use vstd::prelude::*;

verus! {

proof fn lemma_nearest_is_near(numerator: int, denominator: int)
    requires
        0 < denominator,
    ensures
        2 * magnitude(denominator * nearest(numerator, denominator) - numerator) <= denominator,
{
    let r = nearest(numerator, denominator);
    let n = 2 * numerator + denominator;
    let d = 2 * denominator;
    assert(d * r <= n < d * r + d) by (nonlinear_arith)
        requires
            0 < d,
            r == n / d,
    ;
    assert(d * r == 2 * (denominator * r)) by (nonlinear_arith)
        requires
            d == 2 * denominator,
    ;
}

/// Whether a number is the length that `fine` is, but for three halves of a
/// step.
pub open spec fn is_about(v: int, fine: int) -> bool {
    2 * magnitude(0x1_0000_0000 * v - fine) <= 3 * 0x1_0000_0000
}

/// A point goes where the rows say, but for rounding: its first coordinate by
/// the first row and its second by the second, and then along the translation.
pub proof fn points_go_where_the_rows_say(matrix: MatrixModel, x: int, y: int)
    requires
        is_inside(matrix.applied(x, y).0),
        is_inside(matrix.applied(x, y).1),
    ensures
        is_about(matrix.applied(x, y).0, matrix.a * x + matrix.b * y + 65536 * matrix.x),
        is_about(matrix.applied(x, y).1, matrix.c * x + matrix.d * y + 65536 * matrix.y),
{
    reveal(share);
    assert(FINE == 0x1_0000_0000);
    lemma_nearest_is_near(matrix.x, 65536);
    lemma_nearest_is_near(matrix.y, 65536);
    lemma_nearest_is_near(matrix.a * x, 0x1_0000_0000);
    lemma_nearest_is_near(matrix.b * y, 0x1_0000_0000);
    lemma_nearest_is_near(matrix.c * x, 0x1_0000_0000);
    lemma_nearest_is_near(matrix.d * y, 0x1_0000_0000);
}

/// A move takes a point as far as it says.
pub proof fn moves_take_points_along(dx: int, dy: int, x: int, y: int)
    requires
        is_held(dx * 65536),
        is_held(dy * 65536),
        is_inside(x + dx),
        is_inside(y + dy),
        is_inside(MatrixModel::moving(dx, dy).applied(x, y).0),
        is_inside(MatrixModel::moving(dx, dy).applied(x, y).1),
    ensures
        is_about(MatrixModel::moving(dx, dy).applied(x, y).0, 0x1_0000_0000 * (x + dx)),
        is_about(MatrixModel::moving(dx, dy).applied(x, y).1, 0x1_0000_0000 * (y + dy)),
{
    points_go_where_the_rows_say(MatrixModel::moving(dx, dy), x, y);
    assert(FINE * x == 0x1_0000_0000 * x && FINE * y == 0x1_0000_0000 * y) by (nonlinear_arith)
        requires
            FINE == 0x1_0000_0000,
    ;
    assert(0 * x == 0 && 0 * y == 0) by (nonlinear_arith);
}

/// A turn takes a point on the first axis towards the second, which is
/// downwards: a point at an angle goes to the angle's sum with the turn's.
pub proof fn turns_take_points_round(cosine: int, sine: int, x: int, y: int)
    requires
        is_inside(MatrixModel::turning(cosine, sine).applied(x, y).0),
        is_inside(MatrixModel::turning(cosine, sine).applied(x, y).1),
    ensures
        is_about(MatrixModel::turning(cosine, sine).applied(x, y).0, cosine * x - sine * y),
        is_about(MatrixModel::turning(cosine, sine).applied(x, y).1, sine * x + cosine * y),
{
    points_go_where_the_rows_say(MatrixModel::turning(cosine, sine), x, y);
    assert((-sine) * y == -(sine * y)) by (nonlinear_arith);
}

/// A scale takes each coordinate by its own factor.
pub proof fn scales_take_each_coordinate(width: int, height: int, x: int, y: int)
    requires
        is_inside(MatrixModel::stretching(width, height).applied(x, y).0),
        is_inside(MatrixModel::stretching(width, height).applied(x, y).1),
    ensures
        is_about(MatrixModel::stretching(width, height).applied(x, y).0, width * x),
        is_about(MatrixModel::stretching(width, height).applied(x, y).1, height * y),
{
    points_go_where_the_rows_say(MatrixModel::stretching(width, height), x, y);
    assert(0 * x == 0 && 0 * y == 0) by (nonlinear_arith);
}

} // verus!
