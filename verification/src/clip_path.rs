//! Clip shapes of any outline.
//!
//! A content mask is a box. A [`ClipPath`] is an outline of lines and curves
//! with a [`FillRule`], kept as it was drawn, so that a corner can be a quarter
//! of an ellipse and a shape need not be convex.

use crate::fixed::{max, min, minus, nearest, plus, product, saturate};
use crate::geometry::{
    Bounds, Corners, Length, Pixels, Place, Point, Rect, ScaledPixels, Size,
};
use vstd::prelude::*;

verus! {

/// The control-point offset that makes a cubic Bezier approximate a quarter of
/// an ellipse, in hundred-millionths of the radius.
pub const KAPPA: i64 = 55_228_475;

/// What [`KAPPA`] is counted in.
pub const KAPPA_SCALE: i64 = 100_000_000;

/// Which points a path's contours enclose.
#[derive(Clone, Copy, Debug, PartialEq, Eq, Hash, Default, Structural)]
pub enum FillRule {
    /// Those with an odd number of crossings.
    #[default]
    EvenOdd,
    /// Those with a winding number other than zero.
    NonZero,
}

/// One step of a [`ClipPath`]'s outline.
#[derive(Clone, Copy, Debug, PartialEq, Eq)]
pub enum ClipPathSegment<P> {
    /// Begin a new contour at this point.
    MoveTo(Point<P>),
    /// A straight line from the current point.
    LineTo(Point<P>),
    /// A quadratic Bezier from the current point.
    QuadTo {
        /// The single control point.
        control: Point<P>,
        /// The end point.
        to: Point<P>,
    },
    /// A cubic Bezier from the current point.
    CubicTo {
        /// The control point leaving the current point.
        control1: Point<P>,
        /// The control point entering `to`.
        control2: Point<P>,
        /// The end point.
        to: Point<P>,
    },
    /// Close the current contour back to the point its `MoveTo` opened it at.
    Close,
}

/// `at` under a scale of `factor`.
pub open spec fn scaled_point(at: Point<Pixels>, factor: int) -> Point<ScaledPixels> {
    Point {
        x: ScaledPixels(product(at.x.0 as int, factor) as i64),
        y: ScaledPixels(product(at.y.0 as int, factor) as i64),
    }
}

impl<P: Length> ClipPathSegment<P> {
    /// Every point the segment names.
    pub open spec fn points(self) -> Seq<Place> {
        match self {
            ClipPathSegment::MoveTo(to) => seq![to@],
            ClipPathSegment::LineTo(to) => seq![to@],
            ClipPathSegment::QuadTo { control, to } => seq![control@, to@],
            ClipPathSegment::CubicTo { control1, control2, to } => seq![
                control1@,
                control2@,
                to@,
            ],
            ClipPathSegment::Close => seq![],
        }
    }
}

impl ClipPathSegment<Pixels> {
    pub open spec fn scaled(self, factor: int) -> ClipPathSegment<ScaledPixels> {
        match self {
            ClipPathSegment::MoveTo(to) => ClipPathSegment::MoveTo(scaled_point(to, factor)),
            ClipPathSegment::LineTo(to) => ClipPathSegment::LineTo(scaled_point(to, factor)),
            ClipPathSegment::QuadTo { control, to } => ClipPathSegment::QuadTo {
                control: scaled_point(control, factor),
                to: scaled_point(to, factor),
            },
            ClipPathSegment::CubicTo { control1, control2, to } => ClipPathSegment::CubicTo {
                control1: scaled_point(control1, factor),
                control2: scaled_point(control2, factor),
                to: scaled_point(to, factor),
            },
            ClipPathSegment::Close => ClipPathSegment::Close,
        }
    }

    pub fn scale(&self, factor: i64) -> (r: ClipPathSegment<ScaledPixels>)
        ensures
            r == self.scaled(factor as int),
    {
        match self {
            ClipPathSegment::MoveTo(to) => ClipPathSegment::MoveTo(to.scale(factor)),
            ClipPathSegment::LineTo(to) => ClipPathSegment::LineTo(to.scale(factor)),
            ClipPathSegment::QuadTo { control, to } => ClipPathSegment::QuadTo {
                control: control.scale(factor),
                to: to.scale(factor),
            },
            ClipPathSegment::CubicTo { control1, control2, to } => ClipPathSegment::CubicTo {
                control1: control1.scale(factor),
                control2: control2.scale(factor),
                to: to.scale(factor),
            },
            ClipPathSegment::Close => ClipPathSegment::Close,
        }
    }
}

/// The edges of the smallest box around some points.
pub struct Hull {
    pub left: int,
    pub top: int,
    pub right: int,
    pub bottom: int,
}

impl Hull {
    pub open spec fn holds(self, at: Place) -> bool {
        self.left <= at.x <= self.right && self.top <= at.y <= self.bottom
    }

    pub open spec fn widened(hull: Option<Hull>, at: Place) -> Hull {
        match hull {
            None => Hull { left: at.x, top: at.y, right: at.x, bottom: at.y },
            Some(h) => Hull {
                left: min(h.left, at.x),
                top: min(h.top, at.y),
                right: max(h.right, at.x),
                bottom: max(h.bottom, at.y),
            },
        }
    }
}

/// The smallest box around `points`, or `None` where there are none.
pub open spec fn hull_of(points: Seq<Place>) -> Option<Hull>
    decreases points.len(),
{
    if points.len() == 0 {
        None
    } else {
        Some(Hull::widened(hull_of(points.drop_last()), points.last()))
    }
}

/// Every point the segments name, in order.
pub open spec fn points_of<P: Length>(segments: Seq<ClipPathSegment<P>>) -> Seq<Place>
    decreases segments.len(),
{
    if segments.len() == 0 {
        Seq::empty()
    } else {
        points_of(segments.drop_last()) + segments.last().points()
    }
}

/// The box around every point the segments name, or the box at nought where
/// they name none.
pub open spec fn box_of<P: Length>(segments: Seq<ClipPathSegment<P>>) -> Rect {
    match hull_of(points_of(segments)) {
        None => Rect { x: 0, y: 0, width: 0, height: 0 },
        Some(h) => Rect::from_corners(h.left, h.top, h.right, h.bottom),
    }
}

/// A clip shape, as what it says.
#[verifier::ext_equal]
pub struct ClipPathModel<P> {
    pub segments: Seq<ClipPathSegment<P>>,
    pub fill_rule: FillRule,
    pub bounds: Bounds<P>,
}

/// A clip shape of any outline: its contours and a [`FillRule`].
#[derive(Debug, PartialEq, Eq)]
pub struct ClipPath<P> {
    segments: Vec<ClipPathSegment<P>>,
    fill_rule: FillRule,
    bounds: Bounds<P>,
}

impl<P> View for ClipPath<P> {
    type V = ClipPathModel<P>;

    closed spec fn view(&self) -> ClipPathModel<P> {
        ClipPathModel {
            segments: self.segments@,
            fill_rule: self.fill_rule,
            bounds: self.bounds,
        }
    }
}

impl<P: Length> Clone for ClipPath<P> {
    fn clone(&self) -> (r: Self)
        ensures
            r@ == self@,
    {
        let mut segments: Vec<ClipPathSegment<P>> = Vec::new();
        let mut index: usize = 0;
        while index < self.segments.len()
            invariant
                index <= self.segments@.len(),
                segments@ == self.segments@.take(index as int),
            decreases self.segments@.len() - index,
        {
            segments.push(self.segments[index]);
            index += 1;
            assert(segments@ =~= self.segments@.take(index as int));
        }
        assert(self.segments@.take(index as int) =~= self.segments@);
        ClipPath { segments, fill_rule: self.fill_rule, bounds: self.bounds }
    }
}

impl<P: Length> ClipPath<P> {
    /// The contours, in the order they were drawn.
    pub fn segments(&self) -> (r: &[ClipPathSegment<P>])
        ensures
            r@ == self@.segments,
    {
        self.segments.as_slice()
    }

    /// Which points the contours enclose.
    pub fn fill_rule(&self) -> (r: FillRule)
        ensures
            r == self@.fill_rule,
    {
        self.fill_rule
    }

    /// The smallest box that holds every point of the path, a curve's control
    /// points with it.
    pub fn bounds(&self) -> (r: Bounds<P>)
        ensures
            r == self@.bounds,
    {
        self.bounds
    }

    /// Whether the path has no contours at all, and so clips everything away.
    pub fn is_empty(&self) -> (r: bool)
        ensures
            r == (self@.segments.len() == 0),
    {
        self.segments.len() == 0
    }
}

/// The factor by which radii shrink, as a fraction: the smaller of `ratio` and
/// `extent / sum`.
pub open spec fn tighter(ratio: (int, int), extent: int, sum: int) -> (int, int) {
    if sum > 0 && extent * ratio.1 < ratio.0 * sum {
        (extent, sum)
    } else {
        ratio
    }
}

/// The radii of a rounded box's corners.
pub struct Radii {
    pub top_left: (int, int),
    pub top_right: (int, int),
    pub bottom_right: (int, int),
    pub bottom_left: (int, int),
}

pub open spec fn radius_of(asked: Size<Pixels>) -> (int, int) {
    (max(asked.width.0 as int, 0), max(asked.height.0 as int, 0))
}

pub open spec fn shrunk(radius: (int, int), ratio: (int, int)) -> (int, int) {
    if ratio.0 < ratio.1 {
        (radius.0 * ratio.0 / ratio.1, radius.1 * ratio.0 / ratio.1)
    } else {
        radius
    }
}

/// The factor by which CSS shrinks the radii of a box: where the two radii on
/// some edge together exceed it, the least of the edges' shares.
pub open spec fn overlap_ratio(width: int, height: int, radii: Radii) -> (int, int) {
    let ratio = (1, 1);
    let ratio = tighter(ratio, width, radii.top_left.0 + radii.top_right.0);
    let ratio = tighter(ratio, width, radii.bottom_left.0 + radii.bottom_right.0);
    let ratio = tighter(ratio, height, radii.top_left.1 + radii.bottom_left.1);
    tighter(ratio, height, radii.top_right.1 + radii.bottom_right.1)
}

pub open spec fn fitted_radii(width: int, height: int, asked: Corners<Size<Pixels>>) -> Radii {
    let radii = Radii {
        top_left: radius_of(asked.top_left),
        top_right: radius_of(asked.top_right),
        bottom_right: radius_of(asked.bottom_right),
        bottom_left: radius_of(asked.bottom_left),
    };
    let ratio = overlap_ratio(width, height, radii);
    Radii {
        top_left: shrunk(radii.top_left, ratio),
        top_right: shrunk(radii.top_right, ratio),
        bottom_right: shrunk(radii.bottom_right, ratio),
        bottom_left: shrunk(radii.bottom_left, ratio),
    }
}

/// How far along a radius a corner's control point stands.
#[verifier::opaque]
pub open spec fn kappa_of(radius: int) -> int {
    nearest(radius * KAPPA, KAPPA_SCALE as int)
}

pub open spec fn plus_of(a: int, b: int) -> int {
    saturate(a + b)
}

pub open spec fn minus_of(a: int, b: int) -> int {
    saturate(a - b)
}

pub open spec fn at(x: int, y: int) -> Point<Pixels> {
    Point { x: Pixels(x as i64), y: Pixels(y as i64) }
}

/// The outline of a box with elliptical corners of radii that fit it, clockwise
/// from the top edge.
pub open spec fn outline_with(bounds: Rect, radii: Radii) -> Seq<ClipPathSegment<Pixels>> {
    let left = bounds.x;
    let top = bounds.y;
    let width = max(bounds.width, 0);
    let height = max(bounds.height, 0);
    let right = plus_of(left, width);
    let bottom = plus_of(top, height);
    let (tl, tr) = (radii.top_left, radii.top_right);
    let (br, bl) = (radii.bottom_right, radii.bottom_left);
    seq![
        ClipPathSegment::MoveTo(at(plus_of(left, tl.0), top)),
        ClipPathSegment::LineTo(at(minus_of(right, tr.0), top)),
        ClipPathSegment::CubicTo {
            control1: at(plus_of(minus_of(right, tr.0), kappa_of(tr.0)), top),
            control2: at(right, minus_of(plus_of(top, tr.1), kappa_of(tr.1))),
            to: at(right, plus_of(top, tr.1)),
        },
        ClipPathSegment::LineTo(at(right, minus_of(bottom, br.1))),
        ClipPathSegment::CubicTo {
            control1: at(right, plus_of(minus_of(bottom, br.1), kappa_of(br.1))),
            control2: at(plus_of(minus_of(right, br.0), kappa_of(br.0)), bottom),
            to: at(minus_of(right, br.0), bottom),
        },
        ClipPathSegment::LineTo(at(plus_of(left, bl.0), bottom)),
        ClipPathSegment::CubicTo {
            control1: at(minus_of(plus_of(left, bl.0), kappa_of(bl.0)), bottom),
            control2: at(left, plus_of(minus_of(bottom, bl.1), kappa_of(bl.1))),
            to: at(left, minus_of(bottom, bl.1)),
        },
        ClipPathSegment::LineTo(at(left, plus_of(top, tl.1))),
        ClipPathSegment::CubicTo {
            control1: at(left, minus_of(plus_of(top, tl.1), kappa_of(tl.1))),
            control2: at(minus_of(plus_of(left, tl.0), kappa_of(tl.0)), top),
            to: at(plus_of(left, tl.0), top),
        },
        ClipPathSegment::Close,
    ]
}

/// The outline of a box with elliptical corners, for the radii asked for.
pub open spec fn rounded_rect_outline(
    bounds: Rect,
    asked: Corners<Size<Pixels>>,
) -> Seq<ClipPathSegment<Pixels>> {
    outline_with(bounds, fitted_radii(max(bounds.width, 0), max(bounds.height, 0), asked))
}

/// `radius`, shrunk by the fraction `ratio`.
fn shrink(radius: i64, ratio: (i128, i128)) -> (r: i64)
    requires
        0 <= radius,
        0 <= ratio.0 <= i64::MAX,
        0 < ratio.1,
    ensures
        r == if ratio.0 < ratio.1 {
            radius * ratio.0 / (ratio.1 as int)
        } else {
            radius as int
        },
        0 <= r <= radius,
{
    if ratio.0 < ratio.1 {
        assert(0 <= radius * ratio.0 <= 0x7fff_ffff_ffff_ffff * 0x7fff_ffff_ffff_ffff)
            by (nonlinear_arith)
            requires
                0 <= radius <= 0x7fff_ffff_ffff_ffff,
                0 <= ratio.0 <= 0x7fff_ffff_ffff_ffff,
        ;
        assert(0 <= radius * ratio.0 / (ratio.1 as int) <= radius) by (nonlinear_arith)
            requires
                0 <= radius,
                0 <= ratio.0 < ratio.1,
        ;
        (radius as i128 * ratio.0 / ratio.1) as i64
    } else {
        radius
    }
}

fn tighten(ratio: (i128, i128), extent: i64, sum: i128) -> (r: (i128, i128))
    requires
        0 <= ratio.0 <= i64::MAX,
        0 < ratio.1 <= 2 * i64::MAX,
        0 <= extent,
        0 <= sum <= 2 * i64::MAX,
    ensures
        (r.0 as int, r.1 as int) == tighter(
            (ratio.0 as int, ratio.1 as int),
            extent as int,
            sum as int,
        ),
        0 <= r.0 <= i64::MAX,
        0 < r.1 <= 2 * i64::MAX,
{
    assert(0 <= extent * ratio.1 <= 0x7fff_ffff_ffff_ffff * 0xffff_ffff_ffff_fffe)
        by (nonlinear_arith)
        requires
            0 <= extent <= 0x7fff_ffff_ffff_ffff,
            0 < ratio.1 <= 0xffff_ffff_ffff_fffe,
    ;
    assert(0 <= ratio.0 * sum <= 0x7fff_ffff_ffff_ffff * 0xffff_ffff_ffff_fffe)
        by (nonlinear_arith)
        requires
            0 <= ratio.0 <= 0x7fff_ffff_ffff_ffff,
            0 <= sum <= 0xffff_ffff_ffff_fffe,
    ;
    if sum > 0 && extent as i128 * ratio.1 < ratio.0 * sum {
        (extent as i128, sum)
    } else {
        ratio
    }
}

/// How far along a radius a corner's control point stands.
fn kappa(radius: i64) -> (r: i64)
    requires
        0 <= radius,
    ensures
        r == kappa_of(radius as int),
        0 <= r <= radius,
{
    reveal(kappa_of);
    let n: i128 = 2 * (radius as i128 * KAPPA as i128) + KAPPA_SCALE as i128;
    (n / (2 * KAPPA_SCALE as i128)) as i64
}

fn place(x: i64, y: i64) -> (r: Point<Pixels>)
    ensures
        r == at(x as int, y as int),
{
    Point { x: Pixels(x), y: Pixels(y) }
}

fn nonnegative(v: i64) -> (r: i64)
    ensures
        r == max(v as int, 0),
{
    if v < 0 {
        0
    } else {
        v
    }
}

impl ClipPath<Pixels> {
    /// Start building a path.
    pub fn builder() -> (r: ClipPathBuilder)
        ensures
            r@ == (BuilderModel { segments: Seq::empty(), fill_rule: FillRule::NonZero }),
    {
        ClipPathBuilder::default()
    }

    /// A box whose corners are quarters of ellipses, with one horizontal and
    /// one vertical radius per corner.
    ///
    /// Radii below nothing count as nothing, and where two radii on one edge
    /// would overlap all of them shrink together. A square corner is still a
    /// cubic, of no length, so there are always ten segments.
    pub fn rounded_rect(bounds: Bounds<Pixels>, radii: Corners<Size<Pixels>>) -> (r: Self)
        ensures
            r@.segments == rounded_rect_outline(bounds@, radii),
            r@.fill_rule == FillRule::NonZero,
            r@.bounds@ == box_of(rounded_rect_outline(bounds@, radii)),
    {
        let left: i64 = bounds.origin.x.0;
        let top: i64 = bounds.origin.y.0;
        let width: i64 = nonnegative(bounds.size.width.0);
        let height: i64 = nonnegative(bounds.size.height.0);
        let right: i64 = plus(left, width);
        let bottom: i64 = plus(top, height);

        let tl = (nonnegative(radii.top_left.width.0), nonnegative(radii.top_left.height.0));
        let tr = (nonnegative(radii.top_right.width.0), nonnegative(radii.top_right.height.0));
        let br = (
            nonnegative(radii.bottom_right.width.0),
            nonnegative(radii.bottom_right.height.0),
        );
        let bl = (nonnegative(radii.bottom_left.width.0), nonnegative(radii.bottom_left.height.0));

        let ratio = tighten((1, 1), width, tl.0 as i128 + tr.0 as i128);
        let ratio = tighten(ratio, width, bl.0 as i128 + br.0 as i128);
        let ratio = tighten(ratio, height, tl.1 as i128 + bl.1 as i128);
        let ratio = tighten(ratio, height, tr.1 as i128 + br.1 as i128);
        let tl = (shrink(tl.0, ratio), shrink(tl.1, ratio));
        let tr = (shrink(tr.0, ratio), shrink(tr.1, ratio));
        let br = (shrink(br.0, ratio), shrink(br.1, ratio));
        let bl = (shrink(bl.0, ratio), shrink(bl.1, ratio));

        let built = ClipPath::builder().move_to(place(plus(left, tl.0), top)).line_to(
            place(minus(right, tr.0), top),
        ).cubic_to(
            place(plus(minus(right, tr.0), kappa(tr.0)), top),
            place(right, minus(plus(top, tr.1), kappa(tr.1))),
            place(right, plus(top, tr.1)),
        ).line_to(place(right, minus(bottom, br.1))).cubic_to(
            place(right, plus(minus(bottom, br.1), kappa(br.1))),
            place(plus(minus(right, br.0), kappa(br.0)), bottom),
            place(minus(right, br.0), bottom),
        ).line_to(place(plus(left, bl.0), bottom)).cubic_to(
            place(minus(plus(left, bl.0), kappa(bl.0)), bottom),
            place(left, plus(minus(bottom, bl.1), kappa(bl.1))),
            place(left, minus(bottom, bl.1)),
        ).line_to(place(left, plus(top, tl.1))).cubic_to(
            place(left, minus(plus(top, tl.1), kappa(tl.1))),
            place(minus(plus(left, tl.0), kappa(tl.0)), top),
            place(plus(left, tl.0), top),
        ).close().build();
        proof {
            let fitted = fitted_radii(width as int, height as int, radii);
            assert(fitted.top_left == (tl.0 as int, tl.1 as int));
            assert(fitted.top_right == (tr.0 as int, tr.1 as int));
            assert(fitted.bottom_right == (br.0 as int, br.1 as int));
            assert(fitted.bottom_left == (bl.0 as int, bl.1 as int));
            assert(built@.segments =~= rounded_rect_outline(bounds@, radii));
        }
        built
    }

    /// The path in device space, under a scale of `factor`.
    pub fn scale(&self, factor: i64) -> (r: ClipPath<ScaledPixels>)
        ensures
            r@.segments == self@.segments.map_values(
                |s: ClipPathSegment<Pixels>| s.scaled(factor as int),
            ),
            r@.fill_rule == self@.fill_rule,
            r@.bounds@ == (Rect {
                x: product(self@.bounds@.x, factor as int),
                y: product(self@.bounds@.y, factor as int),
                width: product(self@.bounds@.width, factor as int),
                height: product(self@.bounds@.height, factor as int),
            }),
    {
        let mut segments: Vec<ClipPathSegment<ScaledPixels>> = Vec::new();
        let mut index: usize = 0;
        while index < self.segments.len()
            invariant
                index <= self.segments@.len(),
                segments@ == self.segments@.take(index as int).map_values(
                    |s: ClipPathSegment<Pixels>| s.scaled(factor as int),
                ),
            decreases self.segments@.len() - index,
        {
            segments.push(self.segments[index].scale(factor));
            index += 1;
            assert(segments@ =~= self.segments@.take(index as int).map_values(
                |s: ClipPathSegment<Pixels>| s.scaled(factor as int),
            ));
        }
        assert(self.segments@.take(index as int) =~= self.segments@);
        ClipPath { segments, fill_rule: self.fill_rule, bounds: self.bounds.scale(factor) }
    }
}

/// The contours of a path that is still being drawn.
#[verifier::ext_equal]
pub struct BuilderModel {
    pub segments: Seq<ClipPathSegment<Pixels>>,
    pub fill_rule: FillRule,
}

/// Gathers the contours of a [`ClipPath`].
#[derive(Debug)]
pub struct ClipPathBuilder {
    segments: Vec<ClipPathSegment<Pixels>>,
    fill_rule: FillRule,
}

impl View for ClipPathBuilder {
    type V = BuilderModel;

    closed spec fn view(&self) -> BuilderModel {
        BuilderModel { segments: self.segments@, fill_rule: self.fill_rule }
    }
}

impl Default for ClipPathBuilder {
    fn default() -> (r: Self)
        ensures
            r@ == (BuilderModel { segments: Seq::empty(), fill_rule: FillRule::NonZero }),
    {
        ClipPathBuilder { segments: Vec::new(), fill_rule: FillRule::NonZero }
    }
}

impl ClipPathBuilder {
    /// Set which points the finished contours enclose.
    pub fn fill_rule(self, fill_rule: FillRule) -> (r: Self)
        ensures
            r@ == (BuilderModel { fill_rule, ..self@ }),
    {
        ClipPathBuilder { segments: self.segments, fill_rule }
    }

    fn with(self, segment: ClipPathSegment<Pixels>) -> (r: Self)
        ensures
            r@ == (BuilderModel { segments: self@.segments.push(segment), ..self@ }),
    {
        let mut segments = self.segments;
        segments.push(segment);
        ClipPathBuilder { segments, fill_rule: self.fill_rule }
    }

    /// Begin a new contour at `to`.
    pub fn move_to(self, to: Point<Pixels>) -> (r: Self)
        ensures
            r@ == (BuilderModel {
                segments: self@.segments.push(ClipPathSegment::MoveTo(to)),
                ..self@
            }),
    {
        self.with(ClipPathSegment::MoveTo(to))
    }

    /// Draw a straight line from the current point to `to`.
    pub fn line_to(self, to: Point<Pixels>) -> (r: Self)
        ensures
            r@ == (BuilderModel {
                segments: self@.segments.push(ClipPathSegment::LineTo(to)),
                ..self@
            }),
    {
        self.with(ClipPathSegment::LineTo(to))
    }

    /// Draw a quadratic Bezier from the current point to `to`.
    pub fn quad_to(self, control: Point<Pixels>, to: Point<Pixels>) -> (r: Self)
        ensures
            r@ == (BuilderModel {
                segments: self@.segments.push(ClipPathSegment::QuadTo { control, to }),
                ..self@
            }),
    {
        self.with(ClipPathSegment::QuadTo { control, to })
    }

    /// Draw a cubic Bezier from the current point to `to`.
    pub fn cubic_to(
        self,
        control1: Point<Pixels>,
        control2: Point<Pixels>,
        to: Point<Pixels>,
    ) -> (r: Self)
        ensures
            r@ == (BuilderModel {
                segments: self@.segments.push(
                    ClipPathSegment::CubicTo { control1, control2, to },
                ),
                ..self@
            }),
    {
        self.with(ClipPathSegment::CubicTo { control1, control2, to })
    }

    /// Close the current contour back to the point it started at.
    pub fn close(self) -> (r: Self)
        ensures
            r@ == (BuilderModel {
                segments: self@.segments.push(ClipPathSegment::Close),
                ..self@
            }),
    {
        self.with(ClipPathSegment::Close)
    }

    /// Finish the path, computing its bounds once.
    pub fn build(self) -> (r: ClipPath<Pixels>)
        ensures
            r@.segments == self@.segments,
            r@.fill_rule == self@.fill_rule,
            r@.bounds@ == box_of(self@.segments),
    {
        let bounds = bounding_box(self.segments.as_slice());
        ClipPath { segments: self.segments, fill_rule: self.fill_rule, bounds }
    }
}

/// The edges found so far.
#[derive(Clone, Copy)]
struct Edging {
    left: i64,
    top: i64,
    right: i64,
    bottom: i64,
}

impl Edging {
    spec fn hull(self) -> Hull {
        Hull {
            left: self.left as int,
            top: self.top as int,
            right: self.right as int,
            bottom: self.bottom as int,
        }
    }
}

spec fn edging_hull(edging: Option<Edging>) -> Option<Hull> {
    match edging {
        None => None,
        Some(e) => Some(e.hull()),
    }
}

fn include_point(edging: Option<Edging>, at: &Point<Pixels>) -> (r: Option<Edging>)
    ensures
        edging_hull(r) == Some(Hull::widened(edging_hull(edging), at@)),
{
    let x: i64 = at.x.0;
    let y: i64 = at.y.0;
    match edging {
        None => Some(Edging { left: x, top: y, right: x, bottom: y }),
        Some(e) => Some(
            Edging {
                left: if e.left <= x { e.left } else { x },
                top: if e.top <= y { e.top } else { y },
                right: if e.right >= x { e.right } else { x },
                bottom: if e.bottom >= y { e.bottom } else { y },
            },
        ),
    }
}

proof fn lemma_hull_push(points: Seq<Place>, at: Place)
    ensures
        hull_of(points.push(at)) == Some(Hull::widened(hull_of(points), at)),
{
    assert(points.push(at).drop_last() =~= points);
}

/// The box around every point the segments name, control points with them.
pub fn bounding_box(segments: &[ClipPathSegment<Pixels>]) -> (r: Bounds<Pixels>)
    ensures
        r@ == box_of(segments@),
{
    let mut edging: Option<Edging> = None;
    let mut index: usize = 0;
    while index < segments.len()
        invariant
            index <= segments@.len(),
            edging_hull(edging) == hull_of(points_of(segments@.take(index as int))),
        decreases segments@.len() - index,
    {
        let ghost before = points_of(segments@.take(index as int));
        let segment = segments[index];
        proof {
            assert(segments@.take(index + 1).drop_last() =~= segments@.take(index as int));
            assert(segments@.take(index + 1).last() == segment);
            assert(points_of(segments@.take(index + 1)) =~= before + segment.points());
        }
        match &segment {
            ClipPathSegment::MoveTo(to) => {
                edging = include_point(edging, to);
                proof {
                    lemma_hull_push(before, to@);
                    assert(before + segment.points() =~= before.push(to@));
                }
            },
            ClipPathSegment::LineTo(to) => {
                edging = include_point(edging, to);
                proof {
                    lemma_hull_push(before, to@);
                    assert(before + segment.points() =~= before.push(to@));
                }
            },
            ClipPathSegment::QuadTo { control, to } => {
                edging = include_point(edging, control);
                edging = include_point(edging, to);
                proof {
                    lemma_hull_push(before, control@);
                    lemma_hull_push(before.push(control@), to@);
                    assert(before + segment.points() =~= before.push(control@).push(to@));
                }
            },
            ClipPathSegment::CubicTo { control1, control2, to } => {
                edging = include_point(edging, control1);
                edging = include_point(edging, control2);
                edging = include_point(edging, to);
                proof {
                    lemma_hull_push(before, control1@);
                    lemma_hull_push(before.push(control1@), control2@);
                    lemma_hull_push(before.push(control1@).push(control2@), to@);
                    assert(before + segment.points() =~= before.push(control1@).push(
                        control2@,
                    ).push(to@));
                }
            },
            ClipPathSegment::Close => {
                assert(before + segment.points() =~= before);
            },
        }
        index += 1;
    }
    assert(segments@.take(index as int) =~= segments@);
    match edging {
        None => Bounds::from_units(0, 0, 0, 0),
        Some(e) => Bounds::from_corners(
            Point { x: Pixels(e.left), y: Pixels(e.top) },
            Point { x: Pixels(e.right), y: Pixels(e.bottom) },
        ),
    }
}

/// The hull of some points holds each of them.
pub proof fn hull_holds_every_point(points: Seq<Place>, i: int)
    requires
        0 <= i < points.len(),
    ensures
        hull_of(points) is Some,
        hull_of(points)->0.holds(points[i]),
    decreases points.len(),
{
    if i < points.len() - 1 {
        hull_holds_every_point(points.drop_last(), i);
    }
}

/// No box that holds every point is smaller than their hull.
pub proof fn hull_is_smallest(points: Seq<Place>, other: Hull)
    requires
        points.len() > 0,
        forall|i: int| 0 <= i < points.len() ==> #[trigger] other.holds(points[i]),
    ensures
        other.left <= hull_of(points)->0.left,
        other.top <= hull_of(points)->0.top,
        other.right >= hull_of(points)->0.right,
        other.bottom >= hull_of(points)->0.bottom,
    decreases points.len(),
{
    assert(other.holds(points[points.len() - 1]));
    if points.len() > 1 {
        assert forall|i: int| 0 <= i < points.drop_last().len() implies #[trigger] other.holds(
            points.drop_last()[i],
        ) by {
            assert(other.holds(points[i]));
        }
        hull_is_smallest(points.drop_last(), other);
    }
}

/// Fractions with positive denominators compare transitively.
proof fn lemma_ratio_trans(a: (int, int), b: (int, int), extent: int, sum: int)
    by (nonlinear_arith)
    requires
        a.0 >= 0,
        a.1 > 0,
        b.0 >= 0,
        b.1 > 0,
        sum >= 0,
        a.0 * b.1 <= b.0 * a.1,
        b.0 * sum <= extent * b.1,
    ensures
        a.0 * sum <= extent * a.1,
{
    assert(a.0 * b.1 * sum <= b.0 * a.1 * sum);
    assert(b.0 * sum * a.1 <= extent * b.1 * a.1);
    assert((a.0 * sum) * b.1 <= (extent * a.1) * b.1);
}

proof fn lemma_tighter(ratio: (int, int), extent: int, sum: int)
    requires
        ratio.0 >= 0,
        ratio.1 > 0,
        extent >= 0,
        sum >= 0,
    ensures
        tighter(ratio, extent, sum).0 >= 0,
        tighter(ratio, extent, sum).1 > 0,
        tighter(ratio, extent, sum).0 * ratio.1 <= ratio.0 * tighter(ratio, extent, sum).1,
        tighter(ratio, extent, sum).0 * sum <= extent * tighter(ratio, extent, sum).1,
{
    let r = tighter(ratio, extent, sum);
    if sum == 0 {
        assert(r.0 * sum == 0);
        assert(extent * r.1 >= 0) by (nonlinear_arith)
            requires
                extent >= 0,
                r.1 > 0,
        ;
    }
}

/// The shrunk radii of one edge fit it together.
proof fn lemma_shrunk_pair(a: int, b: int, extent: int, n: int, d: int)
    requires
        0 <= a,
        0 <= b,
        0 <= n,
        0 < d,
        n * (a + b) <= extent * d,
        n <= d,
    ensures
        n < d ==> 0 <= a * n / d && 0 <= b * n / d && a * n / d + b * n / d <= extent,
        n == d ==> a + b <= extent,
{
    if n < d {
        assert(0 <= a * n / d && 0 <= b * n / d && (a * n / d) * d <= a * n && (b * n / d) * d
            <= b * n) by (nonlinear_arith)
            requires
                0 <= a,
                0 <= b,
                0 <= n,
                0 < d,
        ;
        assert(a * n / d + b * n / d <= extent) by (nonlinear_arith)
            requires
                (a * n / d) * d <= a * n,
                (b * n / d) * d <= b * n,
                n * (a + b) <= extent * d,
                0 < d,
        ;
    } else {
        assert(a + b <= extent) by (nonlinear_arith)
            requires
                d * (a + b) <= extent * d,
                0 < d,
        ;
    }
}

/// The radii a rounded box is given never overlap: the two on any one edge fit
/// it together.
pub proof fn fitted_radii_never_overlap(width: int, height: int, asked: Corners<Size<Pixels>>)
    requires
        0 <= width,
        0 <= height,
    ensures
        ({
            let radii = fitted_radii(width, height, asked);
            &&& 0 <= radii.top_left.0 && 0 <= radii.top_left.1
            &&& 0 <= radii.top_right.0 && 0 <= radii.top_right.1
            &&& 0 <= radii.bottom_right.0 && 0 <= radii.bottom_right.1
            &&& 0 <= radii.bottom_left.0 && 0 <= radii.bottom_left.1
            &&& radii.top_left.0 + radii.top_right.0 <= width
            &&& radii.bottom_left.0 + radii.bottom_right.0 <= width
            &&& radii.top_left.1 + radii.bottom_left.1 <= height
            &&& radii.top_right.1 + radii.bottom_right.1 <= height
        }),
{
    let tl = radius_of(asked.top_left);
    let tr = radius_of(asked.top_right);
    let br = radius_of(asked.bottom_right);
    let bl = radius_of(asked.bottom_left);
    let r0 = (1int, 1int);
    let r1 = tighter(r0, width, tl.0 + tr.0);
    let r2 = tighter(r1, width, bl.0 + br.0);
    let r3 = tighter(r2, height, tl.1 + bl.1);
    let r = tighter(r3, height, tr.1 + br.1);
    lemma_tighter(r0, width, tl.0 + tr.0);
    lemma_tighter(r1, width, bl.0 + br.0);
    lemma_tighter(r2, height, tl.1 + bl.1);
    lemma_tighter(r3, height, tr.1 + br.1);
    lemma_ratio_trans(r2, r1, width, tl.0 + tr.0);
    lemma_ratio_trans(r3, r2, width, tl.0 + tr.0);
    lemma_ratio_trans(r, r3, width, tl.0 + tr.0);
    lemma_ratio_trans(r3, r2, width, bl.0 + br.0);
    lemma_ratio_trans(r, r3, width, bl.0 + br.0);
    lemma_ratio_trans(r, r3, height, tl.1 + bl.1);
    lemma_ratio_trans(r1, r0, 1, 1);
    lemma_ratio_trans(r2, r1, 1, 1);
    lemma_ratio_trans(r3, r2, 1, 1);
    lemma_ratio_trans(r, r3, 1, 1);
    assert(r.0 <= r.1);
    lemma_shrunk_pair(tl.0, tr.0, width, r.0, r.1);
    lemma_shrunk_pair(bl.0, br.0, width, r.0, r.1);
    lemma_shrunk_pair(tl.1, bl.1, height, r.0, r.1);
    lemma_shrunk_pair(tr.1, br.1, height, r.0, r.1);
}

/// The box of a rounded box is the box it was made of, whatever its radii.
pub proof fn rounded_rect_bounds_are_the_rect(bounds: Bounds<Pixels>, radii: Corners<Size<Pixels>>)
    requires
        0 <= bounds@.width,
        0 <= bounds@.height,
        bounds@.x + bounds@.width <= i64::MAX,
        bounds@.y + bounds@.height <= i64::MAX,
    ensures
        box_of(rounded_rect_outline(bounds@, radii)) == bounds@,
{
    let b = bounds@;
    fitted_radii_never_overlap(b.width, b.height, radii);
    lemma_outline_box(bounds, fitted_radii(b.width, b.height, radii));
}

#[verifier::rlimit(40)]
proof fn lemma_outline_box(bounds: Bounds<Pixels>, radii: Radii)
    requires
        0 <= bounds@.width,
        0 <= bounds@.height,
        bounds@.x + bounds@.width <= i64::MAX,
        bounds@.y + bounds@.height <= i64::MAX,
        0 <= radii.top_left.0 <= bounds@.width && 0 <= radii.top_left.1 <= bounds@.height,
        0 <= radii.top_right.0 <= bounds@.width && 0 <= radii.top_right.1 <= bounds@.height,
        0 <= radii.bottom_right.0 <= bounds@.width && 0 <= radii.bottom_right.1
            <= bounds@.height,
        0 <= radii.bottom_left.0 <= bounds@.width && 0 <= radii.bottom_left.1 <= bounds@.height,
    ensures
        box_of(outline_with(bounds@, radii)) == bounds@,
{
    let b = bounds@;
    let outline = outline_with(b, radii);
    let whole = Hull { left: b.x, top: b.y, right: b.x + b.width, bottom: b.y + b.height };
    lemma_kappa_within(radii.top_left.0);
    lemma_kappa_within(radii.top_left.1);
    lemma_kappa_within(radii.top_right.0);
    lemma_kappa_within(radii.top_right.1);
    lemma_kappa_within(radii.bottom_right.0);
    lemma_kappa_within(radii.bottom_right.1);
    lemma_kappa_within(radii.bottom_left.0);
    lemma_kappa_within(radii.bottom_left.1);
    assert(outline.len() == 10);
    assert(holds_segment(whole, outline[0]));
    assert(holds_segment(whole, outline[1]));
    assert(holds_segment(whole, outline[2]));
    assert(holds_segment(whole, outline[3]));
    assert(holds_segment(whole, outline[4]));
    assert(holds_segment(whole, outline[5]));
    assert(holds_segment(whole, outline[6]));
    assert(holds_segment(whole, outline[7]));
    assert(holds_segment(whole, outline[8]));
    assert(holds_segment(whole, outline[9]));
    assert forall|i: int| 0 <= i < outline.len() implies #[trigger] holds_segment(
        whole,
        outline[i],
    ) by {
    }
    lemma_points_are_held(outline, whole);
    let points = points_of(outline);
    let top = lemma_point_is_there(outline, 0, 0);
    hull_is_smallest(points, whole);
    hull_holds_every_point(points, top);
    let right = lemma_point_is_there(outline, 3, 0);
    hull_holds_every_point(points, right);
    let bottom = lemma_point_is_there(outline, 5, 0);
    hull_holds_every_point(points, bottom);
    let left = lemma_point_is_there(outline, 7, 0);
    hull_holds_every_point(points, left);
}

spec fn holds_segment(hull: Hull, segment: ClipPathSegment<Pixels>) -> bool {
    forall|i: int| 0 <= i < segment.points().len() ==> hull.holds(#[trigger] segment.points()[i])
}

proof fn lemma_points_are_held(segments: Seq<ClipPathSegment<Pixels>>, hull: Hull)
    requires
        forall|i: int| 0 <= i < segments.len() ==> #[trigger] holds_segment(hull, segments[i]),
    ensures
        forall|i: int|
            0 <= i < points_of(segments).len() ==> #[trigger] hull.holds(points_of(segments)[i]),
    decreases segments.len(),
{
    if segments.len() > 0 {
        let rest = segments.drop_last();
        assert forall|i: int| 0 <= i < rest.len() implies #[trigger] holds_segment(
            hull,
            rest[i],
        ) by {
            assert(holds_segment(hull, segments[i]));
        }
        lemma_points_are_held(rest, hull);
        assert(holds_segment(hull, segments[segments.len() - 1]));
        assert forall|i: int| 0 <= i < points_of(segments).len() implies #[trigger] hull.holds(
            points_of(segments)[i],
        ) by {
            if i < points_of(rest).len() {
                assert(hull.holds(points_of(rest)[i]));
            } else {
                assert(points_of(segments)[i] == segments.last().points()[i - points_of(
                    rest,
                ).len()]);
            }
        }
    }
}

proof fn lemma_point_is_there(segments: Seq<ClipPathSegment<Pixels>>, i: int, j: int) -> (k: int)
    requires
        0 <= i < segments.len(),
        0 <= j < segments[i].points().len(),
    ensures
        0 <= k < points_of(segments).len(),
        points_of(segments)[k] == segments[i].points()[j],
    decreases segments.len(),
{
    if i == segments.len() - 1 {
        points_of(segments.drop_last()).len() + j
    } else {
        lemma_point_is_there(segments.drop_last(), i, j)
    }
}

proof fn lemma_kappa_within(radius: int)
    requires
        0 <= radius,
    ensures
        0 <= kappa_of(radius) <= radius,
{
    reveal(kappa_of);
}

} // verus!
