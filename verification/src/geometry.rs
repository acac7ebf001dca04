//! Lengths, and the points and boxes made of them.

use crate::fixed::{greater, lesser, max, min, minus, plus, product, saturate, times};
use vstd::prelude::*;

verus! {

/// A fixed-point length in some space.
pub trait Length: Copy {
    /// The length's count of fixed-point units.
    spec fn raw(self) -> i64;

    fn units(self) -> (r: i64)
        ensures
            r == self.raw(),
    ;

    fn from_units(units: i64) -> (r: Self)
        ensures
            r.raw() == units,
    ;

    /// Two lengths of the same count are the same length.
    proof fn raw_is_all(a: Self, b: Self)
        requires
            a.raw() == b.raw(),
        ensures
            a == b,
    ;
}

/// A length in the window's own, logical, space.
#[derive(Clone, Copy, Debug, PartialEq, Eq, PartialOrd, Ord, Hash, Default, Structural)]
pub struct Pixels(pub i64);

/// A length in the space of the device's pixels, before rounding to them.
#[derive(Clone, Copy, Debug, PartialEq, Eq, PartialOrd, Ord, Hash, Default, Structural)]
pub struct ScaledPixels(pub i64);

/// A whole number of the device's pixels.
#[derive(Clone, Copy, Debug, PartialEq, Eq, PartialOrd, Ord, Hash, Default, Structural)]
pub struct DevicePixels(pub i32);

impl Length for Pixels {
    open spec fn raw(self) -> i64 {
        self.0
    }

    fn units(self) -> (r: i64) {
        self.0
    }

    fn from_units(units: i64) -> (r: Self) {
        Pixels(units)
    }

    proof fn raw_is_all(a: Self, b: Self) {
    }
}

impl Length for ScaledPixels {
    open spec fn raw(self) -> i64 {
        self.0
    }

    fn units(self) -> (r: i64) {
        self.0
    }

    fn from_units(units: i64) -> (r: Self) {
        ScaledPixels(units)
    }

    proof fn raw_is_all(a: Self, b: Self) {
    }
}

impl Pixels {
    /// The same length in device space, under a scale of `factor`.
    pub fn scale(self, factor: i64) -> (r: ScaledPixels)
        ensures
            r.0 == product(self.0 as int, factor as int),
    {
        ScaledPixels(times(self.0, factor))
    }
}

/// A position.
#[derive(Clone, Copy, Debug, PartialEq, Eq, Hash, Default)]
pub struct Point<P> {
    pub x: P,
    pub y: P,
}

/// An extent.
#[derive(Clone, Copy, Debug, PartialEq, Eq, Hash, Default)]
pub struct Size<P> {
    pub width: P,
    pub height: P,
}

/// An axis-aligned box.
#[derive(Clone, Copy, Debug, PartialEq, Eq, Hash, Default)]
pub struct Bounds<P> {
    pub origin: Point<P>,
    pub size: Size<P>,
}

/// One value for each side of a box.
#[derive(Clone, Copy, Debug, PartialEq, Eq, Hash, Default)]
pub struct Edges<P> {
    pub top: P,
    pub right: P,
    pub bottom: P,
    pub left: P,
}

/// One value for each corner of a box.
#[derive(Clone, Copy, Debug, PartialEq, Eq, Hash, Default)]
pub struct Corners<P> {
    pub top_left: P,
    pub top_right: P,
    pub bottom_right: P,
    pub bottom_left: P,
}

/// The box that a primitive is clipped to, with its corners rounded.
#[derive(Clone, Copy, Debug, PartialEq, Eq, Hash, Default)]
pub struct ContentMask<P> {
    pub bounds: Bounds<P>,
    pub corner_radii: Corners<P>,
}

/// A point's coordinates, as whole numbers of fixed-point units.
pub struct Place {
    pub x: int,
    pub y: int,
}

/// A box's origin and extent, as whole numbers of fixed-point units.
pub struct Rect {
    pub x: int,
    pub y: int,
    pub width: int,
    pub height: int,
}

impl Rect {
    pub open spec fn right(self) -> int {
        saturate(self.x + self.width)
    }

    pub open spec fn bottom(self) -> int {
        saturate(self.y + self.height)
    }

    pub open spec fn is_empty(self) -> bool {
        self.width <= 0 || self.height <= 0
    }

    pub open spec fn from_corners(left: int, top: int, right: int, bottom: int) -> Rect {
        Rect { x: left, y: top, width: saturate(right - left), height: saturate(bottom - top) }
    }

    /// The box of what lies in both.
    pub open spec fn intersect(self, other: Rect) -> Rect {
        Rect::from_corners(
            max(self.x, other.x),
            max(self.y, other.y),
            min(self.right(), other.right()),
            min(self.bottom(), other.bottom()),
        )
    }

    /// The smallest box that holds both.
    pub open spec fn union(self, other: Rect) -> Rect {
        Rect::from_corners(
            min(self.x, other.x),
            min(self.y, other.y),
            max(self.right(), other.right()),
            max(self.bottom(), other.bottom()),
        )
    }

    pub open spec fn intersects(self, other: Rect) -> bool {
        &&& self.x < other.right()
        &&& self.right() > other.x
        &&& self.y < other.bottom()
        &&& self.bottom() > other.y
    }

    /// The box with each side moved outwards by its own amount.
    pub open spec fn extend(self, left: int, top: int, right: int, bottom: int) -> Rect {
        Rect {
            x: saturate(self.x - left),
            y: saturate(self.y - top),
            width: saturate(self.width + saturate(left + right)),
            height: saturate(self.height + saturate(top + bottom)),
        }
    }

    /// The box with every side moved outwards by `amount`.
    pub open spec fn dilate(self, amount: int) -> Rect {
        self.extend(amount, amount, amount, amount)
    }

    /// The box moved by `(x, y)`.
    pub open spec fn offset(self, x: int, y: int) -> Rect {
        Rect { x: saturate(self.x + x), y: saturate(self.y + y), ..self }
    }

    /// Whether the point lies in the box or on its edge.
    pub open spec fn holds(self, x: int, y: int) -> bool {
        self.x <= x <= self.right() && self.y <= y <= self.bottom()
    }

    /// Whether every coordinate fits a fixed-point number, as those of a box
    /// always do.
    pub open spec fn in_range(self) -> bool {
        &&& i64::MIN <= self.x <= i64::MAX
        &&& i64::MIN <= self.y <= i64::MAX
        &&& i64::MIN <= self.width <= i64::MAX
        &&& i64::MIN <= self.height <= i64::MAX
    }
}

impl<P: Length> View for Point<P> {
    type V = Place;

    open spec fn view(&self) -> Place {
        Place { x: self.x.raw() as int, y: self.y.raw() as int }
    }
}

impl<P: Length> View for Bounds<P> {
    type V = Rect;

    open spec fn view(&self) -> Rect {
        Rect {
            x: self.origin.x.raw() as int,
            y: self.origin.y.raw() as int,
            width: self.size.width.raw() as int,
            height: self.size.height.raw() as int,
        }
    }
}

/// A point of `x` and `y`.
pub fn point<P>(x: P, y: P) -> (r: Point<P>)
    ensures
        r == (Point { x, y }),
{
    Point { x, y }
}

/// An extent of `width` and `height`.
pub fn size<P>(width: P, height: P) -> (r: Size<P>)
    ensures
        r == (Size { width, height }),
{
    Size { width, height }
}

impl<P: Length> Bounds<P> {
    pub fn from_units(x: i64, y: i64, width: i64, height: i64) -> (r: Self)
        ensures
            r@ == (Rect { x: x as int, y: y as int, width: width as int, height: height as int }),
    {
        Bounds {
            origin: Point { x: P::from_units(x), y: P::from_units(y) },
            size: Size { width: P::from_units(width), height: P::from_units(height) },
        }
    }

    pub fn right(&self) -> (r: P)
        ensures
            r.raw() == self@.right(),
    {
        P::from_units(plus(self.origin.x.units(), self.size.width.units()))
    }

    pub fn bottom(&self) -> (r: P)
        ensures
            r.raw() == self@.bottom(),
    {
        P::from_units(plus(self.origin.y.units(), self.size.height.units()))
    }

    pub fn is_empty(&self) -> (r: bool)
        ensures
            r == self@.is_empty(),
    {
        self.size.width.units() <= 0 || self.size.height.units() <= 0
    }

    pub fn from_corners(upper_left: Point<P>, bottom_right: Point<P>) -> (r: Self)
        ensures
            r@ == Rect::from_corners(
                upper_left@.x,
                upper_left@.y,
                bottom_right@.x,
                bottom_right@.y,
            ),
    {
        Bounds {
            origin: upper_left,
            size: Size {
                width: P::from_units(minus(bottom_right.x.units(), upper_left.x.units())),
                height: P::from_units(minus(bottom_right.y.units(), upper_left.y.units())),
            },
        }
    }

    /// The box of what lies in both. Boxes that do not meet give an empty one.
    pub fn intersect(&self, other: &Self) -> (r: Self)
        ensures
            r@ == self@.intersect(other@),
    {
        let upper_left = Point {
            x: P::from_units(greater(self.origin.x.units(), other.origin.x.units())),
            y: P::from_units(greater(self.origin.y.units(), other.origin.y.units())),
        };
        let bottom_right = Point {
            x: P::from_units(lesser(self.right().units(), other.right().units())),
            y: P::from_units(lesser(self.bottom().units(), other.bottom().units())),
        };
        Bounds::from_corners(upper_left, bottom_right)
    }

    /// The smallest box that holds both.
    pub fn union(&self, other: &Self) -> (r: Self)
        ensures
            r@ == self@.union(other@),
    {
        let upper_left = Point {
            x: P::from_units(lesser(self.origin.x.units(), other.origin.x.units())),
            y: P::from_units(lesser(self.origin.y.units(), other.origin.y.units())),
        };
        let bottom_right = Point {
            x: P::from_units(greater(self.right().units(), other.right().units())),
            y: P::from_units(greater(self.bottom().units(), other.bottom().units())),
        };
        Bounds::from_corners(upper_left, bottom_right)
    }

    /// Whether the two share more than an edge.
    pub fn intersects(&self, other: &Self) -> (r: bool)
        ensures
            r == self@.intersects(other@),
    {
        self.origin.x.units() < other.right().units() && self.right().units()
            > other.origin.x.units() && self.origin.y.units() < other.bottom().units()
            && self.bottom().units() > other.origin.y.units()
    }

    /// The box with each side moved outwards by its own amount.
    pub fn extend(&self, amount: Edges<P>) -> (r: Self)
        ensures
            r@ == self@.extend(
                amount.left.raw() as int,
                amount.top.raw() as int,
                amount.right.raw() as int,
                amount.bottom.raw() as int,
            ),
    {
        Bounds::from_units(
            minus(self.origin.x.units(), amount.left.units()),
            minus(self.origin.y.units(), amount.top.units()),
            plus(
                self.size.width.units(),
                plus(amount.left.units(), amount.right.units()),
            ),
            plus(
                self.size.height.units(),
                plus(amount.top.units(), amount.bottom.units()),
            ),
        )
    }

    /// The box with every side moved outwards by `amount`.
    pub fn dilate(&self, amount: P) -> (r: Self)
        ensures
            r@ == self@.dilate(amount.raw() as int),
    {
        self.extend(Edges { top: amount, right: amount, bottom: amount, left: amount })
    }

    /// The box moved by `offset`.
    pub fn offset_by(&self, offset: Point<P>) -> (r: Self)
        ensures
            r@ == self@.offset(offset@.x, offset@.y),
    {
        Bounds::from_units(
            plus(self.origin.x.units(), offset.x.units()),
            plus(self.origin.y.units(), offset.y.units()),
            self.size.width.units(),
            self.size.height.units(),
        )
    }
}

impl Point<Pixels> {
    pub fn scale(&self, factor: i64) -> (r: Point<ScaledPixels>)
        ensures
            r@ == (Place {
                x: product(self@.x, factor as int),
                y: product(self@.y, factor as int),
            }),
    {
        Point { x: self.x.scale(factor), y: self.y.scale(factor) }
    }
}

impl Bounds<Pixels> {
    pub fn scale(&self, factor: i64) -> (r: Bounds<ScaledPixels>)
        ensures
            r@ == (Rect {
                x: product(self@.x, factor as int),
                y: product(self@.y, factor as int),
                width: product(self@.width, factor as int),
                height: product(self@.height, factor as int),
            }),
    {
        Bounds {
            origin: self.origin.scale(factor),
            size: Size {
                width: self.size.width.scale(factor),
                height: self.size.height.scale(factor),
            },
        }
    }
}

impl Pixels {
    pub open spec fn scaled(self, factor: int) -> ScaledPixels {
        ScaledPixels(product(self.0 as int, factor) as i64)
    }
}

impl<P: Length> ContentMask<P> {
    /// A mask with square corners.
    pub fn new(bounds: Bounds<P>) -> (r: Self)
        ensures
            r.bounds == bounds,
            r.corner_radii.top_left.raw() == 0,
            r.corner_radii.top_right.raw() == 0,
            r.corner_radii.bottom_right.raw() == 0,
            r.corner_radii.bottom_left.raw() == 0,
    {
        ContentMask {
            bounds,
            corner_radii: Corners {
                top_left: P::from_units(0),
                top_right: P::from_units(0),
                bottom_right: P::from_units(0),
                bottom_left: P::from_units(0),
            },
        }
    }
}

impl ContentMask<Pixels> {
    /// A mask that lets nothing through.
    pub open spec fn nowhere() -> ContentMask<Pixels> {
        ContentMask {
            bounds: Bounds {
                origin: Point { x: Pixels(0), y: Pixels(0) },
                size: Size { width: Pixels(0), height: Pixels(0) },
            },
            corner_radii: Corners {
                top_left: Pixels(0),
                top_right: Pixels(0),
                bottom_right: Pixels(0),
                bottom_left: Pixels(0),
            },
        }
    }

    pub open spec fn scaled(self, factor: int) -> ContentMask<ScaledPixels> {
        ContentMask {
            bounds: Bounds {
                origin: Point {
                    x: self.bounds.origin.x.scaled(factor),
                    y: self.bounds.origin.y.scaled(factor),
                },
                size: Size {
                    width: self.bounds.size.width.scaled(factor),
                    height: self.bounds.size.height.scaled(factor),
                },
            },
            corner_radii: Corners {
                top_left: self.corner_radii.top_left.scaled(factor),
                top_right: self.corner_radii.top_right.scaled(factor),
                bottom_right: self.corner_radii.bottom_right.scaled(factor),
                bottom_left: self.corner_radii.bottom_left.scaled(factor),
            },
        }
    }

    /// The mask in device space, under a scale of `factor`.
    pub fn scale(&self, factor: i64) -> (r: ContentMask<ScaledPixels>)
        ensures
            r == self.scaled(factor as int),
    {
        ContentMask {
            bounds: Bounds {
                origin: Point {
                    x: self.bounds.origin.x.scale(factor),
                    y: self.bounds.origin.y.scale(factor),
                },
                size: Size {
                    width: self.bounds.size.width.scale(factor),
                    height: self.bounds.size.height.scale(factor),
                },
            },
            corner_radii: Corners {
                top_left: self.corner_radii.top_left.scale(factor),
                top_right: self.corner_radii.top_right.scale(factor),
                bottom_right: self.corner_radii.bottom_right.scale(factor),
                bottom_left: self.corner_radii.bottom_left.scale(factor),
            },
        }
    }
}

/// Two boxes of the same numbers are the same box.
pub proof fn bounds_view_is_all<P: Length>(a: Bounds<P>, b: Bounds<P>)
    requires
        a@ == b@,
    ensures
        a == b,
{
    P::raw_is_all(a.origin.x, b.origin.x);
    P::raw_is_all(a.origin.y, b.origin.y);
    P::raw_is_all(a.size.width, b.size.width);
    P::raw_is_all(a.size.height, b.size.height);
}

/// What lies in both boxes lies in their intersection, and nothing else does.
pub proof fn intersection_holds_the_common_points(a: Rect, b: Rect, x: int, y: int)
    requires
        a.in_range(),
        b.in_range(),
    ensures
        a.intersect(b).holds(x, y) == (a.holds(x, y) && b.holds(x, y)),
{
}

/// Boxes overlap exactly when their intersection has an area.
pub proof fn intersects_is_a_nonempty_intersection(a: Rect, b: Rect)
    requires
        a.in_range(),
        b.in_range(),
        !a.is_empty(),
        !b.is_empty(),
    ensures
        a.intersects(b) == !a.intersect(b).is_empty(),
{
}

} // verus!
