//! Filled paths, as fans of triangles.

use crate::atlas::AtlasTile;
use crate::color::{Background, Hsla};
use crate::fixed::{product, times, ONE};
use crate::geometry::{Bounds, ContentMask, Length, Pixels, Place, Point, Rect, ScaledPixels, Size};
use crate::scene::ids::{ClipId, DrawOrder, PathId};
use crate::scene::transform::TransformationMatrix;
use vstd::prelude::*;

verus! {

/// What a brush or a gradient paints beyond its own extent, along one axis.
#[derive(Clone, Copy, Debug, PartialEq, Eq, Hash, Default, Structural)]
pub enum BrushExtend {
    /// Keep to the colour at the edge.
    #[default]
    Pad,
    /// Tile.
    Repeat,
    /// Tile, mirroring every other copy so that the tiles meet edge to edge.
    Reflect,
}

impl BrushExtend {
    pub open spec fn code(self) -> u8 {
        match self {
            BrushExtend::Pad => 0,
            BrushExtend::Repeat => 1,
            BrushExtend::Reflect => 2,
        }
    }

    /// The number a shader knows the mode by.
    pub fn to_code(self) -> (r: u8)
        ensures
            r == self.code(),
    {
        match self {
            BrushExtend::Pad => 0,
            BrushExtend::Repeat => 1,
            BrushExtend::Reflect => 2,
        }
    }
}

/// An image a path is filled with, in place of its [`Background`].
#[derive(Clone, Copy, Debug, PartialEq, Eq)]
pub struct PathBrush {
    /// The atlas tile that holds the image.
    pub tile: AtlasTile,
    /// Maps a scene position into brush space, where the unit square is one
    /// copy of the image.
    pub screen_to_brush: TransformationMatrix,
    /// What to paint outside the unit square horizontally.
    pub x_extend: BrushExtend,
    /// What to paint outside the unit square vertically.
    pub y_extend: BrushExtend,
    /// A multiplier on the image's own alpha.
    pub opacity: i64,
}

impl PathBrush {
    pub open spec fn faded(self, factor: int) -> PathBrush {
        PathBrush { opacity: product(self.opacity as int, factor) as i64, ..self }
    }

    /// The brush with its alpha multiplied by `factor`.
    pub fn fade(&self, factor: i64) -> (r: PathBrush)
        ensures
            r == self.faded(factor as int),
    {
        PathBrush {
            tile: self.tile,
            screen_to_brush: self.screen_to_brush,
            x_extend: self.x_extend,
            y_extend: self.y_extend,
            opacity: times(self.opacity, factor),
        }
    }
}

/// One vertex of a [`Path`].
#[derive(Clone, Copy, Debug, PartialEq, Eq)]
pub struct PathVertex<P> {
    pub xy_position: Point<P>,
    pub st_position: Point<i64>,
}

pub open spec fn vertex_scaled(vertex: PathVertex<Pixels>, factor: int) -> PathVertex<
    ScaledPixels,
> {
    PathVertex {
        xy_position: Point {
            x: ScaledPixels(product(vertex.xy_position.x.0 as int, factor) as i64),
            y: ScaledPixels(product(vertex.xy_position.y.0 as int, factor) as i64),
        },
        st_position: vertex.st_position,
    }
}

impl PathVertex<Pixels> {
    /// The vertex in device space, under a scale of `factor`.
    pub fn scale(&self, factor: i64) -> (r: PathVertex<ScaledPixels>)
        ensures
            r == vertex_scaled(*self, factor as int),
    {
        PathVertex {
            xy_position: self.xy_position.scale(factor),
            st_position: self.st_position,
        }
    }
}

/// A filled outline, as the triangles that cover it.
#[derive(Debug)]
pub struct Path<P> {
    pub id: PathId,
    pub order: DrawOrder,
    pub clip: ClipId,
    pub bounds: Bounds<P>,
    pub content_mask: ContentMask<P>,
    pub vertices: Vec<PathVertex<P>>,
    pub color: Background,
    /// An image to fill the path with instead of `color`.
    pub brush: Option<PathBrush>,
    /// Where the contour being drawn began.
    pub start: Point<P>,
    /// Where the last side ended.
    pub current: Point<P>,
    /// How many sides and moves have been drawn.
    pub contour_count: usize,
}

/// A path, as what it says.
#[verifier::ext_equal]
pub struct PathModel<P> {
    pub id: nat,
    pub order: DrawOrder,
    pub clip: ClipId,
    pub bounds: Rect,
    pub content_mask: ContentMask<P>,
    pub vertices: Seq<PathVertex<P>>,
    pub color: Background,
    pub brush: Option<PathBrush>,
    pub start: Place,
    pub current: Place,
    pub contour_count: nat,
}

/// The corners of a triangle.
pub struct Triangle<P> {
    pub a: PathVertex<P>,
    pub b: PathVertex<P>,
    pub c: PathVertex<P>,
}

/// A box of no extent.
pub open spec fn speck(at: Place) -> Rect {
    Rect { x: at.x, y: at.y, width: 0, height: 0 }
}

impl<P: Length> PathModel<P> {
    /// The path with one more triangle, and its box grown to hold it.
    pub open spec fn with_triangle(self, triangle: Triangle<P>) -> PathModel<P> {
        PathModel {
            bounds: self.bounds.union(speck(triangle.a.xy_position@)).union(
                speck(triangle.b.xy_position@),
            ).union(speck(triangle.c.xy_position@)),
            vertices: self.vertices.push(triangle.a).push(triangle.b).push(triangle.c),
            ..self
        }
    }

    /// The part of the path's box that its content mask lets through.
    pub open spec fn visible(self) -> Rect {
        self.bounds.intersect(self.content_mask.bounds@)
    }
}

impl<P: Length> View for Path<P> {
    type V = PathModel<P>;

    open spec fn view(&self) -> PathModel<P> {
        PathModel {
            id: self.id.0 as nat,
            order: self.order,
            clip: self.clip,
            bounds: self.bounds@,
            content_mask: self.content_mask,
            vertices: self.vertices@,
            color: self.color,
            brush: self.brush,
            start: self.start@,
            current: self.current@,
            contour_count: self.contour_count as nat,
        }
    }
}

impl<P: Length> Path<P> {
    /// The part of the path's box that its content mask lets through.
    pub fn clipped_bounds(&self) -> (r: Bounds<P>)
        ensures
            r@ == self@.visible(),
    {
        self.bounds.intersect(&self.content_mask.bounds)
    }
}

impl<P: Length> Clone for Path<P> {
    fn clone(&self) -> (r: Self)
        ensures
            r@ == self@,
    {
        let mut vertices: Vec<PathVertex<P>> = Vec::new();
        let mut index: usize = 0;
        while index < self.vertices.len()
            invariant
                index <= self.vertices@.len(),
                vertices@ == self.vertices@.take(index as int),
            decreases self.vertices@.len() - index,
        {
            vertices.push(self.vertices[index]);
            index += 1;
            assert(vertices@ =~= self.vertices@.take(index as int));
        }
        assert(self.vertices@.take(index as int) =~= self.vertices@);
        Path {
            id: self.id,
            order: self.order,
            clip: self.clip,
            bounds: self.bounds,
            content_mask: self.content_mask,
            vertices,
            color: self.color,
            brush: self.brush,
            start: self.start,
            current: self.current,
            contour_count: self.contour_count,
        }
    }
}

pub open spec fn st(s: int, t: int) -> Point<i64> {
    Point { x: s as i64, y: t as i64 }
}

fn solid() -> (r: Point<i64>)
    ensures
        r == st(0, ONE as int),
{
    Point { x: 0, y: ONE }
}

/// A triangle of the fan between the start of a contour and one of its sides:
/// covered whole.
pub open spec fn fan_triangle(
    start: Point<Pixels>,
    current: Point<Pixels>,
    to: Point<Pixels>,
) -> Triangle<Pixels> {
    Triangle {
        a: PathVertex { xy_position: start, st_position: st(0, ONE as int) },
        b: PathVertex { xy_position: current, st_position: st(0, ONE as int) },
        c: PathVertex { xy_position: to, st_position: st(0, ONE as int) },
    }
}

/// The triangle that holds a quadratic curve, with the coordinates in which the
/// curve is `s * s == t`.
pub open spec fn curve_triangle(
    current: Point<Pixels>,
    control: Point<Pixels>,
    to: Point<Pixels>,
) -> Triangle<Pixels> {
    Triangle {
        a: PathVertex { xy_position: current, st_position: st(0, 0) },
        b: PathVertex { xy_position: control, st_position: st((ONE / 2) as int, 0) },
        c: PathVertex { xy_position: to, st_position: st(ONE as int, ONE as int) },
    }
}

/// A place, as a point in logical space.
pub open spec fn pixels_at(at: Place) -> Point<Pixels> {
    Point { x: Pixels(at.x as i64), y: Pixels(at.y as i64) }
}

impl PathModel<Pixels> {
    pub open spec fn begun_at(start: Place) -> PathModel<Pixels> {
        PathModel {
            id: 0,
            order: 0,
            clip: ClipId(0),
            bounds: speck(start),
            content_mask: ContentMask::<Pixels>::nowhere(),
            vertices: Seq::empty(),
            color: Background::of_color(Hsla { h: 0, s: 0, l: 0, a: 0 }),
            brush: None,
            start,
            current: start,
            contour_count: 0,
        }
    }

    pub open spec fn moved_to(self, to: Place) -> PathModel<Pixels> {
        PathModel { contour_count: self.contour_count + 1, start: to, current: to, ..self }
    }

    /// The path with the fan triangle of a side ending at `to`, unless that
    /// side is the contour's first.
    pub open spec fn fanned_to(self, to: Place) -> PathModel<Pixels> {
        let counted = PathModel { contour_count: self.contour_count + 1, ..self };
        if self.contour_count > 0 {
            counted.with_triangle(
                fan_triangle(pixels_at(self.start), pixels_at(self.current), pixels_at(to)),
            )
        } else {
            counted
        }
    }

    pub open spec fn lined_to(self, to: Place) -> PathModel<Pixels> {
        PathModel { current: to, ..self.fanned_to(to) }
    }

    pub open spec fn curved_to(self, to: Place, control: Place) -> PathModel<Pixels> {
        PathModel {
            current: to,
            ..self.fanned_to(to).with_triangle(
                curve_triangle(pixels_at(self.current), pixels_at(control), pixels_at(to)),
            )
        }
    }

    pub open spec fn scaled(self, factor: int) -> PathModel<ScaledPixels> {
        PathModel {
            id: self.id,
            order: self.order,
            clip: self.clip,
            bounds: rect_scaled(self.bounds, factor),
            content_mask: self.content_mask.scaled(factor),
            vertices: self.vertices.map_values(
                |v: PathVertex<Pixels>| vertex_scaled(v, factor),
            ),
            color: self.color,
            brush: self.brush,
            start: place_scaled(self.start, factor),
            current: place_scaled(self.current, factor),
            contour_count: self.contour_count,
        }
    }
}

pub open spec fn rect_scaled(rect: Rect, factor: int) -> Rect {
    Rect {
        x: product(rect.x, factor),
        y: product(rect.y, factor),
        width: product(rect.width, factor),
        height: product(rect.height, factor),
    }
}

pub open spec fn place_scaled(place: Place, factor: int) -> Place {
    Place { x: product(place.x, factor), y: product(place.y, factor) }
}

impl Path<Pixels> {
    /// A path that starts at `start`.
    pub fn new(start: Point<Pixels>) -> (r: Self)
        ensures
            r@ == PathModel::begun_at(start@),
    {
        let path = Path {
            id: PathId(0),
            order: 0,
            clip: ClipId(0),
            bounds: Bounds { origin: start, size: Size { width: Pixels(0), height: Pixels(0) } },
            content_mask: ContentMask::new(
                Bounds {
                    origin: Point { x: Pixels(0), y: Pixels(0) },
                    size: Size { width: Pixels(0), height: Pixels(0) },
                },
            ),
            vertices: Vec::new(),
            color: Background::from(Hsla { h: 0, s: 0, l: 0, a: 0 }),
            brush: None,
            start,
            current: start,
            contour_count: 0,
        };
        assert(path@.vertices =~= Seq::<PathVertex<Pixels>>::empty());
        path
    }

    /// The path in device space, under a scale of `factor`.
    pub fn scale(&self, factor: i64) -> (r: Path<ScaledPixels>)
        ensures
            r@ == self@.scaled(factor as int),
    {
        let mut vertices: Vec<PathVertex<ScaledPixels>> = Vec::new();
        let mut index: usize = 0;
        let ghost scaling = |v: PathVertex<Pixels>| vertex_scaled(v, factor as int);
        while index < self.vertices.len()
            invariant
                index <= self.vertices@.len(),
                scaling == (|v: PathVertex<Pixels>| vertex_scaled(v, factor as int)),
                vertices@ == self.vertices@.take(index as int).map_values(scaling),
            decreases self.vertices@.len() - index,
        {
            vertices.push(self.vertices[index].scale(factor));
            index += 1;
            assert(vertices@ =~= self.vertices@.take(index as int).map_values(scaling));
        }
        assert(self.vertices@.take(index as int) =~= self.vertices@);
        Path {
            id: self.id,
            order: self.order,
            clip: self.clip,
            bounds: self.bounds.scale(factor),
            content_mask: self.content_mask.scale(factor),
            vertices,
            color: self.color,
            brush: self.brush,
            start: self.start.scale(factor),
            current: self.current.scale(factor),
            contour_count: self.contour_count,
        }
    }

    /// Begin a new contour at `to`.
    pub fn move_to(&mut self, to: Point<Pixels>)
        requires
            old(self)@.contour_count < usize::MAX,
        ensures
            final(self)@ == old(self)@.moved_to(to@),
    {
        self.contour_count += 1;
        self.start = to;
        self.current = to;
    }

    /// Draw a straight line from the current point to `to`.
    pub fn line_to(&mut self, to: Point<Pixels>)
        requires
            old(self)@.contour_count < usize::MAX,
        ensures
            final(self)@ == old(self)@.lined_to(to@),
    {
        self.contour_count += 1;
        if self.contour_count > 1 {
            let start = self.start;
            let current = self.current;
            self.push_triangle((start, current, to), (solid(), solid(), solid()));
        }
        self.current = to;
    }

    /// Draw a quadratic curve from the current point to `to`.
    pub fn curve_to(&mut self, to: Point<Pixels>, ctrl: Point<Pixels>)
        requires
            old(self)@.contour_count < usize::MAX,
        ensures
            final(self)@ == old(self)@.curved_to(to@, ctrl@),
    {
        self.contour_count += 1;
        let start = self.start;
        let current = self.current;
        if self.contour_count > 1 {
            self.push_triangle((start, current, to), (solid(), solid(), solid()));
        }
        self.push_triangle(
            (current, ctrl, to),
            (Point { x: 0, y: 0 }, Point { x: ONE / 2, y: 0 }, Point { x: ONE, y: ONE }),
        );
        self.current = to;
    }

    /// Add a triangle, and grow the path's box to hold it.
    pub fn push_triangle(
        &mut self,
        xy: (Point<Pixels>, Point<Pixels>, Point<Pixels>),
        st: (Point<i64>, Point<i64>, Point<i64>),
    )
        ensures
            final(self)@ == old(self)@.with_triangle(
                Triangle {
                    a: PathVertex { xy_position: xy.0, st_position: st.0 },
                    b: PathVertex { xy_position: xy.1, st_position: st.1 },
                    c: PathVertex { xy_position: xy.2, st_position: st.2 },
                },
            ),
    {
        let none = Size { width: Pixels(0), height: Pixels(0) };
        self.bounds =
        self.bounds.union(&Bounds { origin: xy.0, size: none }).union(
            &Bounds { origin: xy.1, size: none },
        ).union(&Bounds { origin: xy.2, size: none });
        self.vertices.push(PathVertex { xy_position: xy.0, st_position: st.0 });
        self.vertices.push(PathVertex { xy_position: xy.1, st_position: st.1 });
        self.vertices.push(PathVertex { xy_position: xy.2, st_position: st.2 });
    }
}

} // verus!
