//! The texture that a gradient is baked into, and how a position finds its
//! place in it.

use crate::color::{ColorSpace, LinearColorStop};
use crate::fixed::{floor_div, max, min, minus, nearest, saturate, saturated, ONE};
use crate::geometry::{Bounds, Pixels, Point, Rect, Size};
use crate::scene::path::BrushExtend;
use crate::scene::transform::{MatrixModel, TransformationMatrix, FINE};
use vstd::prelude::*;

verus! {

/// Texels in a baked ramp.
pub const RAMP_TEXELS: u32 = 256;

/// The smallest square that a field is baked into.
pub const MIN_FIELD_TEXELS: u32 = 64;

/// The largest square that a field is baked into.
pub const MAX_FIELD_TEXELS: u32 = 256;

/// The fewest texels that a field spends on one run through the stops.
pub const TEXELS_PER_PERIOD: u32 = 4;

/// How many bytes of baked gradients a window holds at once.
pub const MAX_GRADIENT_CACHE_BYTES: usize = 16_777_216;

/// The most radii from its centre that a radial gradient is baked out to.
pub const MAX_RINGS: u32 = 32;

/// A squared length, in squared fixed-point units, at or below which a line has
/// no direction.
pub const NO_LENGTH_SQUARED: u128 = 512;

/// An angle at or below which nothing is swept.
pub const NO_ANGLE: i64 = 512;

/// An angle, in parts of a radian of which there are two to the thirty-second.
#[derive(Clone, Copy, Debug, PartialEq, Eq, Hash, Structural)]
pub struct Radians(pub i64);

/// A whole turn.
pub const TURN: i64 = 26_986_076_160;

/// Where a gradient's colours run.
#[derive(Clone, Copy, Debug, PartialEq, Eq)]
pub enum GradientKind {
    /// Along the line from `start` to `end`.
    Linear { start: Point<Pixels>, end: Point<Pixels> },
    /// Outwards from `center`, to the ellipse with these radii.
    Radial { center: Point<Pixels>, radii: Size<Pixels> },
    /// Clockwise around `center` from `from_angle`, through `sweep_angle`.
    Sweep { center: Point<Pixels>, from_angle: Radians, sweep_angle: Radians },
}

/// A gradient of many stops: what to paint, not where.
#[derive(Clone, Debug)]
pub struct Gradient {
    pub kind: GradientKind,
    /// The stops, in the order they are read.
    pub stops: Vec<LinearColorStop>,
    /// What fills a path beyond the stops.
    pub extend: BrushExtend,
    /// The space that the stops are mixed in.
    pub color_space: ColorSpace,
}

impl Gradient {
    /// A gradient along the line from `start` to `end`.
    pub fn linear(start: Point<Pixels>, end: Point<Pixels>, stops: Vec<LinearColorStop>) -> (r: Self)
        ensures
            r.kind == (GradientKind::Linear { start, end }),
            r.stops == stops,
            r.extend == BrushExtend::Pad,
            r.color_space == ColorSpace::Srgb,
    {
        Gradient {
            kind: GradientKind::Linear { start, end },
            stops,
            extend: BrushExtend::Pad,
            color_space: ColorSpace::Srgb,
        }
    }

    /// A gradient outwards from `center`, to its last stop at `radii`.
    pub fn radial(center: Point<Pixels>, radii: Size<Pixels>, stops: Vec<LinearColorStop>) -> (r:
        Self)
        ensures
            r.kind == (GradientKind::Radial { center, radii }),
            r.stops == stops,
            r.extend == BrushExtend::Pad,
            r.color_space == ColorSpace::Srgb,
    {
        Gradient {
            kind: GradientKind::Radial { center, radii },
            stops,
            extend: BrushExtend::Pad,
            color_space: ColorSpace::Srgb,
        }
    }

    /// A gradient around `center`, a whole turn clockwise from `from_angle`.
    pub fn sweep(center: Point<Pixels>, from_angle: Radians, stops: Vec<LinearColorStop>) -> (r:
        Self)
        ensures
            r.kind == (GradientKind::Sweep { center, from_angle, sweep_angle: Radians(TURN) }),
            r.stops == stops,
            r.extend == BrushExtend::Repeat,
            r.color_space == ColorSpace::Srgb,
    {
        Gradient {
            kind: GradientKind::Sweep { center, from_angle, sweep_angle: Radians(TURN) },
            stops,
            extend: BrushExtend::Repeat,
            color_space: ColorSpace::Srgb,
        }
    }

    /// The gradient with another way to fill a path beyond its stops.
    pub fn extend(self, extend: BrushExtend) -> (r: Self)
        ensures
            r == (Gradient { extend, ..self }),
    {
        Gradient {
            kind: self.kind,
            stops: self.stops,
            extend,
            color_space: self.color_space,
        }
    }

    /// The gradient with its stops mixed in another space.
    pub fn color_space(self, color_space: ColorSpace) -> (r: Self)
        ensures
            r == (Gradient { color_space, ..self }),
    {
        Gradient { kind: self.kind, stops: self.stops, extend: self.extend, color_space }
    }
}

/// What the texels of a baked gradient mean.
#[derive(Clone, Copy, Debug, PartialEq, Eq, Hash, Structural)]
pub enum FieldKey {
    /// One row of texels, along the stops.
    Ramp,
    /// A square, so many radii from its middle to each side.
    Radial { half_extent: u32 },
    /// A square around the middle of a sweep.
    Sweep { from_angle: i64, sweep_angle: i64 },
}

/// What a baked texture is kept under: everything that it is baked from, and
/// nothing else.
#[derive(Debug, PartialEq, Eq, Hash)]
pub struct GradientKey {
    pub field: FieldKey,
    pub extend: u8,
    pub color_space: u8,
    pub width: u32,
    pub height: u32,
    pub stops: Vec<LinearColorStop>,
}

/// A key, as what it says.
#[verifier::ext_equal]
pub struct KeyModel {
    pub field: FieldKey,
    pub extend: u8,
    pub color_space: u8,
    pub width: int,
    pub height: int,
    pub stops: Seq<LinearColorStop>,
}

/// How a position finds its place in the texture.
#[derive(Clone, Copy, Debug, PartialEq, Eq)]
pub enum BrushMapping {
    /// By how far along a line from `start` it stands; the texture has one row.
    Axis {
        start: Point<Pixels>,
        /// From the start to the end.
        along: Point<Pixels>,
        /// The square of the line's length, in squared units.
        length_squared: u128,
    },
    /// By where in a box around `center` it stands, which reaches `half` to
    /// each side.
    Square { center: Point<Pixels>, half: Size<Pixels> },
}

/// Everything it takes to fill a path with a gradient: the texture to bake, and
/// how a position finds its place in it.
#[derive(Debug)]
pub struct GradientPlan {
    pub key: GradientKey,
    pub mapping: BrushMapping,
    pub x_extend: BrushExtend,
    pub y_extend: BrushExtend,
}

/// A plan, as what it says.
pub struct GradientPlanModel {
    pub key: KeyModel,
    pub mapping: BrushMapping,
    pub x_extend: BrushExtend,
    pub y_extend: BrushExtend,
}

impl View for GradientKey {
    type V = KeyModel;

    open spec fn view(&self) -> KeyModel {
        KeyModel {
            field: self.field,
            extend: self.extend,
            color_space: self.color_space,
            width: self.width as int,
            height: self.height as int,
            stops: self.stops@,
        }
    }
}

impl View for GradientPlan {
    type V = GradientPlanModel;

    open spec fn view(&self) -> GradientPlanModel {
        GradientPlanModel {
            key: self.key@,
            mapping: self.mapping,
            x_extend: self.x_extend,
            y_extend: self.y_extend,
        }
    }
}

/// How far from the origin a position is looked up, in fixed-point units.
pub const NEAR: i64 = 0x1000_0000_0000;

/// How many device pixels a pixel may be across.
pub const SCALE_LIMIT: i64 = 0x1_0000_0000;

pub open spec fn is_near(at: Point<Pixels>) -> bool {
    -NEAR <= at.x.0 <= NEAR && -NEAR <= at.y.0 <= NEAR
}

impl BrushMapping {
    /// Whether the mapping's own numbers are near enough to the origin.
    pub open spec fn wf(self) -> bool {
        match self {
            BrushMapping::Axis { start, along, length_squared } => {
                &&& is_near(start)
                &&& -2 * NEAR <= along.x.0 <= 2 * NEAR
                &&& -2 * NEAR <= along.y.0 <= 2 * NEAR
                &&& length_squared == along.x.0 * along.x.0 + along.y.0 * along.y.0
                &&& 0 < length_squared
            },
            BrushMapping::Square { center, half } => {
                &&& is_near(center)
                &&& 0 < half.width.0
                &&& 0 < half.height.0
            },
        }
    }

    /// Where in the texture a position is found, where one is the whole
    /// texture.
    pub open spec fn place(self, at: Point<Pixels>) -> (int, int) {
        match self {
            BrushMapping::Axis { start, along, length_squared } => (
                nearest(
                    ((at.x.0 - start.x.0) * along.x.0 + (at.y.0 - start.y.0) * along.y.0) * ONE,
                    length_squared as int,
                ),
                (ONE / 2) as int,
            ),
            BrushMapping::Square { center, half } => (
                ONE / 2 + nearest((at.x.0 - center.x.0) * ONE, 2 * half.width.0),
                ONE / 2 + nearest((at.y.0 - center.y.0) * ONE, 2 * half.height.0),
            ),
        }
    }

    /// The transformation that takes a place on the screen, at `scale` device
    /// pixels to a pixel, to where in the texture it is found.
    pub open spec fn matrix(self, scale: int) -> MatrixModel {
        match self {
            BrushMapping::Axis { start, along, length_squared } => MatrixModel {
                a: saturate(
                    nearest(along.x.0 * 0x1_0000_0000_0000_0000, length_squared * scale),
                ),
                b: saturate(
                    nearest(along.y.0 * 0x1_0000_0000_0000_0000, length_squared * scale),
                ),
                c: 0,
                d: 0,
                x: saturate(
                    nearest(
                        -(start.x.0 * along.x.0 + start.y.0 * along.y.0) * FINE,
                        length_squared as int,
                    ),
                ),
                y: (FINE / 2) as int,
            },
            BrushMapping::Square { center, half } => MatrixModel {
                a: saturate(nearest(0x1_0000_0000_0000_0000, 2 * half.width.0 * scale)),
                b: 0,
                c: 0,
                d: saturate(nearest(0x1_0000_0000_0000_0000, 2 * half.height.0 * scale)),
                x: saturate(FINE / 2 + nearest(-center.x.0 * FINE, 2 * half.width.0)),
                y: saturate(FINE / 2 + nearest(-center.y.0 * FINE, 2 * half.height.0)),
            },
        }
    }

    /// The transformation that takes a place on the screen, at `scale_factor`
    /// device pixels to a pixel, to where in the texture it is found.
    pub fn screen_to_brush(&self, scale_factor: i64) -> (r: TransformationMatrix)
        requires
            self.wf(),
            0 < scale_factor <= SCALE_LIMIT,
        ensures
            r@ == self.matrix(scale_factor as int),
    {
        match *self {
            BrushMapping::Axis { start, along, length_squared } => {
                proof {
                    lemma_near_product(start.x.0 as int, along.x.0 as int);
                    lemma_near_product(start.y.0 as int, along.y.0 as int);
                    lemma_near_product(along.x.0 as int, along.x.0 as int);
                    lemma_near_product(along.y.0 as int, along.y.0 as int);
                    lemma_scaled_denominator(length_squared as int, scale_factor as int);
                }
                let dot: i128 = start.x.0 as i128 * along.x.0 as i128 + start.y.0 as i128
                    * along.y.0 as i128;
                let whole: i128 = length_squared as i128;
                let span: i128 = whole * scale_factor as i128;
                let a: i64 = saturated(rounded(along.x.0 as i128 * 0x1_0000_0000_0000_0000, span));
                let b: i64 = saturated(rounded(along.y.0 as i128 * 0x1_0000_0000_0000_0000, span));
                let x: i64 = saturated(rounded(-dot * 0x1_0000_0000, whole));
                TransformationMatrix {
                    rotation_scale: [[a, b], [0, 0]],
                    translation: [x, 0x8000_0000],
                }
            },
            BrushMapping::Square { center, half } => {
                let width: i128 = 2 * half.width.0 as i128;
                let height: i128 = 2 * half.height.0 as i128;
                proof {
                    lemma_scaled_denominator(width as int, scale_factor as int);
                    lemma_scaled_denominator(height as int, scale_factor as int);
                }
                let a: i64 = saturated(
                    rounded(0x1_0000_0000_0000_0000, width * scale_factor as i128),
                );
                let d: i64 = saturated(
                    rounded(0x1_0000_0000_0000_0000, height * scale_factor as i128),
                );
                let x: i128 = rounded(-(center.x.0 as i128) * 0x1_0000_0000, width);
                let y: i128 = rounded(-(center.y.0 as i128) * 0x1_0000_0000, height);
                TransformationMatrix {
                    rotation_scale: [[a, 0], [0, d]],
                    translation: [saturated(0x8000_0000 + x), saturated(0x8000_0000 + y)],
                }
            },
        }
    }

    /// Where in the texture a position is found, where one is the whole
    /// texture.
    pub fn apply(&self, at: Point<Pixels>) -> (r: Point<i64>)
        requires
            self.wf(),
            is_near(at),
        ensures
            r.x == saturate(self.place(at).0),
            r.y == saturate(self.place(at).1),
    {
        match *self {
            BrushMapping::Axis { start, along, length_squared } => {
                let x: i64 = at.x.0 - start.x.0;
                let y: i64 = at.y.0 - start.y.0;
                proof {
                    lemma_near_product(x as int, along.x.0 as int);
                    lemma_near_product(y as int, along.y.0 as int);
                    lemma_near_product(along.x.0 as int, along.x.0 as int);
                    lemma_near_product(along.y.0 as int, along.y.0 as int);
                }
                let dot: i128 = x as i128 * along.x.0 as i128 + y as i128 * along.y.0 as i128;
                let whole: i128 = length_squared as i128;
                Point { x: saturated(rounded(dot * 65536, whole)), y: ONE / 2 }
            },
            BrushMapping::Square { center, half } => {
                let x: i64 = at.x.0 - center.x.0;
                let y: i64 = at.y.0 - center.y.0;
                Point {
                    x: saturated(
                        32768 + rounded(x as i128 * 65536, 2 * half.width.0 as i128),
                    ),
                    y: saturated(
                        32768 + rounded(y as i128 * 65536, 2 * half.height.0 as i128),
                    ),
                }
            },
        }
    }
}

proof fn lemma_scaled_denominator(whole: int, scale: int)
    requires
        0 < whole <= 0x800_0000_0000_0000_0000_0000,
        0 < scale <= SCALE_LIMIT,
    ensures
        0 < whole * scale <= 0x800_0000_0000_0000_0000_0000_0000_0000,
{
    assert(0 < whole * scale <= 0x800_0000_0000_0000_0000_0000_0000_0000) by (nonlinear_arith)
        requires
            0 < whole <= 0x800_0000_0000_0000_0000_0000,
            0 < scale <= 0x1_0000_0000,
    ;
}

proof fn lemma_near_product(a: int, b: int)
    requires
        -2 * NEAR <= a <= 2 * NEAR,
        -2 * NEAR <= b <= 2 * NEAR,
    ensures
        -0x400_0000_0000_0000_0000_0000 <= a * b <= 0x400_0000_0000_0000_0000_0000,
{
    assert(-0x400_0000_0000_0000_0000_0000 <= a * b <= 0x400_0000_0000_0000_0000_0000)
        by (nonlinear_arith)
        requires
            -0x2000_0000_0000 <= a <= 0x2000_0000_0000,
            -0x2000_0000_0000 <= b <= 0x2000_0000_0000,
    ;
}

fn rounded(numerator: i128, denominator: i128) -> (r: i128)
    requires
        0 < denominator <= 0x1000_0000_0000_0000_0000_0000_0000_0000,
        -0x1000_0000_0000_0000_0000_0000_0000_0000 <= numerator
            <= 0x1000_0000_0000_0000_0000_0000_0000_0000,
    ensures
        r == nearest(numerator as int, denominator as int),
        -0x4000_0000_0000_0000_0000_0000_0000_0000 <= r
            <= 0x4000_0000_0000_0000_0000_0000_0000_0000,
{
    proof {
        let n = 2 * numerator + denominator;
        let d = 2 * denominator;
        assert(n >= 0 ==> 0 <= n / d <= n) by (nonlinear_arith)
            requires
                1 <= d,
        ;
        assert(n < 0 ==> n <= n / d <= 0) by (nonlinear_arith)
            requires
                1 <= d,
        ;
    }
    floor_div(2 * numerator + denominator, 2 * denominator)
}

/// The start of a line is the beginning of its texture and the end of the line
/// its end; the middle of a box is the middle of its texture, and its corners
/// the texture's.
pub proof fn mappings_fill_the_texture(mapping: BrushMapping)
    requires
        mapping.wf(),
    ensures
        match mapping {
            BrushMapping::Axis { start, along, .. } => {
                let end = Point {
                    x: Pixels((start.x.0 + along.x.0) as i64),
                    y: Pixels((start.y.0 + along.y.0) as i64),
                };
                mapping.place(start).0 == 0 && mapping.place(end).0 == ONE
            },
            BrushMapping::Square { center, half } => {
                let corner = Point {
                    x: Pixels((center.x.0 + half.width.0) as i64),
                    y: Pixels((center.y.0 + half.height.0) as i64),
                };
                &&& mapping.place(center) == ((ONE / 2) as int, (ONE / 2) as int)
                &&& corner.x.0 == center.x.0 + half.width.0 && corner.y.0 == center.y.0
                    + half.height.0 ==> mapping.place(corner) == (ONE as int, ONE as int)
            },
        },
{
    match mapping {
        BrushMapping::Axis { start, along, length_squared } => {
            let whole = length_squared as int;
            lemma_nearest_whole(0, whole);
            lemma_nearest_whole(ONE as int, whole);
            assert(0 * along.x.0 + 0 * along.y.0 == 0);
            assert(whole * ONE == ONE * whole) by (nonlinear_arith);
        },
        BrushMapping::Square { center, half } => {
            lemma_nearest_half(half.width.0 as int);
            lemma_nearest_half(half.height.0 as int);
            assert((2 * 0 + 2 * half.width.0) / (2 * (2 * half.width.0)) == 0int) by (nonlinear_arith)
                requires
                    half.width.0 > 0,
            ;
            assert((2 * 0 + 2 * half.height.0) / (2 * (2 * half.height.0)) == 0int)
                by (nonlinear_arith)
                requires
                    half.height.0 > 0,
            ;
        },
    }
}

proof fn lemma_nearest_whole(k: int, d: int)
    requires
        0 < d,
    ensures
        nearest(k * d, d) == k,
{
    assert((2 * (k * d) + d) / (2 * d) == k) by (nonlinear_arith)
        requires
            0 < d,
    ;
}

proof fn lemma_nearest_half(half: int)
    requires
        0 < half,
    ensures
        nearest(half * ONE, 2 * half) == ONE / 2,
{
    lemma_nearest_whole((ONE / 2) as int, 2 * half);
    assert((ONE / 2) * (2 * half) == half * ONE) by (nonlinear_arith)
        requires
            ONE == 65536,
    ;
}

impl GradientKey {
    /// How many bytes the texture takes.
    pub fn byte_size(&self) -> (r: u64)
        requires
            self.width * self.height * 4 <= u64::MAX,
        ensures
            r == self.width * self.height * 4,
    {
        assert(0 <= self.width * self.height) by (nonlinear_arith)
            requires
                0 <= self.width,
                0 <= self.height,
        ;
        self.width as u64 * self.height as u64 * 4
    }
}

/// How far the side of a box at `edge` is from `center`.
pub open spec fn distance(edge: int, center: int) -> int {
    if edge >= center {
        edge - center
    } else {
        center - edge
    }
}

/// The whole number at or above `a / b`.
pub open spec fn rings_to(a: int, b: int) -> int {
    (a + b - 1) / b
}

/// How many radii out from `center` a box reaches, in whole ones.
pub open spec fn rings_out(bounds: Rect, x: int, y: int, radius_x: int, radius_y: int) -> int {
    max(
        max(
            rings_to(distance(bounds.x, x), radius_x),
            rings_to(distance(bounds.right(), x), radius_x),
        ),
        max(
            rings_to(distance(bounds.y, y), radius_y),
            rings_to(distance(bounds.bottom(), y), radius_y),
        ),
    )
}

/// How far out from `center` a box reaches.
pub open spec fn reach_out(bounds: Rect, x: int, y: int) -> int {
    max(
        max(distance(bounds.x, x), distance(bounds.right(), x)),
        max(distance(bounds.y, y), distance(bounds.bottom(), y)),
    )
}

pub open spec fn clamped(v: int, low: int, high: int) -> int {
    max(low, min(v, high))
}

/// How many radii from its centre a radial gradient is baked out to. One that
/// is padded has its last colour from the first radius on.
pub open spec fn half_extent_of(extend: BrushExtend, rings: int) -> int {
    if extend == BrushExtend::Pad {
        1
    } else {
        clamped(rings, 1, MAX_RINGS as int)
    }
}

/// How often the stops run around a sweep.
pub open spec fn periods_of(extend: BrushExtend, sweep: int) -> int {
    if extend == BrushExtend::Pad {
        1
    } else {
        clamped(rings_to(TURN as int, sweep), 1, MAX_FIELD_TEXELS as int)
    }
}

/// The texels that a field wants across: as many as the shape has pixels, and
/// enough for every run through the stops.
pub open spec fn texels_wanted(bounds: Rect, scale: int, periods: int) -> int {
    max(
        max(bounds.width, bounds.height) * scale / (ONE * ONE),
        max(1, periods * TEXELS_PER_PERIOD),
    )
}

/// The square that a field is baked into: the least power of two that is
/// enough, within limits.
pub open spec fn texels_of(wanted: int) -> int {
    if wanted <= 64 {
        64
    } else if wanted <= 128 {
        128
    } else {
        256
    }
}

/// A difference of coordinates.
pub open spec fn between(from: Pixels, to: Pixels) -> Pixels {
    Pixels(saturate(to.0 - from.0) as i64)
}

/// The gradient as the key of a texture.
pub open spec fn key_of(gradient: Gradient, field: FieldKey, texels: (int, int)) -> KeyModel {
    KeyModel {
        field,
        extend: gradient.extend.code(),
        color_space: gradient.color_space.code(),
        width: texels.0,
        height: texels.1,
        stops: gradient.stops@,
    }
}

pub open spec fn linear_plan(gradient: Gradient, start: Point<Pixels>, end: Point<Pixels>) -> Option<
    GradientPlanModel,
> {
    let dx = between(start.x, end.x);
    let dy = between(start.y, end.y);
    let length_squared = dx.0 * dx.0 + dy.0 * dy.0;
    if length_squared <= NO_LENGTH_SQUARED {
        None
    } else {
        Some(
            GradientPlanModel {
                key: key_of(gradient, FieldKey::Ramp, (RAMP_TEXELS as int, 1)),
                mapping: BrushMapping::Axis {
                    start,
                    along: Point { x: dx, y: dy },
                    length_squared: length_squared as u128,
                },
                x_extend: gradient.extend,
                y_extend: BrushExtend::Pad,
            },
        )
    }
}

pub open spec fn radial_plan(
    gradient: Gradient,
    center: Point<Pixels>,
    radii: Size<Pixels>,
    bounds: Rect,
    scale: int,
) -> Option<GradientPlanModel> {
    let (rx, ry) = (radii.width.0 as int, radii.height.0 as int);
    if rx <= 0 || ry <= 0 {
        None
    } else {
        let rings = rings_out(bounds, center.x.0 as int, center.y.0 as int, rx, ry);
        let half_extent = half_extent_of(gradient.extend, rings);
        let texels = texels_of(texels_wanted(bounds, scale, 2 * half_extent));
        Some(
            GradientPlanModel {
                key: key_of(
                    gradient,
                    FieldKey::Radial { half_extent: half_extent as u32 },
                    (texels, texels),
                ),
                mapping: BrushMapping::Square {
                    center,
                    half: Size {
                        width: Pixels(saturate(rx * half_extent) as i64),
                        height: Pixels(saturate(ry * half_extent) as i64),
                    },
                },
                x_extend: BrushExtend::Pad,
                y_extend: BrushExtend::Pad,
            },
        )
    }
}

pub open spec fn sweep_plan(
    gradient: Gradient,
    center: Point<Pixels>,
    from_angle: i64,
    sweep_angle: i64,
    bounds: Rect,
    scale: int,
) -> Option<GradientPlanModel> {
    let sweep = distance(sweep_angle as int, 0);
    if sweep <= NO_ANGLE {
        None
    } else {
        let half = saturate(
            max(reach_out(bounds, center.x.0 as int, center.y.0 as int), ONE as int),
        );
        let periods = periods_of(gradient.extend, sweep);
        let texels = texels_of(texels_wanted(bounds, scale, periods));
        Some(
            GradientPlanModel {
                key: key_of(
                    gradient,
                    FieldKey::Sweep { from_angle, sweep_angle },
                    (texels, texels),
                ),
                mapping: BrushMapping::Square {
                    center,
                    half: Size { width: Pixels(half as i64), height: Pixels(half as i64) },
                },
                x_extend: BrushExtend::Pad,
                y_extend: BrushExtend::Pad,
            },
        )
    }
}

/// The plan of a gradient that fills `bounds` at `scale`.
pub open spec fn gradient_plan(gradient: Gradient, bounds: Rect, scale: int) -> Option<
    GradientPlanModel,
> {
    if gradient.stops@.len() == 0 || scale <= 0 {
        None
    } else {
        match gradient.kind {
            GradientKind::Linear { start, end } => linear_plan(gradient, start, end),
            GradientKind::Radial { center, radii } => radial_plan(
                gradient,
                center,
                radii,
                bounds,
                scale,
            ),
            GradientKind::Sweep { center, from_angle, sweep_angle } => sweep_plan(
                gradient,
                center,
                from_angle.0,
                sweep_angle.0,
                bounds,
                scale,
            ),
        }
    }
}

fn far(edge: i64, center: i64) -> (r: i128)
    ensures
        r == distance(edge as int, center as int),
        0 <= r <= 0xffff_ffff_ffff_ffff,
{
    if edge >= center {
        edge as i128 - center as i128
    } else {
        center as i128 - edge as i128
    }
}

fn larger(a: i128, b: i128) -> (r: i128)
    ensures
        r == max(a as int, b as int),
{
    if a >= b {
        a
    } else {
        b
    }
}

fn rings(a: i128, b: i64) -> (r: i128)
    requires
        0 <= a <= 0xffff_ffff_ffff_ffff,
        0 < b,
    ensures
        r == rings_to(a as int, b as int),
        0 <= r <= 0x1_ffff_ffff_ffff_ffff,
{
    proof {
        let n = a + b - 1;
        let d = b as int;
        assert(0 <= n / d <= n) by (nonlinear_arith)
            requires
                0 <= n,
                1 <= d,
        ;
    }
    (a + b as i128 - 1) / b as i128
}

fn within(v: i128, low: u32, high: u32) -> (r: u32)
    requires
        low <= high,
    ensures
        r == clamped(v as int, low as int, high as int),
{
    if v < low as i128 {
        low
    } else if v > high as i128 {
        high
    } else {
        v as u32
    }
}

/// The square that a field is baked into, sized to the shape that it covers and
/// to how often the stops run across it.
fn field_texels(path_bounds: Bounds<Pixels>, scale_factor: i64, periods: u32) -> (r: u32)
    requires
        0 < scale_factor,
        periods <= MAX_FIELD_TEXELS,
    ensures
        r == texels_of(texels_wanted(path_bounds@, scale_factor as int, periods as int)),
{
    let width: i64 = path_bounds.size.width.0;
    let height: i64 = path_bounds.size.height.0;
    let side: i64 = if width >= height {
        width
    } else {
        height
    };
    assert(-0x4000_0000_0000_0000_0000_0000_0000_0000 <= side * scale_factor
        <= 0x4000_0000_0000_0000_0000_0000_0000_0000) by (nonlinear_arith)
        requires
            i64::MIN <= side <= i64::MAX,
            0 < scale_factor <= i64::MAX,
    ;
    assert(ONE * ONE == 0x1_0000_0000) by (nonlinear_arith)
        requires
            ONE == 65536,
    ;
    let device: i128 = floor_div(side as i128 * scale_factor as i128, 0x1_0000_0000);
    let runs: i128 = (periods * TEXELS_PER_PERIOD) as i128;
    let wanted: i128 = larger(device, larger(1, runs));
    if wanted <= 64 {
        64
    } else if wanted <= 128 {
        128
    } else {
        256
    }
}

fn square_of(v: i64) -> (r: u128)
    ensures
        r == v * v,
        r <= 0x4000_0000_0000_0000_0000_0000_0000_0000,
{
    let size: u128 = far(v, 0) as u128;
    assert(size * size == v * v) by (nonlinear_arith)
        requires
            size == v || size == -v,
    ;
    assert(size <= 0x8000_0000_0000_0000);
    assert(size * size <= 0x4000_0000_0000_0000_0000_0000_0000_0000) by (nonlinear_arith)
        requires
            0 <= size <= 0x8000_0000_0000_0000,
    ;
    size * size
}

impl Gradient {
    fn key(&self, field: FieldKey, width: u32, height: u32) -> (r: GradientKey)
        ensures
            r@ == key_of(*self, field, (width as int, height as int)),
    {
        let mut stops: Vec<LinearColorStop> = Vec::new();
        let mut index: usize = 0;
        while index < self.stops.len()
            invariant
                index <= self.stops@.len(),
                stops@ == self.stops@.take(index as int),
            decreases self.stops@.len() - index,
        {
            stops.push(self.stops[index]);
            index += 1;
            assert(stops@ =~= self.stops@.take(index as int));
        }
        assert(self.stops@.take(index as int) =~= self.stops@);
        GradientKey {
            field,
            extend: self.extend.to_code(),
            color_space: self.color_space.to_code(),
            width,
            height,
            stops,
        }
    }

    /// The texture of this gradient where it fills `path_bounds` at
    /// `scale_factor`, and how a position finds its place in it. There is none
    /// where there are no stops, or nothing to run them along: a line of no
    /// length, a radius of nothing, a sweep through no angle.
    pub fn plan(&self, path_bounds: Bounds<Pixels>, scale_factor: i64) -> (r: Option<GradientPlan>)
        ensures
            match r {
                None => gradient_plan(*self, path_bounds@, scale_factor as int) is None,
                Some(plan) => {
                    &&& gradient_plan(*self, path_bounds@, scale_factor as int) == Some(plan@)
                    &&& plan.wf()
                },
            },
    {
        if self.stops.len() == 0 || scale_factor <= 0 {
            return None;
        }
        proof {
            if gradient_plan(*self, path_bounds@, scale_factor as int) is Some {
                fields_resolve_every_run(*self, path_bounds@, scale_factor as int);
            }
        }
        match self.kind {
            GradientKind::Linear { start, end } => self.plan_linear(start, end),
            GradientKind::Radial { center, radii } => self.plan_radial(
                center,
                radii,
                path_bounds,
                scale_factor,
            ),
            GradientKind::Sweep { center, from_angle, sweep_angle } => self.plan_sweep(
                center,
                from_angle.0,
                sweep_angle.0,
                path_bounds,
                scale_factor,
            ),
        }
    }

    fn plan_linear(&self, start: Point<Pixels>, end: Point<Pixels>) -> (r: Option<GradientPlan>)
        ensures
            match r {
                None => linear_plan(*self, start, end) is None,
                Some(plan) => linear_plan(*self, start, end) == Some(plan@),
            },
    {
        let dx: i64 = minus(end.x.0, start.x.0);
        let dy: i64 = minus(end.y.0, start.y.0);
        let length_squared: u128 = square_of(dx) + square_of(dy);
        if length_squared <= NO_LENGTH_SQUARED {
            return None;
        }
        Some(
            GradientPlan {
                key: self.key(FieldKey::Ramp, RAMP_TEXELS, 1),
                mapping: BrushMapping::Axis {
                    start,
                    along: Point { x: Pixels(dx), y: Pixels(dy) },
                    length_squared,
                },
                x_extend: self.extend,
                y_extend: BrushExtend::Pad,
            },
        )
    }

    fn plan_radial(
        &self,
        center: Point<Pixels>,
        radii: Size<Pixels>,
        path_bounds: Bounds<Pixels>,
        scale_factor: i64,
    ) -> (r: Option<GradientPlan>)
        requires
            0 < scale_factor,
        ensures
            match r {
                None => radial_plan(*self, center, radii, path_bounds@, scale_factor as int) is None,
                Some(plan) => radial_plan(*self, center, radii, path_bounds@, scale_factor as int)
                    == Some(plan@),
            },
    {
        let rx: i64 = radii.width.0;
        let ry: i64 = radii.height.0;
        if rx <= 0 || ry <= 0 {
            return None;
        }
        let half_extent: u32 = match self.extend {
            BrushExtend::Pad => 1,
            BrushExtend::Repeat | BrushExtend::Reflect => {
                let left: i128 = rings(far(path_bounds.origin.x.0, center.x.0), rx);
                let right: i128 = rings(far(path_bounds.right().0, center.x.0), rx);
                let top: i128 = rings(far(path_bounds.origin.y.0, center.y.0), ry);
                let bottom: i128 = rings(far(path_bounds.bottom().0, center.y.0), ry);
                let most: i128 = larger(larger(left, right), larger(top, bottom));
                within(most, 1, MAX_RINGS)
            },
        };
        let texels: u32 = field_texels(path_bounds, scale_factor, 2 * half_extent);
        assert(rx * half_extent <= 0x7fff_ffff_ffff_ffff * 32) by (nonlinear_arith)
            requires
                0 < rx <= 0x7fff_ffff_ffff_ffff,
                0 <= half_extent <= 32,
        ;
        assert(ry * half_extent <= 0x7fff_ffff_ffff_ffff * 32) by (nonlinear_arith)
            requires
                0 < ry <= 0x7fff_ffff_ffff_ffff,
                0 <= half_extent <= 32,
        ;
        assert(0 <= rx * half_extent && 0 <= ry * half_extent) by (nonlinear_arith)
            requires
                0 < rx,
                0 < ry,
                0 <= half_extent,
        ;
        Some(
            GradientPlan {
                key: self.key(FieldKey::Radial { half_extent }, texels, texels),
                mapping: BrushMapping::Square {
                    center,
                    half: Size {
                        width: Pixels(saturated(rx as i128 * half_extent as i128)),
                        height: Pixels(saturated(ry as i128 * half_extent as i128)),
                    },
                },
                x_extend: BrushExtend::Pad,
                y_extend: BrushExtend::Pad,
            },
        )
    }

    fn plan_sweep(
        &self,
        center: Point<Pixels>,
        from_angle: i64,
        sweep_angle: i64,
        path_bounds: Bounds<Pixels>,
        scale_factor: i64,
    ) -> (r: Option<GradientPlan>)
        requires
            0 < scale_factor,
        ensures
            match r {
                None => sweep_plan(
                    *self,
                    center,
                    from_angle,
                    sweep_angle,
                    path_bounds@,
                    scale_factor as int,
                ) is None,
                Some(plan) => sweep_plan(
                    *self,
                    center,
                    from_angle,
                    sweep_angle,
                    path_bounds@,
                    scale_factor as int,
                ) == Some(plan@),
            },
    {
        let sweep: i128 = far(sweep_angle, 0);
        if sweep <= NO_ANGLE as i128 {
            return None;
        }
        let left: i128 = far(path_bounds.origin.x.0, center.x.0);
        let right: i128 = far(path_bounds.right().0, center.x.0);
        let top: i128 = far(path_bounds.origin.y.0, center.y.0);
        let bottom: i128 = far(path_bounds.bottom().0, center.y.0);
        let reach: i128 = larger(larger(left, right), larger(top, bottom));
        let half: i64 = saturated(larger(reach, ONE as i128));
        let periods: u32 = match self.extend {
            BrushExtend::Pad => 1,
            BrushExtend::Repeat | BrushExtend::Reflect => {
                let around: i128 = (TURN as i128 + sweep - 1) / sweep;
                within(around, 1, MAX_FIELD_TEXELS)
            },
        };
        let texels: u32 = field_texels(path_bounds, scale_factor, periods);
        Some(
            GradientPlan {
                key: self.key(FieldKey::Sweep { from_angle, sweep_angle }, texels, texels),
                mapping: BrushMapping::Square {
                    center,
                    half: Size { width: Pixels(half), height: Pixels(half) },
                },
                x_extend: BrushExtend::Pad,
                y_extend: BrushExtend::Pad,
            },
        )
    }
}

/// Gradients along lines share a texture wherever the lines run and whatever
/// they fill, as long as they agree on the stops, on how they are mixed, and on
/// what follows them.
pub proof fn lines_share_a_texture(
    a: Gradient,
    b: Gradient,
    bounds: Rect,
    other: Rect,
    scale: int,
    other_scale: int,
)
    requires
        a.kind is Linear,
        b.kind is Linear,
        a.stops@ == b.stops@,
        a.extend == b.extend,
        a.color_space == b.color_space,
        gradient_plan(a, bounds, scale) is Some,
        gradient_plan(b, other, other_scale) is Some,
    ensures
        (gradient_plan(a, bounds, scale)->0).key == (gradient_plan(b, other, other_scale)->0).key,
{
}

/// Two gradients share a texture, whatever they fill and at whatever scale,
/// exactly where they agree on everything it is baked from: what its texels
/// mean, how many there are, the stops, how they are mixed, and what follows
/// them.
pub proof fn a_shared_texture_is_the_same(
    a: Gradient,
    b: Gradient,
    bounds: Rect,
    other: Rect,
    scale: int,
    other_scale: int,
)
    requires
        gradient_plan(a, bounds, scale) is Some,
        gradient_plan(b, other, other_scale) is Some,
    ensures
        ({
            let one = (gradient_plan(a, bounds, scale)->0).key;
            let two = (gradient_plan(b, other, other_scale)->0).key;
            one == two <==> {
                &&& a.stops@ == b.stops@
                &&& a.extend == b.extend
                &&& a.color_space == b.color_space
                &&& one.field == two.field
                &&& one.width == two.width
                &&& one.height == two.height
            }
        }),
{
}

/// A texture is never larger than its limit, and a field always has texels
/// enough for each run through the stops that is baked into it, up to the
/// limit.
pub proof fn fields_resolve_every_run(gradient: Gradient, bounds: Rect, scale: int)
    requires
        gradient_plan(gradient, bounds, scale) is Some,
    ensures
        ({
            let key = (gradient_plan(gradient, bounds, scale)->0).key;
            &&& 1 <= key.width <= MAX_FIELD_TEXELS
            &&& 1 <= key.height <= MAX_FIELD_TEXELS
            &&& key.field matches FieldKey::Radial { half_extent } ==> {
                &&& 1 <= half_extent <= MAX_RINGS
                &&& key.width >= 2 * half_extent * TEXELS_PER_PERIOD
                &&& key.width == key.height
            }
            &&& key.field matches FieldKey::Sweep { sweep_angle, .. } ==> {
                let periods = periods_of(gradient.extend, distance(sweep_angle as int, 0));
                &&& key.width >= min(periods * TEXELS_PER_PERIOD, MAX_FIELD_TEXELS as int)
                &&& key.width == key.height
            }
        }),
{
}

/// A radial gradient that does not reach its limit is baked at least as far out
/// as the path it fills.
pub proof fn rings_reach_the_path(bounds: Rect, x: int, y: int, radius_x: int, radius_y: int)
    requires
        0 < radius_x,
        0 < radius_y,
        rings_out(bounds, x, y, radius_x, radius_y) <= MAX_RINGS,
    ensures
        ({
            let half = half_extent_of(
                BrushExtend::Repeat,
                rings_out(bounds, x, y, radius_x, radius_y),
            );
            &&& distance(bounds.x, x) <= half * radius_x
            &&& distance(bounds.right(), x) <= half * radius_x
            &&& distance(bounds.y, y) <= half * radius_y
            &&& distance(bounds.bottom(), y) <= half * radius_y
        }),
{
    let half = half_extent_of(BrushExtend::Repeat, rings_out(bounds, x, y, radius_x, radius_y));
    lemma_rings(distance(bounds.x, x), radius_x, half);
    lemma_rings(distance(bounds.right(), x), radius_x, half);
    lemma_rings(distance(bounds.y, y), radius_y, half);
    lemma_rings(distance(bounds.bottom(), y), radius_y, half);
}

proof fn lemma_rings(a: int, b: int, half: int)
    requires
        0 <= a,
        0 < b,
        rings_to(a, b) <= half,
    ensures
        a <= half * b,
{
    let q = rings_to(a, b);
    assert(a <= q * b) by (nonlinear_arith)
        requires
            0 <= a,
            0 < b,
            q == (a + b - 1) / b,
    ;
    assert(q * b <= half * b) by (nonlinear_arith)
        requires
            q <= half,
            0 < b,
    ;
}

} // verus!
