//! Clip paths.

use scene_plan::clip_path::{ClipPath, ClipPathSegment, FillRule, KAPPA, KAPPA_SCALE};
use scene_plan::fixed::ONE;
use scene_plan::geometry::{point, size, Bounds, Corners, Pixels, ScaledPixels};

/// A number as a count of the steps that lengths are measured in.
fn fx(value: f32) -> i64 {
    (value as f64 * ONE as f64) as i64
}

fn px(value: f32) -> Pixels {
    Pixels(fx(value))
}

fn spx(value: f32) -> ScaledPixels {
    ScaledPixels(fx(value))
}

/// `length * KAPPA`, to the nearest step.
fn kappa_of(length: f64) -> f64 {
    length * KAPPA as f64 / KAPPA_SCALE as f64
}

fn nearest_px(value: f64) -> Pixels {
    Pixels((value * ONE as f64).round() as i64)
}

fn rect() -> Bounds<Pixels> {
    Bounds {
        origin: point(px(10.), px(20.)),
        size: size(px(200.), px(100.)),
    }
}

#[test]
fn rounded_rect_has_elliptical_corners() {
    let radii = Corners {
        top_left: size(px(30.), px(10.)),
        top_right: size(px(0.), px(0.)),
        bottom_right: size(px(5.), px(40.)),
        bottom_left: size(px(0.), px(0.)),
    };
    let path = ClipPath::rounded_rect(rect(), radii);

    assert_eq!(path.fill_rule(), FillRule::NonZero);
    assert_eq!(path.segments().len(), 10);
    assert_eq!(
        path.segments()[0],
        ClipPathSegment::MoveTo(point(px(40.), px(20.)))
    );
    assert_eq!(path.segments()[9], ClipPathSegment::Close);

    // The left edge stops 10 above the top, and the corner then sweeps 30
    // across to the start point: one quadrant of a 30x10 ellipse, which a
    // single circular radius cannot describe.
    assert_eq!(
        path.segments()[7],
        ClipPathSegment::LineTo(point(px(10.), px(30.)))
    );
    assert_eq!(
        path.segments()[8],
        ClipPathSegment::CubicTo {
            control1: point(px(10.), nearest_px(30. - kappa_of(10.))),
            control2: point(nearest_px(10. + 30. - kappa_of(30.)), px(20.)),
            to: point(px(40.), px(20.)),
        }
    );

    // A square corner still emits its cubic, collapsed onto the corner.
    assert_eq!(
        path.segments()[2],
        ClipPathSegment::CubicTo {
            control1: point(px(210.), px(20.)),
            control2: point(px(210.), px(20.)),
            to: point(px(210.), px(20.)),
        }
    );
}

#[test]
fn rounded_rect_bounds_are_the_rect() {
    let radii = Corners {
        top_left: size(px(30.), px(10.)),
        top_right: size(px(12.), px(50.)),
        bottom_right: size(px(5.), px(40.)),
        bottom_left: size(px(60.), px(3.)),
    };
    assert_eq!(ClipPath::rounded_rect(rect(), radii).bounds(), rect());
}

#[test]
fn rounded_rect_clamps_overlapping_radii() {
    // 150 + 150 of horizontal radius on a 200-wide rect: every radius is scaled
    // by 200 / 300.
    let radii = Corners {
        top_left: size(px(150.), px(30.)),
        top_right: size(px(150.), px(30.)),
        bottom_right: size(px(0.), px(0.)),
        bottom_left: size(px(0.), px(0.)),
    };
    let path = ClipPath::rounded_rect(rect(), radii);
    let ClipPathSegment::MoveTo(start) = path.segments()[0] else {
        unreachable!()
    };
    assert_eq!(start, point(px(110.), px(20.)));
    assert_eq!(path.bounds(), rect());
}

#[test]
fn rounded_rect_with_no_radii_is_the_rect() {
    let path = ClipPath::rounded_rect(rect(), Corners::default());
    assert_eq!(path.segments().len(), 10);
    assert_eq!(path.bounds(), rect());
}

#[test]
fn scaling_scales_points_and_bounds() {
    let path = ClipPath::builder()
        .move_to(point(px(1.), px(2.)))
        .quad_to(point(px(3.), px(4.)), point(px(5.), px(6.)))
        .close()
        .build();
    let scaled = path.scale(fx(2.0));

    assert_eq!(scaled.segments().len(), 3);
    assert_eq!(
        scaled.segments()[1],
        ClipPathSegment::QuadTo {
            control: point(spx(6.), spx(8.)),
            to: point(spx(10.), spx(12.)),
        }
    );
    assert_eq!(scaled.bounds(), path.bounds().scale(fx(2.0)));
}

#[test]
fn an_empty_builder_builds_an_empty_path() {
    let path = ClipPath::builder().build();
    assert!(path.is_empty());
    assert_eq!(path.bounds(), Bounds::default());
}

#[test]
fn a_builder_keeps_its_segments_in_order_and_its_fill_rule() {
    let path = ClipPath::builder()
        .fill_rule(FillRule::EvenOdd)
        .move_to(point(px(-1.), px(0.)))
        .line_to(point(px(4.), px(0.)))
        .cubic_to(
            point(px(9.), px(-7.)),
            point(px(4.), px(2.)),
            point(px(4.), px(3.)),
        )
        .close()
        .build();
    assert_eq!(path.fill_rule(), FillRule::EvenOdd);
    assert!(!path.is_empty());
    assert_eq!(
        path.segments(),
        &[
            ClipPathSegment::MoveTo(point(px(-1.), px(0.))),
            ClipPathSegment::LineTo(point(px(4.), px(0.))),
            ClipPathSegment::CubicTo {
                control1: point(px(9.), px(-7.)),
                control2: point(px(4.), px(2.)),
                to: point(px(4.), px(3.)),
            },
            ClipPathSegment::Close,
        ]
    );
    // The box is drawn around control points too.
    assert_eq!(
        path.bounds(),
        Bounds {
            origin: point(px(-1.), px(-7.)),
            size: size(px(10.), px(10.)),
        }
    );
}
