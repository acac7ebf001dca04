//! Gradients: what is baked, how large, and how a position finds its colour.

use scene_plan::color::{ColorSpace, Hsla, LinearColorStop};
use scene_plan::fixed::ONE;
use scene_plan::geometry::{point, size, Bounds, Pixels};
use scene_plan::gradient::bake::{parameter, texel_bytes};
use scene_plan::gradient::plan::{
    BrushMapping, FieldKey, Gradient, GradientKind, GradientPlan, Radians, MIN_FIELD_TEXELS,
    RAMP_TEXELS, TEXELS_PER_PERIOD, TURN,
};
use scene_plan::gradient::stops::{
    flat_midpoint, fold, interpolate, normalized_stops, sample, Channels,
};
use scene_plan::scene::path::BrushExtend;

/// A number as a count of the steps that lengths and colours are measured in.
fn fx(value: f32) -> i64 {
    (value as f64 * ONE as f64).round() as i64
}

fn px(value: f32) -> Pixels {
    Pixels(fx(value))
}

fn channels_of(rgba: [f32; 4]) -> Channels {
    Channels {
        x: fx(rgba[0]),
        y: fx(rgba[1]),
        z: fx(rgba[2]),
        a: fx(rgba[3]),
    }
}

fn rgba_of(color: Channels) -> [f32; 4] {
    let of = |v: i64| (v as f64 / ONE as f64) as f32;
    [of(color.x), of(color.y), of(color.z), of(color.a)]
}

/// Red, green, blue, black, white and nothing, as hue, saturation, lightness
/// and alpha.
fn hsla(rgba: u32) -> Hsla {
    let (h, s, l, a) = match rgba {
        0xff0000ff => (0., 1., 0.5, 1.),
        0x00ff00ff => (1. / 3., 1., 0.5, 1.),
        0x0000ffff => (2. / 3., 1., 0.5, 1.),
        0x000000ff => (0., 0., 0., 1.),
        0xffffffff => (0., 0., 1., 1.),
        0x00000000 => (0., 0., 0., 0.),
        other => panic!("no such colour here: {other:x}"),
    };
    Hsla {
        h: fx(h),
        s: fx(s),
        l: fx(l),
        a: fx(a),
    }
}

/// Hue, saturation and lightness as red, green and blue.
fn rgba(color: Hsla) -> [f32; 4] {
    let of = |v: i64| (v as f64 / ONE as f64) as f32;
    let (h, s, l, a) = (of(color.h) * 6., of(color.s), of(color.l), of(color.a));
    let chroma = (1. - (2. * l - 1.).abs()) * s;
    let second = chroma * (1. - (h % 2. - 1.).abs());
    let base = l - chroma / 2.;
    let (r, g, b) = match h as u32 {
        0 | 6 => (chroma, second, 0.),
        1 => (second, chroma, 0.),
        2 => (0., chroma, second),
        3 => (0., second, chroma),
        4 => (second, 0., chroma),
        _ => (chroma, 0., second),
    };
    [r + base, g + base, b + base, a]
}

fn linear_color_stop(color: u32, percentage: f32) -> LinearColorStop {
    LinearColorStop {
        color: hsla(color),
        percentage: fx(percentage),
    }
}

/// The stops' colours in the space that they are mixed in. Where that is not
/// sRGB, the cube root of light stands for it: all that the tests ask is that
/// the two differ.
fn mixing_colors(gradient: &Gradient) -> Vec<Channels> {
    gradient
        .stops
        .iter()
        .map(|stop| {
            let [r, g, b, a] = rgba(stop.color);
            channels_of(match gradient.color_space {
                ColorSpace::Srgb => [r, g, b, a],
                ColorSpace::Oklab => [
                    r.powf(2.2).cbrt(),
                    g.powf(2.2).cbrt(),
                    b.powf(2.2).cbrt(),
                    a,
                ],
            })
        })
        .collect()
}

/// The texture of a plan, as a window would have it baked.
fn bake(plan: &GradientPlan, gradient: &Gradient) -> Vec<u8> {
    let stops = normalized_stops(&gradient.stops, &mixing_colors(gradient));
    let colors = plan.bake(gradient.extend, &stops, &Vec::new());
    let painted: Vec<Channels> = colors
        .into_iter()
        .map(|color| {
            let [r, g, b, a] = rgba_of(color);
            channels_of(match gradient.color_space {
                ColorSpace::Srgb => [r, g, b, a],
                ColorSpace::Oklab => [
                    r.powi(3).powf(1. / 2.2),
                    g.powi(3).powf(1. / 2.2),
                    b.powi(3).powf(1. / 2.2),
                    a,
                ],
            })
        })
        .collect();
    texel_bytes(&painted)
}

fn stops() -> Vec<LinearColorStop> {
    vec![
        linear_color_stop(0xff0000ff, 0.),
        linear_color_stop(0x00ff00ff, 0.5),
        linear_color_stop(0x0000ffff, 1.),
    ]
}

fn bounds() -> Bounds<Pixels> {
    Bounds {
        origin: point(px(0.), px(0.)),
        size: size(px(100.), px(100.)),
    }
}

#[test]
fn a_ramp_holds_the_middle_stop_in_its_middle_texel() {
    let gradient = Gradient::linear(point(px(0.), px(0.)), point(px(100.), px(0.)), stops());
    let plan = gradient.plan(bounds(), fx(1.)).expect("a well-formed axis");
    let baked = bake(&plan, &gradient);
    let middle = (RAMP_TEXELS / 2) as usize * 4;
    // BGRA: the middle stop is pure green, so the green channel is the only one
    // lit.
    assert!(baked[middle + 1] > 250, "the middle texel is not green");
    assert!(baked[middle] < 5 && baked[middle + 2] < 5);
}

#[test]
fn a_stop_position_moves_the_colour_along_the_ramp() {
    let gradient = Gradient::linear(
        point(px(0.), px(0.)),
        point(px(100.), px(0.)),
        vec![
            linear_color_stop(0xff0000ff, 0.),
            linear_color_stop(0x00ff00ff, 0.25),
            linear_color_stop(0x0000ffff, 1.),
        ],
    );
    let plan = gradient.plan(bounds(), fx(1.)).expect("a well-formed axis");
    let baked = bake(&plan, &gradient);
    let quarter = (RAMP_TEXELS / 4) as usize * 4;
    assert!(baked[quarter + 1] > 250, "the quarter texel is not green");
}

#[test]
fn the_brush_matrix_puts_the_axis_ends_at_zero_and_one() {
    let gradient = Gradient::linear(point(px(10.), px(10.)), point(px(50.), px(30.)), stops());
    let plan = gradient.plan(bounds(), fx(2.)).expect("a well-formed axis");
    // Device pixels in, brush space out: the axis's ends are the unit square's
    // ends.
    let screen_to_brush = plan.mapping.screen_to_brush(fx(2.));
    let at_start = screen_to_brush.apply(point(px(20.), px(20.)));
    let at_end = screen_to_brush.apply(point(px(100.), px(60.)));
    assert!(at_start.x.0.abs() < fx(1e-4));
    assert!((at_end.x.0 - fx(1.)).abs() < fx(1e-4));
}

#[test]
fn a_degenerate_gradient_has_no_plan() {
    let zero_length = Gradient::linear(point(px(10.), px(10.)), point(px(10.), px(10.)), stops());
    assert!(zero_length.plan(bounds(), fx(1.)).is_none());
    let no_radius = Gradient::radial(point(px(0.), px(0.)), size(px(0.), px(10.)), stops());
    assert!(no_radius.plan(bounds(), fx(1.)).is_none());
    let no_stops = Gradient::linear(point(px(0.), px(0.)), point(px(10.), px(0.)), vec![]);
    assert!(no_stops.plan(bounds(), fx(1.)).is_none());
    let no_turn = Gradient {
        kind: GradientKind::Sweep {
            center: point(px(0.), px(0.)),
            from_angle: Radians(0),
            sweep_angle: Radians(0),
        },
        stops: stops(),
        extend: BrushExtend::Repeat,
        color_space: ColorSpace::default(),
    };
    assert!(no_turn.plan(bounds(), fx(1.)).is_none());
    let flat = Gradient::linear(point(px(0.), px(0.)), point(px(10.), px(0.)), stops());
    assert!(flat.plan(bounds(), 0).is_none());
}

#[test]
fn a_padded_radial_bakes_one_radius_however_far_the_path_reaches() {
    let gradient = Gradient::radial(point(px(50.), px(50.)), size(px(10.), px(10.)), stops());
    let plan = gradient.plan(bounds(), fx(1.)).expect("a well-formed radius");
    assert_eq!(plan.key.field, FieldKey::Radial { half_extent: 1 });
}

#[test]
fn a_repeating_radial_bakes_out_to_the_path() {
    let gradient = Gradient::radial(point(px(50.), px(50.)), size(px(10.), px(10.)), stops())
        .extend(BrushExtend::Repeat);
    let plan = gradient.plan(bounds(), fx(1.)).expect("a well-formed radius");
    assert_eq!(plan.key.field, FieldKey::Radial { half_extent: 5 });
}

#[test]
fn two_identical_gradients_share_a_key_and_two_different_ones_do_not() {
    let one = Gradient::linear(point(px(0.), px(0.)), point(px(100.), px(0.)), stops());
    let two = Gradient::linear(point(px(0.), px(0.)), point(px(40.), px(40.)), stops());
    let three = one.clone().extend(BrushExtend::Repeat);
    let plans = [
        one.plan(bounds(), fx(1.)).expect("a well-formed axis"),
        two.plan(bounds(), fx(1.)).expect("a well-formed axis"),
        three.plan(bounds(), fx(1.)).expect("a well-formed axis"),
    ];
    assert_eq!(
        plans[0].key, plans[1].key,
        "the same stops down a page bake once, wherever the axis runs"
    );
    assert_ne!(plans[0].key, plans[2].key, "the extend mode is baked in");
}

#[test]
fn plans_of_one_key_bake_the_same_texels_whatever_they_fill() {
    let one = Gradient::linear(point(px(0.), px(0.)), point(px(100.), px(0.)), stops());
    let two = Gradient::linear(point(px(7.), px(9.)), point(px(40.), px(-40.)), stops());
    let elsewhere = Bounds {
        origin: point(px(500.), px(-20.)),
        size: size(px(33.), px(800.)),
    };
    let first = one.plan(bounds(), fx(1.)).expect("a well-formed axis");
    let second = two.plan(elsewhere, fx(2.5)).expect("a well-formed axis");
    assert_eq!(first.key, second.key);
    assert_eq!(bake(&first, &one), bake(&second, &two));
    assert_eq!((first.key.extend, first.key.color_space), (0, 0));

    let mixed = one.clone().color_space(ColorSpace::Oklab).extend(BrushExtend::Reflect);
    let third = mixed.plan(bounds(), fx(1.)).expect("a well-formed axis");
    assert_eq!((third.key.extend, third.key.color_space), (2, 1));
    assert_ne!(first.key, third.key);
}

#[test]
fn a_radial_bake_is_radially_symmetric() {
    let gradient = Gradient::radial(point(px(50.), px(50.)), size(px(50.), px(50.)), stops());
    let plan = gradient.plan(bounds(), fx(1.)).expect("a well-formed radius");
    let baked = bake(&plan, &gradient);
    let texels = plan.size().0;
    let at = |x: u32, y: u32| {
        let index = ((y * texels + x) * 4) as usize;
        [baked[index], baked[index + 1], baked[index + 2]]
    };
    let (near, far) = (texels / 4, texels - 1 - texels / 4);
    assert_eq!(at(near, texels / 2), at(far, texels / 2));
    assert_eq!(at(texels / 2, near), at(texels / 2, far));
    assert_ne!(at(texels / 2, texels / 2), at(0, 0));
}

#[test]
fn a_stop_that_fades_to_transparent_keeps_its_colour_on_the_way() {
    // Mixed straight, the colour runs towards transparent's *black* as its alpha
    // falls, so the middle of the ramp is a half-alpha dark red; mixed
    // premultiplied, the middle is red at half alpha.
    let gradient = Gradient::linear(
        point(px(0.), px(0.)),
        point(px(100.), px(0.)),
        vec![
            linear_color_stop(0xff0000ff, 0.),
            linear_color_stop(0x00000000, 1.),
        ],
    );
    let baked = bake(
        &gradient.plan(bounds(), fx(1.)).expect("a well-formed axis"),
        &gradient,
    );
    let middle = (RAMP_TEXELS / 2) as usize * 4;

    // BGRA, straight: the alpha halves and the colour does not move.
    assert!(
        baked[middle + 2] > 250,
        "the middle of a red-to-transparent ramp came back with a red channel of {}",
        baked[middle + 2]
    );
    assert!(
        baked[middle + 3].abs_diff(128) <= 2,
        "the middle of a red-to-transparent ramp should be half alpha, and is {}",
        baked[middle + 3]
    );
    // The end is transparent whichever way it was mixed, so the assertion above
    // is not passing on a ramp that never faded at all.
    assert_eq!(baked[baked.len() - 1], 0, "the last texel is transparent");
}

#[test]
fn a_repeating_radial_bakes_enough_texels_to_resolve_its_rings() {
    // Forty logical pixels across and two-pixel radii: ten rings out to the
    // edge, twenty across the baked square.
    let small = Bounds {
        origin: point(px(0.), px(0.)),
        size: size(px(40.), px(40.)),
    };
    let gradient = Gradient::radial(point(px(20.), px(20.)), size(px(2.), px(2.)), stops())
        .extend(BrushExtend::Repeat);
    let plan = gradient.plan(small, fx(1.)).expect("a well-formed radius");

    let FieldKey::Radial { half_extent } = plan.key.field else {
        panic!("a radial gradient planned something other than a radial field");
    };
    assert_eq!(half_extent, 10, "ten rings out to the path's edge");
    assert!(
        plan.size().0 >= 2 * half_extent * TEXELS_PER_PERIOD,
        "a bake {} texels across has to resolve {} traversals of the stop list",
        plan.size().0,
        2 * half_extent,
    );
}

#[test]
fn a_repeating_sweep_bakes_enough_texels_for_every_turn_of_its_stop_list() {
    // A stop list that runs thirty-two times around the circle needs texels for
    // thirty-two ramps, however small the shape it is painted on.
    let small = Bounds {
        origin: point(px(0.), px(0.)),
        size: size(px(40.), px(40.)),
    };
    let turns = 32;
    let gradient = Gradient {
        kind: GradientKind::Sweep {
            center: point(px(20.), px(20.)),
            from_angle: Radians(0),
            sweep_angle: Radians(TURN / turns as i64),
        },
        stops: stops(),
        extend: BrushExtend::Repeat,
        color_space: ColorSpace::default(),
    };
    let plan = gradient.plan(small, fx(1.)).expect("a well-formed sweep");

    assert!(
        plan.size().0 >= turns * TEXELS_PER_PERIOD,
        "a sweep whose stop list runs {turns} times around the circle baked into {} texels",
        plan.size().0,
    );
}

#[test]
fn a_padded_gradient_is_still_sized_by_the_shape_it_covers() {
    // The control for the two above: sizing by the repeat count must not have
    // taken over from sizing by the shape.
    let small = Bounds {
        origin: point(px(0.), px(0.)),
        size: size(px(40.), px(40.)),
    };
    let gradient = Gradient::radial(point(px(20.), px(20.)), size(px(2.), px(2.)), stops());
    let plan = gradient.plan(small, fx(1.)).expect("a well-formed radius");
    assert_eq!(plan.size().0, MIN_FIELD_TEXELS);
    assert_eq!(plan.key.byte_size(), 64 * 64 * 4);
}

#[test]
fn oklab_and_srgb_disagree_in_the_middle() {
    let axis = (point(px(0.), px(0.)), point(px(100.), px(0.)));
    let two = vec![
        linear_color_stop(0x000000ff, 0.),
        linear_color_stop(0xffffffff, 1.),
    ];
    let srgb = Gradient::linear(axis.0, axis.1, two);
    let oklab = srgb.clone().color_space(ColorSpace::Oklab);
    let middle = (RAMP_TEXELS / 2) as usize * 4;
    let srgb_plan = srgb.plan(bounds(), fx(1.)).expect("an axis");
    let oklab_plan = oklab.plan(bounds(), fx(1.)).expect("an axis");
    assert_ne!(srgb_plan.key, oklab_plan.key);
    let srgb_baked = bake(&srgb_plan, &srgb);
    let oklab_baked = bake(&oklab_plan, &oklab);
    assert_ne!(srgb_baked[middle], oklab_baked[middle]);
}

#[test]
fn a_sweep_starts_as_a_whole_turn_that_repeats() {
    let gradient = Gradient::sweep(point(px(5.), px(5.)), Radians(7), stops());
    assert_eq!(
        gradient.kind,
        GradientKind::Sweep {
            center: point(px(5.), px(5.)),
            from_angle: Radians(7),
            sweep_angle: Radians(TURN),
        }
    );
    assert_eq!(gradient.extend, BrushExtend::Repeat);
    // A quarter turn past the start is a quarter of the way along the stops.
    let field = FieldKey::Sweep { from_angle: 0, sweep_angle: TURN };
    assert_eq!(parameter(field, BrushExtend::Repeat, 0, 0, 64, TURN / 4), fx(0.25));
    assert_eq!(parameter(field, BrushExtend::Repeat, 0, 0, 64, TURN + TURN / 4), fx(0.25));
}

#[test]
fn parameters_are_brought_back_as_the_mode_says() {
    assert_eq!(fold(fx(1.25), BrushExtend::Pad), fx(1.));
    assert_eq!(fold(fx(-0.25), BrushExtend::Pad), 0);
    assert_eq!(fold(fx(1.25), BrushExtend::Repeat), fx(0.25));
    assert_eq!(fold(fx(-0.25), BrushExtend::Repeat), fx(0.75));
    assert_eq!(fold(fx(1.25), BrushExtend::Reflect), fx(0.75));
    assert_eq!(fold(fx(-0.25), BrushExtend::Reflect), fx(0.25));
}

#[test]
fn stops_out_of_order_are_taken_where_the_last_one_stood() {
    let stops = vec![
        linear_color_stop(0xff0000ff, 0.5),
        linear_color_stop(0x00ff00ff, 0.25),
        linear_color_stop(0x0000ffff, 2.),
    ];
    let colors: Vec<Channels> = stops.iter().map(|stop| channels_of(rgba(stop.color))).collect();
    let mixed = normalized_stops(&stops, &colors);
    let positions: Vec<i64> = mixed.iter().map(|stop| stop.position).collect();
    assert_eq!(positions, vec![fx(0.5), fx(0.5), fx(1.)]);
    // Before the first stop is the first colour, and past the last the last.
    assert_eq!(sample(&mixed, 0), colors[0]);
    assert_eq!(sample(&mixed, fx(1.)), colors[2]);
    assert_eq!(sample(&Vec::new(), 0), Channels { x: 0, y: 0, z: 0, a: 0 });
}

#[test]
fn the_flat_midpoint_is_the_colour_half_way() {
    let two = vec![
        linear_color_stop(0x000000ff, 0.),
        linear_color_stop(0xffffffff, 1.),
    ];
    let colors: Vec<Channels> = two.iter().map(|stop| channels_of(rgba(stop.color))).collect();
    assert_eq!(flat_midpoint(&two, &colors), channels_of([0.5, 0.5, 0.5, 1.]));
    assert_eq!(
        interpolate(colors[0], colors[1], 1, 4),
        channels_of([0.25, 0.25, 0.25, 1.])
    );
}

#[test]
fn a_box_fills_its_texture() {
    let mapping = BrushMapping::Square {
        center: point(px(50.), px(40.)),
        half: size(px(10.), px(20.)),
    };
    assert_eq!(mapping.apply(point(px(50.), px(40.))), point(fx(0.5), fx(0.5)));
    assert_eq!(mapping.apply(point(px(60.), px(60.))), point(fx(1.), fx(1.)));
    assert_eq!(mapping.apply(point(px(40.), px(20.))), point(0, 0));
    // The same on a screen with two device pixels to a pixel.
    let matrix = mapping.screen_to_brush(fx(2.));
    assert_eq!(matrix.apply(point(px(100.), px(80.))), point(px(0.5), px(0.5)));
    assert!((matrix.apply(point(px(120.), px(120.))).x.0 - fx(1.)).abs() <= 1);
}

#[test]
fn texels_are_blue_first_and_rounded() {
    assert_eq!(
        texel_bytes(&vec![Channels { x: fx(1.), y: fx(0.5), z: fx(-3.), a: fx(9.) }]),
        vec![0, 128, 255, 255]
    );
}
