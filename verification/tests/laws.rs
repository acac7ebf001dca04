//! What holds of scenes, boxes and transformations, on examples.

use scene_plan::atlas::{AtlasTextureId, AtlasTextureKind, AtlasTile, TileId};
use scene_plan::clip_path::ClipPath;
use scene_plan::color::{unit_clamped, Background, Hsla};
use scene_plan::fixed::{floor_div, minus, plus, times, ONE};
use scene_plan::geometry::{
    point, size, Bounds, ContentMask, Corners, DevicePixels, Edges, Pixels, ScaledPixels, Size,
};
use scene_plan::renderer::extent::{quantized_group_extent, DeviceRect, Extent};
use scene_plan::renderer::targets::GroupTargets;
use scene_plan::scene::batch::PrimitiveBatch;
use scene_plan::scene::bounds_tree::BoundsTree;
use scene_plan::scene::filter::SceneFilter;
use scene_plan::scene::group::GroupSpec;
use scene_plan::scene::ids::{ClipId, PaddedBool32};
use scene_plan::scene::overlap::content_is_overlap_free;
use scene_plan::scene::path::{BrushExtend, Path, PathBrush};
use scene_plan::scene::primitive::{PolychromeSprite, Primitive, Quad, Shadow};
use scene_plan::scene::recording::{Scene, SceneStep};
use scene_plan::scene::sort::merge_sorted;
use scene_plan::scene::transform::{TransformationMatrix, FINE};
use scene_plan::text::text_of;

/// A number as a count of the steps that lengths are measured in.
fn fx(value: f32) -> i64 {
    (value as f64 * ONE as f64) as i64
}

fn px(value: f32) -> Pixels {
    Pixels(fx(value))
}

fn spx(value: f32) -> ScaledPixels {
    ScaledPixels(fx(value))
}

fn at(x: f32, y: f32, width: f32, height: f32) -> Bounds<ScaledPixels> {
    Bounds {
        origin: point(spx(x), spx(y)),
        size: size(spx(width), spx(height)),
    }
}

fn quad(bounds: Bounds<ScaledPixels>) -> Quad {
    Quad {
        bounds,
        content_mask: ContentMask::new(bounds),
        ..Default::default()
    }
}

fn sprite(x: f32, texture: u32, tile: u32) -> PolychromeSprite {
    let bounds = at(x, 0., 8., 8.);
    PolychromeSprite {
        order: 0,
        clip: ClipId::none(),
        grayscale: false.into(),
        opacity: ONE,
        bounds,
        content_mask: ContentMask::new(bounds),
        corner_radii: Corners::default(),
        tile: AtlasTile {
            texture_id: AtlasTextureId {
                index: texture,
                kind: AtlasTextureKind::Polychrome,
            },
            tile_id: TileId(tile),
            padding: 0,
            bounds: Bounds {
                origin: point(DevicePixels(0), DevicePixels(0)),
                size: size(DevicePixels(8), DevicePixels(8)),
            },
        },
    }
}

fn outline(width: f32) -> ClipPath<ScaledPixels> {
    ClipPath::rounded_rect(
        Bounds {
            origin: point(px(0.), px(0.)),
            size: size(px(width), px(100.)),
        },
        Corners::default(),
    )
    .scale(ONE)
}

#[test]
fn numbers_saturate_and_round() {
    assert_eq!(plus(i64::MAX, 1), i64::MAX);
    assert_eq!(minus(i64::MIN, 1), i64::MIN);
    assert_eq!(times(7, ONE), 7);
    assert_eq!(times(fx(1.5), fx(-2.)), fx(-3.));
    assert_eq!(times(1, fx(0.5)), 1);
    assert_eq!(times(-1, fx(0.5)), 0);
    assert_eq!(floor_div(-7, 2), -4);
    assert_eq!(unit_clamped(fx(1.5)), ONE);
    assert_eq!(unit_clamped(-3), 0);
    assert_eq!(text_of(0), "0");
    assert_eq!(text_of(18446744073709551615), "18446744073709551615");
}

#[test]
fn a_word_is_a_truth_value() {
    assert_eq!(PaddedBool32::from(true).word(), 1);
    assert_eq!(PaddedBool32::from(false).word(), 0);
    assert_eq!(PaddedBool32::default().word(), 0);
}

#[test]
fn boxes_meet_join_and_grow() {
    let a = at(0., 0., 10., 10.);
    let b = at(5., 8., 10., 10.);
    assert_eq!(a.intersect(&b), at(5., 8., 5., 2.));
    assert!(a.intersects(&b));
    assert_eq!(a.union(&b), at(0., 0., 15., 18.));
    assert!(!a.intersects(&at(10., 0., 5., 5.)), "boxes that touch do not overlap");
    assert!(a.intersect(&at(20., 0., 5., 5.)).is_empty());
    assert_eq!(a.dilate(spx(2.)), at(-2., -2., 14., 14.));
    assert_eq!(
        a.extend(Edges { top: spx(1.), right: spx(2.), bottom: spx(3.), left: spx(4.) }),
        at(-4., -1., 16., 14.)
    );
    assert_eq!(a.offset_by(point(spx(3.), spx(-3.))), at(3., -3., 10., 10.));
    assert_eq!(Bounds::from_corners(point(spx(1.), spx(2.)), point(spx(4.), spx(6.))), at(1., 2., 3., 4.));
}

#[test]
fn a_later_box_is_ordered_above_what_it_covers() {
    let mut tree = BoundsTree::default();
    assert_eq!(tree.insert(at(0., 0., 10., 10.)), 1);
    assert_eq!(tree.insert(at(5., 5., 10., 10.)), 2);
    assert_eq!(tree.insert(at(100., 0., 10., 10.)), 1);
    assert_eq!(tree.insert(at(0., 0., 200., 200.)), 3);
    tree.clear();
    assert_eq!(tree.insert(at(0., 0., 200., 200.)), 1);
}

#[test]
fn boxes_that_overlap_are_found_and_a_crowd_is_given_up_on() {
    assert!(content_is_overlap_free(Vec::new()));
    assert!(content_is_overlap_free(vec![at(0., 0., 10., 10.), at(10., 0., 10., 10.)]));
    assert!(!content_is_overlap_free(vec![at(0., 0., 10., 10.), at(9., 0., 10., 10.)]));
    // A column of rows shares an x span: so many pairs are compared and no more.
    let column = |rows: usize| (0..rows).map(|row| at(0., 10. * row as f32, 10., 10.)).collect();
    assert!(content_is_overlap_free(column(91)), "4095 pairs");
    assert!(!content_is_overlap_free(column(92)), "4186 pairs");
}

#[test]
fn sorting_keeps_equals_in_their_order() {
    let boxes = vec![
        at(5., 1., 1., 1.),
        at(3., 2., 1., 1.),
        at(5., 3., 1., 1.),
        at(1., 4., 1., 1.),
        at(3., 5., 1., 1.),
    ];
    let ys: Vec<i64> = merge_sorted(boxes).iter().map(|bounds| bounds.origin.y.0 / ONE).collect();
    assert_eq!(ys, vec![4, 2, 5, 1, 3]);
}

#[test]
fn a_layer_is_drawn_at_one_order_and_what_overlaps_in_paint_order() {
    let mut scene = Scene::default();
    scene.insert_primitive(quad(at(0., 0., 10., 10.)));
    scene.insert_primitive(quad(at(5., 0., 10., 10.)));
    scene.push_layer(at(0., 0., 100., 100.));
    scene.insert_primitive(quad(at(0., 0., 10., 10.)));
    scene.insert_primitive(quad(at(0., 0., 10., 10.)));
    scene.pop_layer();
    scene.insert_primitive(quad(at(90., 90., 5., 5.)));
    let orders: Vec<u32> = scene.quads.iter().map(|quad| quad.order).collect();
    assert_eq!(orders, vec![1, 2, 3, 3, 4]);
}

#[test]
fn what_nothing_can_be_seen_of_is_left_out() {
    let mut scene = Scene::default();
    let mut hidden = quad(at(0., 0., 10., 10.));
    hidden.content_mask = ContentMask::new(at(50., 50., 10., 10.));
    scene.insert_primitive(hidden);
    scene.insert_primitive(quad(at(0., 0., 0., 10.)));
    assert_eq!(scene.len(), 0);
    assert!(scene.quads.is_empty());
}

#[test]
fn replaying_in_pieces_is_replaying_at_once() {
    let mut prev = Scene::default();
    prev.insert_primitive(quad(at(0., 0., 10., 10.)));
    let path = outline(40.);
    let visible = path.bounds();
    prev.push_clip(path, visible);
    prev.insert_primitive(quad(at(5., 0., 10., 10.)));
    prev.pop_clip();
    prev.push_group(GroupSpec { opacity: fx(0.5), ..Default::default() });
    prev.insert_primitive(quad(at(100., 0., 10., 10.)));
    prev.pop_group();
    let all = prev.len();
    prev.finish();

    let mut whole = Scene::default();
    whole.replay(0..all, &prev);
    let mut pieces = Scene::default();
    pieces.replay(0..2, &prev);
    pieces.replay(2..4, &prev);
    pieces.replay(4..all, &prev);
    whole.finish();
    pieces.finish();
    assert_eq!(whole.segments, pieces.segments);
    assert_eq!(whole.len(), all);
    let stamp = |scene: &Scene| -> Vec<(u32, u32, i64)> {
        scene.quads.iter().map(|quad| (quad.order, quad.clip.0, quad.bounds.origin.x.0)).collect()
    };
    assert_eq!(stamp(&whole), stamp(&pieces));
    assert_eq!(stamp(&whole), stamp(&prev));
}

#[test]
fn every_clip_comes_after_its_parent() {
    let mut scene = Scene::default();
    for width in [10., 20., 30.] {
        let path = outline(width);
        let visible = path.bounds();
        scene.push_clip(path, visible);
    }
    for (index, clip) in scene.clips.iter().enumerate() {
        assert_eq!(clip.parent, ClipId(index as u32));
    }
    assert!(scene.clip(ClipId(4)).is_none());
    assert_eq!(ClipId(3).index(), Some(2));
    assert_eq!(ClipId::none().index(), None);
    assert!(ClipId(1).is_clipped() && ClipId(0).is_none());
}

#[test]
fn batches_draw_everything_once_and_in_order() {
    let mut scene = Scene::default();
    for index in 0..12 {
        let x = 7. * index as f32;
        match index % 3 {
            0 => scene.insert_primitive(quad(at(x, 0., 10., 10.))),
            1 => scene.insert_primitive(sprite(x, index as u32 % 2, 12 - index as u32)),
            _ => {
                let bounds = at(x, 0., 5., 5.);
                scene.insert_primitive(Shadow {
                    order: 0,
                    blur_radius: spx(0.),
                    bounds,
                    corner_radii: Corners::default(),
                    content_mask: ContentMask::new(bounds),
                    color: Hsla::default(),
                    element_bounds: bounds,
                    element_corner_radii: Corners::default(),
                    inset: 0,
                    clip: ClipId::none(),
                });
            }
        }
    }
    scene.finish();
    let mut drawn: Vec<u32> = Vec::new();
    let mut counts = [0usize; 3];
    for batch in scene.batches() {
        match batch {
            PrimitiveBatch::Shadows(range) => {
                assert_eq!(range.start, counts[0]);
                counts[0] = range.end;
                drawn.extend(scene.shadows[range].iter().map(|shadow| shadow.order));
            }
            PrimitiveBatch::Quads(range) => {
                assert_eq!(range.start, counts[1]);
                counts[1] = range.end;
                drawn.extend(scene.quads[range].iter().map(|quad| quad.order));
            }
            PrimitiveBatch::PolychromeSprites { texture_id, range } => {
                assert_eq!(range.start, counts[2]);
                counts[2] = range.end;
                let sprites = &scene.polychrome_sprites[range];
                assert!(sprites.iter().all(|sprite| sprite.tile.texture_id == texture_id));
                drawn.extend(sprites.iter().map(|sprite| sprite.order));
            }
            other => panic!("unexpected {}", other.label()),
        }
    }
    assert_eq!(counts, [4, 4, 4]);
    assert!(drawn.windows(2).all(|pair| pair[0] <= pair[1]), "{drawn:?}");
}

#[test]
fn the_steps_of_a_finished_scene_hold_everything() {
    let mut scene = Scene::default();
    scene.insert_primitive(quad(at(0., 0., 10., 10.)));
    scene.push_group(GroupSpec {
        filter: Some(SceneFilter::ColorMatrix([0; 20])),
        ..Default::default()
    });
    scene.insert_primitive(sprite(0., 0, 0));
    scene.pop_group();
    scene.insert_primitive(quad(at(0., 0., 10., 10.)));
    scene.finish();
    let held: usize = scene
        .steps()
        .iter()
        .map(|step| match step {
            SceneStep::Run(run) => run.len(),
            _ => 0,
        })
        .sum();
    assert_eq!(held, 3);
    let labels: Vec<String> = scene
        .steps()
        .iter()
        .filter_map(|step| match step {
            SceneStep::Run(run) => Some(scene.run_batches(run)),
            _ => None,
        })
        .flatten()
        .map(|batch| batch.label())
        .collect();
    assert_eq!(labels, vec!["quads (1)", "polychrome sprites (1) on atlas 0", "quads (1)"]);
}

#[test]
fn the_unit_changes_nothing_and_translations_add_up() {
    let unit = TransformationMatrix::unit();
    let moved = unit.translate(point(spx(3.), spx(-4.)));
    assert_eq!(unit.compose(moved), moved);
    assert_eq!(moved.compose(unit), moved);
    assert_eq!(unit.apply(point(px(1.), px(2.))), point(px(1.), px(2.)));
    assert_eq!(moved.apply(point(px(1.), px(2.))), point(px(4.), px(-2.)));
    assert_eq!(TransformationMatrix::default(), unit);
    // A quarter turn clockwise, on a screen whose y grows downwards.
    let turned = unit.rotate(0, FINE);
    assert_eq!(turned.apply(point(px(1.), px(0.))), point(px(0.), px(1.)));
    let half = unit.scale(size(FINE / 2, FINE)).invert().expect("a size");
    assert_eq!(half.apply(point(px(1.), px(1.))), point(px(2.), px(1.)));
}

#[test]
fn fading_reaches_the_brush_of_a_path() {
    let mut path = Path::new(point(px(0.), px(0.)));
    path.line_to(point(px(10.), px(0.)));
    path.curve_to(point(px(10.), px(10.)), point(px(15.), px(5.)));
    path.content_mask = ContentMask::new(Bounds {
        origin: point(px(0.), px(0.)),
        size: size(px(100.), px(100.)),
    });
    path.color = Background::from(Hsla { h: 0, s: 0, l: 0, a: ONE });
    path.brush = Some(PathBrush {
        tile: sprite(0., 0, 0).tile,
        screen_to_brush: TransformationMatrix::unit(),
        x_extend: BrushExtend::Repeat,
        y_extend: BrushExtend::Pad,
        opacity: fx(0.5),
    });
    let mut scene = Scene::default();
    scene.push_group(GroupSpec { opacity: fx(0.5), ..Default::default() });
    scene.insert_primitive(path.scale(ONE));
    scene.pop_group();
    assert!(scene.groups.is_empty());
    assert_eq!(scene.paths[0].color.solid.a, fx(0.5));
    assert_eq!(scene.paths[0].brush.map(|brush| brush.opacity), Some(fx(0.25)));
    assert_eq!(scene.paths[0].vertices.len(), 6, "a triangle of the fan and one of the curve");
}

#[test]
fn a_primitive_says_where_it_is() {
    let primitive = Primitive::from(quad(at(1., 2., 3., 4.)));
    assert_eq!(*primitive.bounds(), at(1., 2., 3., 4.));
    assert_eq!(primitive.painted_bounds(), at(1., 2., 3., 4.));
    assert_eq!(primitive.content_mask().bounds, at(1., 2., 3., 4.));
}

#[test]
fn a_filter_scales_its_lengths_and_not_its_colours() {
    let filter = SceneFilter::Chain(vec![
        SceneFilter::Blur { radius_x: fx(1.), radius_y: fx(2.) },
        SceneFilter::ColorMatrix([7; 20]),
        SceneFilter::DropShadow {
            offset_x: fx(-3.),
            offset_y: fx(4.),
            radius: fx(5.),
            color: Hsla { h: 1, s: 2, l: 3, a: 4 },
        },
    ]);
    assert_eq!(
        filter.scale(fx(2.)),
        SceneFilter::Chain(vec![
            SceneFilter::Blur { radius_x: fx(2.), radius_y: fx(4.) },
            SceneFilter::ColorMatrix([7; 20]),
            SceneFilter::DropShadow {
                offset_x: fx(-6.),
                offset_y: fx(8.),
                radius: fx(10.),
                color: Hsla { h: 1, s: 2, l: 3, a: 4 },
            },
        ])
    );
}

#[test]
fn a_mask_with_a_scale_keeps_its_corners() {
    let mut mask = ContentMask::new(Bounds {
        origin: point(px(1.), px(2.)),
        size: size(px(3.), px(4.)),
    });
    mask.corner_radii.top_right = px(0.5);
    let scaled = mask.scale(fx(2.));
    assert_eq!(scaled.bounds, at(2., 4., 6., 8.));
    assert_eq!(scaled.corner_radii.top_right, spx(1.));
    let widths: Size<ScaledPixels> = scaled.bounds.size;
    assert_eq!(widths.width, spx(6.));
}

#[test]
fn targets_are_handed_back_after_a_long_run_of_small_frames() {
    let mut targets = GroupTargets::default();
    let large = DeviceRect { x: 0, y: 0, width: 1000, height: 1000 };
    let small = DeviceRect { x: 0, y: 0, width: 10, height: 10 };
    let budget: u64 = 1 << 27;
    let whole = quantized_group_extent(large.extent());
    assert_eq!(whole, Extent { width: 1024, height: 1024 });
    targets.begin_frame();
    assert_eq!(targets.acquire(0, large, budget, false), Some(whole));
    targets.end_frame();
    for _ in 0..240 {
        targets.begin_frame();
        assert_eq!(targets.acquire(0, small, budget, false), Some(whole));
        targets.end_frame();
    }
    targets.begin_frame();
    assert_eq!(
        targets.acquire(0, small, budget, false),
        Some(Extent { width: 256, height: 256 })
    );
}

fn steep() -> TransformationMatrix {
    TransformationMatrix::unit()
        .translate(point(spx(30.), spx(-12.)))
        .scale(size(2 * FINE, 4 * FINE))
        .rotate(FINE / 5 * 3, FINE / 5 * 4)
}

fn leaning() -> TransformationMatrix {
    TransformationMatrix {
        rotation_scale: [[FINE / 3, FINE / 7], [-FINE / 11, FINE]],
        translation: [5 * FINE, -FINE / 9],
    }
}

#[test]
fn a_composed_transformation_acts_as_one_after_the_other() {
    let (first, second) = (leaning(), steep());
    for at in [point(px(0.), px(0.)), point(px(17.), px(-3.)), point(px(-100.5), px(64.25))] {
        let at_once = second.compose(first).apply(at);
        let in_turn = second.apply(first.apply(at));
        assert!((at_once.x.0 - in_turn.x.0).abs() <= 15, "{at_once:?} {in_turn:?}");
        assert!((at_once.y.0 - in_turn.y.0).abs() <= 15, "{at_once:?} {in_turn:?}");
    }
    let apart = first.compose(second).apply(point(px(17.), px(-3.)));
    assert_ne!(apart, second.compose(first).apply(point(px(17.), px(-3.))));
}

#[test]
fn composing_three_transformations_is_associative() {
    let (a, b) = (steep(), leaning());
    let c = TransformationMatrix::unit().scale(size(FINE / 3, -FINE));
    let left = a.compose(b).compose(c);
    let right = a.compose(b.compose(c));
    for row in 0..2 {
        for column in 0..2 {
            let gap = left.rotation_scale[row][column] - right.rotation_scale[row][column];
            assert!(gap.abs() <= 10, "{left:?} {right:?}");
        }
        assert!((left.translation[row] - right.translation[row]).abs() <= 10);
    }
}

#[test]
fn an_inverse_brings_points_back() {
    for matrix in [steep(), leaning()] {
        let inverse = matrix.invert().expect("it is invertible");
        for original in [point(px(0.), px(0.)), point(px(17.), px(-3.)), point(px(900.), px(64.25))]
        {
            let back = inverse.apply(matrix.apply(original));
            assert!((back.x.0 - original.x.0).abs() <= 16, "{original:?} {back:?}");
            assert!((back.y.0 - original.y.0).abs() <= 16, "{original:?} {back:?}");
        }
    }
}

/// A faded group of quads stacked in one column, none of which overlap.
fn column(quads: usize) -> Scene {
    let mut scene = Scene::default();
    scene.push_group(GroupSpec {
        opacity: ONE / 2,
        ..Default::default()
    });
    for index in 0..quads {
        scene.insert_primitive(quad(at(0., 10. * index as f32, 10., 10.)));
    }
    scene.pop_group();
    scene.finish();
    scene
}

#[test]
fn a_small_group_is_folded_wherever_nothing_overlaps() {
    assert!(column(91).groups.is_empty());
    assert_eq!(column(92).groups.len(), 1, "the sweep gives up on a crowd");
    assert_eq!(column(91).steps().len(), 1, "one run spans everything");
}

#[test]
fn the_steps_push_every_group_once_and_in_order() {
    let mut scene = Scene::default();
    let tinted = |number: i64| GroupSpec {
        filter: Some(SceneFilter::ColorMatrix([number; 20])),
        ..Default::default()
    };
    for number in 0..3 {
        scene.push_group(tinted(2 * number));
        scene.push_group(tinted(2 * number + 1));
        scene.insert_primitive(quad(at(0., 0., 10., 10.)));
        scene.pop_group();
        scene.push_group(GroupSpec::default());
        scene.pop_group();
        scene.pop_group();
    }
    scene.finish();
    let pushed: Vec<Option<SceneFilter>> = scene
        .steps()
        .iter()
        .filter_map(|step| match step {
            SceneStep::PushGroup(group) => Some(group.filter.clone()),
            _ => None,
        })
        .collect();
    let held: Vec<Option<SceneFilter>> =
        scene.groups.iter().map(|group| group.filter.clone()).collect();
    assert_eq!(pushed, held);
    let expected: Vec<Option<SceneFilter>> =
        (0..6).map(|number| Some(SceneFilter::ColorMatrix([number; 20]))).collect();
    assert_eq!(pushed, expected);
}

#[test]
fn a_batch_is_as_long_as_it_can_be() {
    let mut scene = Scene::default();
    // Three apart, then a sprite over the last of them, then a quad over that.
    for x in [0., 20., 40.] {
        scene.insert_primitive(quad(at(x, 0., 10., 10.)));
    }
    scene.insert_primitive(sprite(40., 0, 0));
    scene.insert_primitive(sprite(60., 0, 1));
    scene.insert_primitive(sprite(80., 1, 2));
    scene.insert_primitive(quad(at(40., 0., 10., 10.)));
    scene.finish();
    let labels: Vec<String> = scene.batches().iter().map(|batch| batch.label()).collect();
    assert_eq!(
        labels,
        vec![
            "quads (3)",
            "polychrome sprites (1) on atlas 0",
            "polychrome sprites (1) on atlas 1",
            "polychrome sprites (1) on atlas 0",
            "quads (1)",
        ]
    );
}
