//! Where clip paths are rasterized, and how large their textures are.

use scene_plan::clip_path::{ClipPath, FillRule};
use scene_plan::fixed::ONE;
use scene_plan::geometry::{point, size, Bounds, DevicePixels, Pixels, ScaledPixels, Size};
use scene_plan::renderer::clip_masks::{MaskCommand, MaskError};
use scene_plan::renderer::clip_plan::{ClipPlan, MAX_CLIP_DEPTH};
use scene_plan::renderer::extent::{
    covering_rect, ClipTextureBudget, DeviceRect, Extent, CLIP_TEXTURE_SHRINK_FRAMES,
};
use scene_plan::renderer::flatten::flatten_clip_path;
use scene_plan::renderer::packing::{pack_clip_tiles, ClipShape};
use scene_plan::renderer::state::{ClipChange, ClipState};
use scene_plan::scene::recording::Scene;

/// A number as a count of the steps that lengths are measured in.
fn fx(value: f32) -> i64 {
    (value as f64 * ONE as f64) as i64
}

fn px(value: f32) -> Pixels {
    Pixels(fx(value))
}

fn spx(value: f32) -> ScaledPixels {
    ScaledPixels(fx(value))
}

fn viewport(width: i32, height: i32) -> Size<DevicePixels> {
    size(DevicePixels(width), DevicePixels(height))
}

fn device_bounds(x: f32, y: f32, width: f32, height: f32) -> Bounds<ScaledPixels> {
    Bounds {
        origin: point(spx(x), spx(y)),
        size: size(spx(width), spx(height)),
    }
}

/// A rectangular clip path, already in the device pixels a scene speaks.
fn box_path(x: f32, y: f32, width: f32, height: f32) -> ClipPath<ScaledPixels> {
    let at = |x: f32, y: f32| point(px(x), px(y));
    ClipPath::builder()
        .move_to(at(x, y))
        .line_to(at(x + width, y))
        .line_to(at(x + width, y + height))
        .line_to(at(x, y + height))
        .close()
        .build()
        .scale(fx(1.0))
}

/// Pushes `path` at the root, reachable over exactly its own bounds.
fn push_root_clip(scene: &mut Scene, path: ClipPath<ScaledPixels>) {
    let visible = path.bounds();
    scene.push_clip(path, visible);
    scene.pop_clip();
}

/// How much of a device point a clip lets through, for the two answers that
/// need no atlas: nothing outside the clip's tile, and everything inside the
/// tile of a clip that fell back to its rectangle. `None` where the answer is a
/// texel of the atlas.
fn coverage_without_the_atlas(plan: &ClipPlan, clip: usize, x: f32, y: f32) -> Option<f32> {
    let tile = plan.masks[clip + 1].tile;
    if fx(x) < tile.origin.x.0
        || fx(y) < tile.origin.y.0
        || fx(x) >= tile.origin.x.0 + tile.size.width.0
        || fx(y) >= tile.origin.y.0 + tile.size.height.0
    {
        return Some(0.);
    }
    (plan.masks[clip + 1].sampled == 0).then_some(1.)
}

#[test]
fn a_clip_path_that_encloses_no_area_lets_nothing_through() {
    // A lone `move_to` and a single line both flatten to no contour at all, and
    // a contour is what a mask is rasterized from. Their bounding boxes are not
    // empty, so a clip that answered "no mask, use the rectangle" here would
    // show everything inside the box instead of hiding it.
    for path in [
        ClipPath::builder()
            .move_to(point(px(10.), px(10.)))
            .line_to(point(px(100.), px(100.)))
            .build()
            .scale(fx(1.0)),
        ClipPath::builder()
            .move_to(point(px(10.), px(10.)))
            .build()
            .scale(fx(1.0)),
    ] {
        let mut scene = Scene::default();
        let visible = device_bounds(10., 10., 90., 90.);
        scene.push_clip(path, visible);
        scene.pop_clip();

        let plan = ClipPlan::new(&scene, viewport(200, 200), Extent::none());
        assert!(
            plan.clips[0].is_none(),
            "a path enclosing no area has nothing to rasterize"
        );
        for (x, y) in [(50., 50.), (10., 10.), (99., 99.)] {
            assert_eq!(
                coverage_without_the_atlas(&plan, 0, x, y),
                Some(0.),
                "({x}, {y}) is inside the bounding box of a path that encloses no area, so \
                 the clip has to hide it"
            );
        }
    }
}

#[test]
fn a_clip_path_past_the_depth_limit_keeps_its_rectangle() {
    // The control for the test above: the other way a clip ends up with no tile
    // is a fallback, and a fallback keeps everything inside its rectangle
    // rather than hiding it.
    let mut scene = Scene::default();
    for _ in 0..=MAX_CLIP_DEPTH {
        let path = box_path(10., 10., 100., 100.);
        let visible = path.bounds();
        scene.push_clip(path, visible);
    }
    let plan = ClipPlan::new(&scene, viewport(200, 200), Extent::none());

    let deepest = MAX_CLIP_DEPTH;
    assert!(
        plan.clips[deepest].is_none(),
        "the depth limit refuses a mask"
    );
    assert_eq!(plan.too_deep, 1);
    assert_eq!(
        coverage_without_the_atlas(&plan, deepest, 50., 50.),
        Some(1.),
        "a clip that fell back to its rectangle keeps what is inside it"
    );
    assert_eq!(
        coverage_without_the_atlas(&plan, deepest, 5., 5.),
        Some(0.),
        "a clip that fell back to its rectangle still enforces the rectangle"
    );
}

#[test]
fn a_tile_is_the_part_of_the_window_the_clip_can_reach() {
    // The shape is far larger than the container it was pushed inside, as a
    // rounded container in a scrolled list is.
    let mut scene = Scene::default();
    scene.push_clip(
        box_path(0., 0., 4000., 4000.),
        device_bounds(0., 0., 100., 100.),
    );
    scene.pop_clip();

    let plan = ClipPlan::new(&scene, viewport(4000, 4000), Extent::none());
    let tile = plan.masks[1].tile;
    assert_eq!(
        (tile.size.width, tile.size.height),
        (spx(100.), spx(100.)),
        "the tile is the content mask the clip was pushed under, not the whole shape"
    );
    assert_eq!(
        plan.minimum_atlas,
        Extent {
            width: 256,
            height: 256
        }
    );
    assert_eq!(
        plan.work,
        Extent {
            width: 256,
            height: 256
        }
    );
}

#[test]
fn a_tile_covers_every_device_pixel_a_fractional_shape_touches() {
    // A scale factor other than 2 puts a clip at fractional device coordinates -
    // at 1.5 a 51-logical-pixel edge lands on 76.5 - and a tile is whole pixels.
    let at = |x: f32, y: f32| point(px(x), px(y));
    let path = ClipPath::builder()
        .move_to(at(10., 20.))
        .line_to(at(51., 20.))
        .line_to(at(51., 61.))
        .close()
        .build()
        .scale(fx(1.5));
    let mut scene = Scene::default();
    let visible = path.bounds();
    scene.push_clip(path, visible);
    scene.pop_clip();

    let plan = ClipPlan::new(&scene, viewport(200, 200), Extent::none());
    let tile = plan.masks[1].tile;
    assert_eq!(
        (
            tile.origin.x,
            tile.origin.y,
            tile.size.width,
            tile.size.height
        ),
        (spx(15.), spx(30.), spx(62.), spx(62.)),
        "the tile has to cover 15..76.5 and 30..91.5 in whole device pixels"
    );
}

#[test]
fn a_clip_wider_than_the_packing_cap_still_gets_a_mask() {
    // A full-width element on a 5K display is 5120 device pixels across, which
    // no 4096-square atlas can hold.
    let mut scene = Scene::default();
    push_root_clip(&mut scene, box_path(0., 0., 5120., 400.));

    let plan = ClipPlan::new(&scene, viewport(5120, 2880), Extent::none());
    assert!(
        plan.clips[0].is_some(),
        "a 5120-wide clip has to be rasterized, not reduced to its rectangle"
    );
    assert!(
        plan.atlas.width >= 5120,
        "the atlas has to be wide enough for the tile, found {:?}",
        plan.atlas
    );
    assert_eq!(
        coverage_without_the_atlas(&plan, 0, 100., 100.),
        None,
        "inside the tile the coverage is a texel of the atlas, not a fallback"
    );
}

#[test]
fn tiles_are_packed_tallest_first() {
    // Twenty tiles alternating tall and short. A shelf holds two of them, and an
    // unsorted shelf is as tall as its tallest tile, so alternating wastes 240
    // of every 250 rows on half the shelves and needs twice the atlas its tile
    // area calls for.
    let mut scene = Scene::default();
    for index in 0..20 {
        let height = if index % 2 == 0 { 250. } else { 10. };
        push_root_clip(&mut scene, box_path(0., 0., 128., height));
    }

    let plan = ClipPlan::new(&scene, viewport(4096, 4096), Extent::none());
    let tiles = 10 * 128 * 250 + 10 * 128 * 10;
    let atlas = plan.minimum_atlas.width * plan.minimum_atlas.height;
    assert!(
        atlas <= 2 * tiles,
        "{tiles} device pixels of tile needed a {:?} atlas, which is more than twice their \
         area: the shelves are being wasted",
        plan.minimum_atlas
    );
}

#[test]
fn a_working_attachment_is_sized_to_its_level_not_to_the_atlas() {
    // The atlas is already large, from a frame that needed it.
    let mut scene = Scene::default();
    push_root_clip(&mut scene, box_path(0., 0., 40., 40.));

    let large = Extent {
        width: 4096,
        height: 4096,
    };
    let plan = ClipPlan::new(&scene, viewport(4096, 4096), large);
    assert_eq!(plan.atlas, large, "the atlas keeps the size it was given");
    assert_eq!(
        plan.work,
        Extent {
            width: 256,
            height: 256
        },
        "the pass renders only the level's own tiles"
    );
    assert_eq!(
        plan.minimum_atlas,
        Extent {
            width: 256,
            height: 256
        },
        "the budget is told how little would have been enough"
    );
}

#[test]
fn a_nested_clip_reads_its_parents_tile_where_the_parent_actually_is() {
    // `parent_offset` is what makes nesting intersect: the cover pass reads the
    // parent's coverage while writing the child's tile, and the two live at
    // unrelated places in the atlas.
    let mut scene = Scene::default();
    let outer = box_path(20., 30., 300., 200.);
    let outer_visible = outer.bounds();
    scene.push_clip(outer, outer_visible);
    let inner = box_path(40., 60., 60., 50.);
    let inner_visible = inner.bounds();
    scene.push_clip(inner, inner_visible);
    scene.pop_clip();
    scene.pop_clip();

    let plan = ClipPlan::new(&scene, viewport(400, 400), Extent::none());
    assert_eq!(plan.levels.len(), 2, "the two clips are two render passes");
    let parent = plan.clips[0].as_ref().expect("the outer clip wants a tile");
    let child = plan.clips[1].as_ref().expect("the inner clip wants a tile");
    assert_eq!(child.cover.has_parent, 1);

    // A device point inside the child's tile, carried into the working
    // attachment the child's level is drawn through, plus `parent_offset`, has
    // to land on that same device point inside the parent's atlas tile.
    for (x, y) in [(45., 65.), (95., 105.), (70., 80.)] {
        let child_tile = plan.masks[2].tile;
        let parent_tile = plan.masks[1].tile;
        let in_work = (
            fx(x) - child_tile.origin.x.0 + child.work.x as i64 * ONE,
            fx(y) - child_tile.origin.y.0 + child.work.y as i64 * ONE,
        );
        let in_parent_atlas = (
            fx(x) - parent_tile.origin.x.0 + parent.atlas.x as i64 * ONE,
            fx(y) - parent_tile.origin.y.0 + parent.atlas.y as i64 * ONE,
        );
        assert_eq!(
            (
                in_work.0 + child.cover.parent_offset.x as i64 * ONE,
                in_work.1 + child.cover.parent_offset.y as i64 * ONE
            ),
            in_parent_atlas,
            "the child's cover pass reads the wrong texel of its parent at ({x}, {y})"
        );
    }
}

#[test]
fn a_level_covers_only_its_own_tiles() {
    // Levels are packed into bands of their own, so the rectangle each pass
    // renders and resolves is tight around that level's tiles.
    let mut scene = Scene::default();
    for _ in 0..4 {
        let path = box_path(0., 0., 100., 100.);
        let visible = path.bounds();
        scene.push_clip(path, visible);
    }
    let plan = ClipPlan::new(&scene, viewport(400, 400), Extent::none());

    assert_eq!(plan.levels.len(), 4);
    for level in &plan.levels {
        assert_eq!(level.clips.len(), 1);
        assert_eq!(
            level.extent.extent(),
            Extent {
                width: 100,
                height: 100
            }
        );
    }
    assert_eq!(
        plan.work,
        Extent {
            width: 256,
            height: 256
        }
    );
}

#[test]
fn the_budget_grows_at_once_and_shrinks_only_after_a_run_of_small_frames() {
    let mut budget = ClipTextureBudget::default();
    let small = Extent {
        width: 256,
        height: 256,
    };
    let large = Extent {
        width: 4096,
        height: 2048,
    };

    assert_eq!(budget.floor(), Extent::none());
    budget.observe(large, large);
    assert_eq!(
        budget.floor(),
        large,
        "a frame that needed it all keeps it all"
    );

    for frame in 0..CLIP_TEXTURE_SHRINK_FRAMES {
        let floor = budget.floor();
        assert_eq!(floor, large, "frame {frame} gave the memory back too early");
        budget.observe(floor, small);
    }
    assert_eq!(
        budget.floor(),
        small,
        "a long enough run of small frames has to hand the textures back"
    );
}

#[test]
fn one_busy_frame_resets_the_shrink_countdown() {
    let mut budget = ClipTextureBudget::default();
    let small = Extent {
        width: 256,
        height: 256,
    };
    let large = Extent {
        width: 4096,
        height: 2048,
    };
    budget.observe(large, large);

    for _ in 0..CLIP_TEXTURE_SHRINK_FRAMES - 1 {
        let floor = budget.floor();
        budget.observe(floor, small);
    }
    let floor = budget.floor();
    budget.observe(floor, large);
    for _ in 0..CLIP_TEXTURE_SHRINK_FRAMES - 1 {
        let floor = budget.floor();
        assert_eq!(floor, large, "the countdown has to start again");
        budget.observe(floor, small);
    }
}

#[test]
fn parents_are_rasterized_before_the_clips_that_read_them() {
    let mut scene = Scene::default();
    let outer = box_path(20., 30., 300., 200.);
    let outer_visible = outer.bounds();
    scene.push_clip(outer, outer_visible);
    let inner = box_path(40., 60., 60., 50.);
    let inner_visible = inner.bounds();
    scene.push_clip(inner, inner_visible);
    let plan = ClipPlan::new(&scene, viewport(400, 400), Extent::none());

    let commands = plan.render_clip_masks(true).expect("the textures are there");
    let covered: Vec<usize> = commands
        .iter()
        .filter_map(|command| match command {
            MaskCommand::Cover { clip, .. } => Some(*clip),
            _ => None,
        })
        .collect();
    assert_eq!(covered, vec![0, 1]);
    assert_eq!(plan.render_clip_masks(false).unwrap_err(), MaskError::MissingClipTextures);
}

#[test]
fn a_tile_is_sampled_exactly_where_it_is_written_whole() {
    let mut scene = Scene::default();
    push_root_clip(&mut scene, box_path(20., 30., 300., 200.));
    push_root_clip(&mut scene, box_path(900., 900., 60., 50.));
    push_root_clip(&mut scene, box_path(40., 60., 60., 50.));
    let plan = ClipPlan::new(&scene, viewport(400, 400), Extent::none());

    let commands = plan.render_clip_masks(true).expect("the textures are there");
    let sampled: Vec<bool> = plan.masks[1..].iter().map(|mask| mask.sampled == 1).collect();
    assert_eq!(sampled, vec![true, false, true]);
    for (index, planned) in plan.clips.iter().enumerate() {
        assert_eq!(planned.is_some(), sampled[index]);
        let Some(planned) = planned else { continue };
        assert!(commands.contains(&MaskCommand::Cover {
            scissor: planned.work,
            even_odd: false,
            clip: index,
        }));
        assert!(commands.contains(&MaskCommand::CopyTile {
            from: planned.work,
            to: planned.atlas,
        }));
        assert_eq!(planned.work.width, planned.atlas.width);
        assert_eq!(planned.work.height, planned.atlas.height);
    }
}

#[test]
fn a_scene_without_clips_needs_no_masks_and_no_textures() {
    let scene = Scene::default();
    let plan = ClipPlan::new(&scene, viewport(400, 400), Extent::none());
    assert_eq!(plan.masks.len(), 1);
    assert_eq!(plan.render_clip_masks(false).expect("nothing to draw").len(), 0);
    assert!(plan.clips.is_empty() && plan.levels.is_empty());
}

#[test]
fn tiles_of_one_atlas_are_apart() {
    let mut scene = Scene::default();
    for index in 0..6 {
        push_root_clip(&mut scene, box_path(0., 0., 60. + 13. * index as f32, 70.));
    }
    let plan = ClipPlan::new(&scene, viewport(400, 400), Extent::none());
    assert!(plan.all_fit);
    let tiles: Vec<DeviceRect> = plan
        .clips
        .iter()
        .map(|clip| clip.as_ref().expect("a tile").atlas)
        .collect();
    for (i, a) in tiles.iter().enumerate() {
        assert!(a.x >= 0 && a.x + a.width <= plan.atlas.width);
        assert!(a.y >= 0 && a.y + a.height <= plan.atlas.height);
        for b in &tiles[i + 1..] {
            assert!(a.intersect(b).is_empty(), "{a:?} overlaps {b:?}");
        }
    }
}

#[test]
fn a_curve_is_flattened_to_where_it_ends() {
    let path = ClipPath::builder()
        .fill_rule(FillRule::EvenOdd)
        .move_to(point(px(0.), px(0.)))
        .quad_to(point(px(50.), px(100.)), point(px(100.), px(0.)))
        .close()
        .build()
        .scale(fx(1.0));
    let polygons = flatten_clip_path(&path);
    assert_eq!(polygons.len(), 1);
    assert!(polygons[0].len() > 4);
    assert_eq!(polygons[0][0], point(spx(0.), spx(0.)));
    assert!(polygons[0].contains(&point(spx(100.), spx(0.))));
    // The middle of the curve is half way to its control point.
    let highest = polygons[0].iter().map(|at| at.y.0).max().unwrap();
    assert!((highest - fx(50.)).abs() < fx(1.), "{highest}");
}

#[test]
fn rectangles_of_whole_pixels_meet_and_join() {
    let a = DeviceRect { x: 0, y: 0, width: 10, height: 10 };
    let b = DeviceRect { x: 5, y: 8, width: 10, height: 10 };
    assert_eq!(a.intersect(&b), DeviceRect { x: 5, y: 8, width: 5, height: 2 });
    assert_eq!(a.union(&b), DeviceRect { x: 0, y: 0, width: 15, height: 18 });
    assert_eq!(
        covering_rect(&device_bounds(0.5, -0.5, 1., 1.)),
        DeviceRect { x: 0, y: -1, width: 2, height: 2 }
    );
    assert_eq!(covering_rect(&a.bounds()), a);
    assert_eq!(Extent { width: 257, height: 1 }.quantized(), Extent { width: 512, height: 256 });
}

#[test]
fn clip_textures_are_made_when_they_are_first_needed() {
    let mut state = ClipState::default();
    let mut scene = Scene::default();
    let nothing = ClipChange { atlas: false, work: false };
    let (plan, change) = state.prepare_clip_masks(&scene, viewport(400, 400));
    assert_eq!(plan.masks.len(), 1);
    assert_eq!(change, nothing);
    assert_eq!(state.textures, None);

    push_root_clip(&mut scene, box_path(0., 0., 40., 40.));
    let (plan, change) = state.prepare_clip_masks(&scene, viewport(400, 400));
    assert!(plan.clips[0].is_some());
    assert_eq!(change, ClipChange { atlas: true, work: true });
    let (_, change) = state.prepare_clip_masks(&scene, viewport(400, 400));
    assert_eq!(change, nothing);

    // Two deep levels need a larger atlas and no larger level.
    let tall = box_path(0., 0., 40., 250.);
    let visible = tall.bounds();
    scene.push_clip(tall, visible);
    let inner = box_path(0., 0., 40., 200.);
    let visible = inner.bounds();
    scene.push_clip(inner, visible);
    let (_, change) = state.prepare_clip_masks(&scene, viewport(400, 400));
    assert_eq!(change, ClipChange { atlas: true, work: false });
}

#[test]
fn rounding_a_rounded_extent_again_changes_nothing() {
    let largest = i32::MAX - 255;
    for (side, rounded) in [(-7, 256), (0, 256), (256, 256), (257, 512), (largest, largest)] {
        let extent = Extent {
            width: side,
            height: 1,
        }
        .quantized();
        assert_eq!(extent.width, rounded);
        assert_eq!(extent.quantized(), extent);
    }
}

#[test]
fn textures_shrink_to_the_most_that_was_needed_on_either_side() {
    let mut budget = ClipTextureBudget::default();
    let large = Extent {
        width: 4096,
        height: 2048,
    };
    let wide = Extent {
        width: 1024,
        height: 256,
    };
    let tall = Extent {
        width: 256,
        height: 512,
    };
    budget.observe(large, large);
    for frame in 0..CLIP_TEXTURE_SHRINK_FRAMES {
        let floor = budget.floor();
        budget.observe(floor, if frame == 7 { wide } else { tall });
    }
    assert_eq!(
        budget.floor(),
        Extent {
            width: 1024,
            height: 512
        }
    );
}

fn shape(width: i32, height: i32, depth: usize) -> ClipShape {
    ClipShape {
        contours: Vec::new(),
        device: DeviceRect {
            x: 3,
            y: 5,
            width,
            height,
        },
        fill_rule: FillRule::NonZero,
        parent: None,
        depth,
        wants_mask: true,
    }
}

#[test]
fn any_list_of_clips_is_packed_and_depths_share_no_row() {
    let shapes = vec![
        shape(40, 10, 0),
        shape(40, 30, 1),
        shape(30, 20, 0),
        shape(50, 8, 2),
        shape(500, 8, 0),
    ];
    let atlas = Extent {
        width: 100,
        height: 100,
    };
    let (placements, all_fit) = pack_clip_tiles(&shapes, &vec![1, 0, 2], atlas);
    assert_eq!(placements, vec![Some((0, 30)), Some((0, 0)), Some((40, 30)), None, None]);
    assert!(all_fit);
    let (placements, all_fit) = pack_clip_tiles(&shapes, &vec![0, 1, 2, 4], atlas);
    assert_eq!(placements, vec![Some((0, 0)), Some((0, 10)), Some((0, 40)), None, None]);
    assert!(!all_fit, "a tile that is wider than the atlas is left out");
}
