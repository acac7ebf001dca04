//! What a frame has the GPU do.

use scene_plan::atlas::{AtlasTextureId, AtlasTextureKind, AtlasTile, TileId};
use scene_plan::clip_path::{ClipPath, FillRule};
use scene_plan::color::Hsla;
use scene_plan::fixed::ONE;
use scene_plan::geometry::{
    point, size, Bounds, ContentMask, Corners, DevicePixels, Pixels, ScaledPixels, Size,
};
use scene_plan::renderer::brush::{brush_draws, path_sprites, rasterize_paths, BrushDraw};
use scene_plan::renderer::compose::{BlendFactor, GroupComposeMode};
use scene_plan::renderer::extent::{DeviceRect, Extent};
use scene_plan::renderer::filter_ops::{
    blur_reach, FilterOp, FilterPipeline, GroupFilter, MAX_GROUP_COLOR_MATRICES,
};
use scene_plan::renderer::frame::{FrameEnvironment, FrameError};
use scene_plan::renderer::notice::Notice;
use scene_plan::renderer::passes::{Clear, Command, FramePlan};
use scene_plan::renderer::pipelines::{
    PipelineKind, StencilCompare, StencilOperation, StencilRecipe,
};
use scene_plan::renderer::scratch::FilterScratch;
use scene_plan::renderer::targets::{GroupTargets, Texture, MAX_GROUP_DEPTH};
use scene_plan::scene::blend::{BlendMode, ComposeMode, MixMode};
use scene_plan::scene::filter::SceneFilter;
use scene_plan::scene::group::GroupSpec;
use scene_plan::scene::path::{BrushExtend, Path, PathBrush};
use scene_plan::scene::primitive::Quad;
use scene_plan::scene::recording::Scene;
use scene_plan::scene::report::report_groups_painted_without_isolation;
use scene_plan::scene::transform::TransformationMatrix;

/// A number as a count of the steps that lengths are measured in.
fn fx(value: f32) -> i64 {
    (value as f64 * ONE as f64) as i64
}

fn px(value: f32) -> Pixels {
    Pixels(fx(value))
}

fn spx(value: f32) -> ScaledPixels {
    ScaledPixels(fx(value))
}

fn viewport(width: i32, height: i32) -> Size<DevicePixels> {
    size(DevicePixels(width), DevicePixels(height))
}

fn environment() -> FrameEnvironment {
    FrameEnvironment {
        viewport: viewport(400, 300),
        drawable_is_readable: true,
        has_clip_textures: true,
        has_path_texture: true,
    }
}

fn quad_at(x: f32, y: f32, side: f32) -> Quad {
    let bounds = Bounds {
        origin: point(spx(x), spx(y)),
        size: size(spx(side), spx(side)),
    };
    Quad {
        bounds,
        content_mask: ContentMask::new(bounds),
        ..Default::default()
    }
}

fn path_at(x: f32) -> Path<ScaledPixels> {
    let bounds = Bounds {
        origin: point(px(x), px(0.)),
        size: size(px(10.), px(10.)),
    };
    let mut path = Path::new(bounds.origin);
    path.line_to(point(bounds.right(), bounds.origin.y));
    path.line_to(point(bounds.right(), bounds.bottom()));
    path.content_mask = ContentMask::new(bounds);
    path.scale(ONE)
}

fn brush(texture: u32) -> PathBrush {
    PathBrush {
        tile: AtlasTile {
            texture_id: AtlasTextureId {
                index: texture,
                kind: AtlasTextureKind::Polychrome,
            },
            tile_id: TileId(1),
            padding: 0,
            bounds: Bounds {
                origin: point(DevicePixels(0), DevicePixels(0)),
                size: size(DevicePixels(8), DevicePixels(8)),
            },
        },
        screen_to_brush: TransformationMatrix::unit(),
        x_extend: BrushExtend::Pad,
        y_extend: BrushExtend::Pad,
        opacity: ONE,
    }
}

fn multiplied() -> GroupSpec {
    GroupSpec {
        blend: BlendMode {
            mix: MixMode::Multiply,
            compose: ComposeMode::SrcOver,
        },
        ..Default::default()
    }
}

fn destination_in() -> GroupSpec {
    GroupSpec {
        blend: BlendMode {
            mix: MixMode::Normal,
            compose: ComposeMode::DestIn,
        },
        ..Default::default()
    }
}

fn blurred(radius: f32) -> GroupSpec {
    GroupSpec {
        filter: Some(SceneFilter::Blur {
            radius_x: fx(radius),
            radius_y: fx(radius),
        }),
        ..Default::default()
    }
}

/// A scene of one group that holds one quad.
fn grouped(spec: GroupSpec) -> Scene {
    let mut scene = Scene::default();
    scene.push_group(spec);
    scene.insert_primitive(quad_at(50., 50., 20.));
    scene.pop_group();
    scene.finish();
    scene
}

/// The commands of a frame, each as a word.
fn words(plan: &FramePlan) -> Vec<String> {
    plan.commands
        .iter()
        .map(|command| match command {
            Command::BeginPass { target, clear } => {
                let on = match target.texture {
                    Texture::Window => "window".to_string(),
                    Texture::Group(depth) => format!("group {depth}"),
                    Texture::Scratch(slot) => format!("scratch {slot}"),
                };
                let with = match clear {
                    Clear::Keep => "kept",
                    Clear::Transparent => "empty",
                    Clear::Window => "fresh",
                };
                format!("begin {on} {with}")
            }
            Command::EndPass => "end".into(),
            Command::Draw { batch, .. } => batch.label(),
            Command::RasterizePaths { paths, .. } => format!("rasterize {paths:?}"),
            Command::CopyPaths { paths } => format!("copy {paths:?}"),
            Command::Filter { pipeline, .. } => pipeline.fragment_function().into(),
            Command::CopyBackdrop { .. } => "backdrop".into(),
            Command::Composite { .. } => "composite".into(),
        })
        .collect()
}

#[test]
fn a_scene_without_groups_is_one_pass() {
    let mut scene = Scene::default();
    scene.insert_primitive(quad_at(0., 0., 10.));
    scene.insert_primitive(quad_at(50., 0., 10.));
    scene.finish();
    let mut plan = FramePlan::default();
    assert_eq!(plan.draw_scene(&scene, &environment()), Ok(()));
    assert_eq!(words(&plan), vec!["begin window fresh", "quads (2)", "end"]);
}

#[test]
fn a_frame_begins_with_no_command_of_the_last() {
    let mut plan = FramePlan::default();
    let scene = grouped(destination_in());
    for _ in 0..3 {
        assert_eq!(plan.draw_scene(&scene, &environment()), Ok(()));
        assert_eq!(
            words(&plan),
            vec![
                "begin window fresh",
                "end",
                "begin group 0 empty",
                "quads (1)",
                "end",
                "begin window kept",
                "composite",
                "end"
            ]
        );
        plan.end_frame();
    }
}

#[test]
fn what_a_group_holds_is_drawn_into_its_own_target() {
    let mut plan = FramePlan::default();
    assert_eq!(plan.draw_scene(&grouped(destination_in()), &environment()), Ok(()));
    let Command::Composite { compose, composite, source, backdrop, .. } = &plan.commands[6] else {
        panic!("expected a composite, got {:?}", plan.commands[6]);
    };
    assert_eq!(*compose, GroupComposeMode::DestIn);
    assert_eq!(*source, Texture::Group(0));
    assert_eq!(*backdrop, None);
    assert_eq!(composite.opacity, ONE);
    assert_eq!(composite.texture_size, viewport(256, 256));
    assert_eq!(
        composite.bounds,
        DeviceRect { x: 50, y: 50, width: 20, height: 20 }.bounds()
    );
    assert_eq!(plan.targets.reported, None);
}

#[test]
fn a_group_outside_the_window_is_not_drawn_at_all() {
    let mut scene = Scene::default();
    scene.push_group(destination_in());
    scene.insert_primitive(quad_at(5000., 50., 20.));
    scene.pop_group();
    scene.insert_primitive(quad_at(0., 0., 10.));
    scene.finish();
    let mut plan = FramePlan::default();
    assert_eq!(plan.draw_scene(&scene, &environment()), Ok(()));
    assert!(!words(&plan).contains(&"composite".to_string()));
}

#[test]
fn an_unknown_blend_is_composited_normally_and_said() {
    let mut plan = FramePlan::default();
    assert_eq!(plan.draw_scene(&grouped(multiplied()), &environment()), Ok(()));
    assert_eq!(plan.targets.reported, Some(Notice::UnknownMix(MixMode::Multiply)));
    let mut spec = GroupSpec::default();
    spec.blend.compose = ComposeMode::SrcOut;
    assert_eq!(plan.draw_scene(&grouped(spec), &environment()), Ok(()));
    assert_eq!(
        plan.targets.reported,
        Some(Notice::UnknownCompose(ComposeMode::SrcOut))
    );
}

#[test]
fn groups_nested_too_deep_are_painted_without_isolation() {
    let mut scene = Scene::default();
    for _ in 0..=MAX_GROUP_DEPTH {
        scene.push_group(destination_in());
    }
    scene.insert_primitive(quad_at(50., 50., 20.));
    for _ in 0..=MAX_GROUP_DEPTH {
        scene.pop_group();
    }
    scene.finish();
    let mut plan = FramePlan::default();
    assert_eq!(plan.draw_scene(&scene, &environment()), Ok(()));
    assert_eq!(plan.targets.reported, Some(Notice::TooDeep));
    let composites = words(&plan).iter().filter(|word| *word == "composite").count();
    assert_eq!(composites, MAX_GROUP_DEPTH);
    assert_eq!(words(&plan).iter().filter(|word| *word == "quads (1)").count(), 1);
}

#[test]
fn a_blur_runs_both_ways_and_gives_its_textures_back() {
    let mut plan = FramePlan::default();
    assert_eq!(plan.draw_scene(&grouped(blurred(4.)), &environment()), Ok(()));
    let blur = FilterPipeline::Blur.fragment_function().to_string();
    assert_eq!(words(&plan).iter().filter(|word| **word == blur).count(), 2);
    let directions: Vec<_> = plan
        .commands
        .iter()
        .filter_map(|command| match command {
            Command::Filter { pass, .. } => Some(pass.direction),
            _ => None,
        })
        .collect();
    assert_eq!(directions, vec![point(1, 0), point(0, 1)]);
    assert_eq!(plan.scratch.in_use, [false; 5]);
}

#[test]
fn a_backdrop_is_copied_and_filtered_before_the_group_is_laid_over_it() {
    let mut plan = FramePlan::default();
    let scene = grouped(GroupSpec {
        backdrop_filter: Some(SceneFilter::Blur { radius_x: fx(4.), radius_y: fx(4.) }),
        ..Default::default()
    });
    assert_eq!(plan.draw_scene(&scene, &environment()), Ok(()));
    let all = words(&plan);
    let copied = all.iter().position(|word| word == "backdrop").expect("a copy");
    let laid = all.iter().position(|word| word == "composite").expect("a composite");
    assert!(copied < laid);
    assert!(matches!(
        &plan.commands[laid],
        Command::Composite { backdrop: Some(_), .. }
    ));
    assert_eq!(plan.scratch.in_use, [false; 5]);

    let unreadable = FrameEnvironment {
        drawable_is_readable: false,
        ..environment()
    };
    assert_eq!(plan.draw_scene(&scene, &unreadable), Ok(()));
    assert_eq!(plan.targets.reported, Some(Notice::UnreadableDrawable));
    assert!(!words(&plan).contains(&"backdrop".to_string()));
}

#[test]
fn a_backdrop_under_another_operator_is_said_and_left() {
    let mut plan = FramePlan::default();
    let mut spec = destination_in();
    spec.backdrop_filter = Some(SceneFilter::Blur { radius_x: fx(4.), radius_y: fx(4.) });
    assert_eq!(plan.draw_scene(&grouped(spec), &environment()), Ok(()));
    assert_eq!(
        plan.targets.reported,
        Some(Notice::BackdropUnder(ComposeMode::DestIn))
    );
}

#[test]
fn paths_are_rasterized_between_two_passes() {
    let mut scene = Scene::default();
    scene.insert_primitive(quad_at(0., 100., 10.));
    scene.insert_primitive(path_at(0.));
    scene.finish();
    let mut plan = FramePlan::default();
    assert_eq!(plan.draw_scene(&scene, &environment()), Ok(()));
    assert_eq!(
        words(&plan),
        vec![
            "begin window fresh",
            "quads (1)",
            "end",
            "rasterize 0..1",
            "begin window kept",
            "copy 0..1",
            "end"
        ]
    );
    let bare = FrameEnvironment {
        has_path_texture: false,
        ..environment()
    };
    assert_eq!(
        plan.draw_scene(&scene, &bare),
        Err(FrameError::MissingPathTexture)
    );
}

#[test]
fn a_wide_blur_is_integrated_coarsely_and_said() {
    let mut plan = FramePlan::default();
    assert_eq!(plan.draw_scene(&grouped(blurred(80.)), &environment()), Ok(()));
    assert_eq!(
        plan.targets.reported,
        Some(Notice::CoarseBlur { sigma: fx(80.), tail: 240, stride: 3 })
    );
    assert_eq!(blur_reach(fx(80.)), 240);
    assert_eq!(blur_reach(fx(0.5)), 2);
}

#[test]
fn an_empty_source_keeps_the_destination() {
    assert_eq!(GroupComposeMode::of(ComposeMode::SrcOver), Some(GroupComposeMode::SrcOver));
    assert_eq!(GroupComposeMode::of(ComposeMode::SrcIn), None);
    assert_eq!(GroupComposeMode::of(ComposeMode::PlusLighter), Some(GroupComposeMode::Plus));
    assert_eq!(
        GroupComposeMode::SrcOver.blend_factors(),
        (BlendFactor::One, BlendFactor::OneMinusSourceAlpha)
    );
    assert_eq!(
        GroupComposeMode::DestIn.blend_factors(),
        (BlendFactor::Zero, BlendFactor::SourceAlpha)
    );
    assert_eq!(
        GroupComposeMode::SrcOver.composite_factors(true),
        (BlendFactor::One, BlendFactor::Zero)
    );
    assert_eq!(GroupComposeMode::Plus.to_code(), 6);
}

#[test]
fn a_chain_is_flattened_and_what_does_nothing_is_left_out() {
    let filter = SceneFilter::Chain(vec![
        SceneFilter::ColorMatrix([1; 20]),
        SceneFilter::Chain(vec![
            SceneFilter::ColorMatrix([2; 20]),
            SceneFilter::Blur { radius_x: 0, radius_y: 0 },
        ]),
        SceneFilter::Blur { radius_x: fx(1.), radius_y: fx(2.) },
        SceneFilter::DropShadow {
            offset_x: fx(3.),
            offset_y: 0,
            radius: fx(1.),
            color: Hsla { h: 0, s: 0, l: 0, a: ONE },
        },
    ]);
    let steps = FilterOp::flatten(&filter);
    let kinds: Vec<&str> = steps
        .iter()
        .map(|step| match step {
            FilterOp::Matrices(_) => "matrices",
            FilterOp::Blur { .. } => "blur",
            FilterOp::DropShadow { .. } => "shadow",
        })
        .collect();
    assert_eq!(kinds, vec!["matrices", "blur", "shadow"]);
    assert!(matches!(&steps[0], FilterOp::Matrices(both) if both.matrix_count == 2));
}

#[test]
fn no_filter_is_zero_throughout() {
    let none = GroupFilter::none();
    assert_eq!(none.matrix_count, 0);
    assert_eq!(none.matrices, [[0; 20]; 8]);
}

#[test]
fn a_run_of_matrices_holds_so_many_and_no_more() {
    let mut run = GroupFilter::none();
    for n in 0..MAX_GROUP_COLOR_MATRICES {
        assert!(run.push(&[n as i64; 20]));
    }
    assert!(!run.push(&[99; 20]));
    assert_eq!(run.matrix_count as usize, MAX_GROUP_COLOR_MATRICES);
    assert_eq!(run.matrices[3], [3; 20]);
}

#[test]
fn a_slot_is_one_image_at_a_time() {
    let mut scratch = FilterScratch::default();
    scratch.begin_frame();
    let rect = DeviceRect { x: 0, y: 0, width: 10, height: 10 };
    let images: Vec<_> = (0..5).map(|_| scratch.acquire(rect).expect("a slot")).collect();
    let slots: Vec<_> = images.iter().map(|image| image.slot.expect("its own")).collect();
    assert_eq!(slots, vec![0, 1, 2, 3, 4]);
    assert!(scratch.acquire(rect).is_none());
    scratch.release(&images[2]);
    assert_eq!(scratch.acquire(rect).and_then(|image| image.slot), Some(2));
}

#[test]
fn targets_keep_to_their_budget() {
    let mut targets = GroupTargets::default();
    targets.begin_frame();
    let window = DeviceRect { x: 0, y: 0, width: 2048, height: 2048 };
    // Four bytes a texel: sixteen mebibytes to a target.
    let budget: u64 = 40 * 1024 * 1024;
    let whole = Some(Extent { width: 2048, height: 2048 });
    assert_eq!(targets.acquire(0, window, budget, false), whole);
    assert_eq!(targets.acquire(1, window, budget, false), whole);
    assert_eq!(targets.acquire(2, window, budget, false), None);
    assert_eq!(
        targets.reported,
        Some(Notice::OverBudget {
            wanted: Extent { width: 2048, height: 2048 },
            budget,
            filters: false,
        })
    );
    // What is there already is used again.
    assert_eq!(targets.acquire(1, window, budget, false), whole);
    targets.end_frame();
}

#[test]
fn brushed_paths_are_cut_into_runs_of_one_texture() {
    let mut paths = vec![path_at(0.), path_at(20.), path_at(40.), path_at(60.)];
    paths[1].brush = Some(brush(3));
    paths[3].brush = Some(brush(5));
    let raster = rasterize_paths(&paths, 0, 4, false);
    assert_eq!(raster.vertices.len(), 12);
    assert_eq!(raster.vertices[4].path_id, 1);
    assert_eq!(raster.content_masks.len(), 4);
    assert!(raster.clip_ids.is_empty());
    assert_eq!(raster.brush_count, 4);
    assert_eq!(
        raster.brushes.iter().map(|record| record.enabled).collect::<Vec<_>>(),
        vec![0, 1, 0, 1]
    );
    // A path without a brush joins whichever run is open.
    let texture = |index: u32| AtlasTextureId {
        index,
        kind: AtlasTextureKind::Polychrome,
    };
    assert_eq!(raster.runs.len(), 2);
    assert_eq!(raster.runs[0].texture, Some(texture(3)));
    assert_eq!(raster.runs[0].vertices, 0..9);
    assert_eq!(raster.runs[1].texture, Some(texture(5)));
    assert_eq!(
        brush_draws(&raster.runs),
        vec![
            BrushDraw { bind: Some(Some(texture(3))), start: 0, count: 9 },
            BrushDraw { bind: Some(Some(texture(5))), start: 9, count: 3 },
        ]
    );

    let plain = rasterize_paths(&paths, 2, 3, true);
    assert_eq!(plain.clip_ids, vec![0]);
    assert_eq!(plain.brush_count, 0);
    assert_eq!(plain.brushes.len(), 1);
    assert_eq!(plain.runs[0].texture, None);
}

#[test]
fn paths_of_one_order_are_copied_one_by_one_and_others_as_one() {
    let mut paths = vec![path_at(0.), path_at(20.)];
    let sprites = path_sprites(&paths, 0, 2);
    assert_eq!(sprites.len(), 2);
    assert_eq!(sprites[1].bounds, paths[1].clipped_bounds());
    paths[1].order = 7;
    let sprites = path_sprites(&paths, 0, 2);
    assert_eq!(sprites.len(), 1);
    assert_eq!(
        sprites[0].bounds,
        Bounds {
            origin: point(spx(0.), spx(0.)),
            size: size(spx(30.), spx(10.)),
        }
    );
    assert!(path_sprites(&paths, 1, 1).is_empty());
}

#[test]
fn a_clipped_batch_is_drawn_with_the_clip_textures() {
    let mut scene = Scene::default();
    let path = ClipPath::rounded_rect(
        Bounds {
            origin: point(px(0.), px(0.)),
            size: size(px(50.), px(50.)),
        },
        Corners::default(),
    )
    .scale(ONE);
    let visible = path.bounds();
    scene.push_clip(path, visible);
    scene.insert_primitive(quad_at(0., 0., 10.));
    scene.pop_clip();
    scene.finish();
    let mut plan = FramePlan::default();
    assert_eq!(plan.draw_scene(&scene, &environment()), Ok(()));
    assert!(matches!(&plan.commands[1], Command::Draw { clipped: true, .. }));
}

#[test]
fn groups_painted_without_isolation_are_reported_once() {
    let mut reported = false;
    let plain = Scene::default();
    assert_eq!(report_groups_painted_without_isolation(&plain, &mut reported), None);
    assert!(!reported);
    let scene = grouped(multiplied());
    assert_eq!(report_groups_painted_without_isolation(&scene, &mut reported), Some(1));
    assert!(reported);
    assert_eq!(report_groups_painted_without_isolation(&scene, &mut reported), None);
}

#[test]
fn two_half_transparent_primitives_are_not_opaque() {
    let blend = PipelineKind::Quads.blend();
    assert_eq!(blend.source_color, BlendFactor::SourceAlpha);
    assert_eq!(blend.source_alpha, BlendFactor::One);
    assert_eq!(blend.destination_alpha, BlendFactor::OneMinusSourceAlpha);
    assert_eq!(PipelineKind::PathSprites.blend().source_color, BlendFactor::One);
    assert_eq!(PipelineKind::PathsRasterization.samples(), 4);
    assert_eq!(PipelineKind::Shadows.samples(), 1);
    assert_eq!(PipelineKind::BgraSurfaces.vertex_function(), "surface_vertex");
    assert_eq!(PipelineKind::BgraSurfaces.fragment_function(), "surface_bgra_fragment");
}

#[test]
fn the_stencil_counts_as_the_fill_rule_says() {
    assert_eq!(
        StencilRecipe::counting(FillRule::NonZero),
        StencilRecipe {
            compare: StencilCompare::Always,
            front: StencilOperation::IncrementWrap,
            back: StencilOperation::DecrementWrap,
            read_mask: 0,
            write_mask: u32::MAX,
        }
    );
    assert_eq!(
        StencilRecipe::covering(FillRule::EvenOdd),
        StencilRecipe {
            compare: StencilCompare::NotEqual,
            front: StencilOperation::Zero,
            back: StencilOperation::Zero,
            read_mask: 1,
            write_mask: 1,
        }
    );
}
