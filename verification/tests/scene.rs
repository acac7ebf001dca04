//! What a scene records, how it is cut into runs and batches, and what its
//! groups do.

use scene_plan::atlas::{AtlasTextureId, AtlasTextureKind, AtlasTile, TileId};
use scene_plan::clip_path::ClipPath;
use scene_plan::color::Hsla;
use scene_plan::fixed::ONE;
use scene_plan::geometry::{
    point, size, Bounds, ContentMask, Corners, DevicePixels, Pixels, ScaledPixels, Size,
};
use scene_plan::scene::batch::PrimitiveBatch;
use scene_plan::scene::blend::{BlendMode, ComposeMode, MixMode};
use scene_plan::scene::filter::SceneFilter;
use scene_plan::scene::group::GroupSpec;
use scene_plan::scene::ids::ClipId;
use scene_plan::scene::path::Path;
use scene_plan::scene::primitive::{
    MonochromeSprite, PaintSurface, PolychromeSprite, Quad, Shadow, SubpixelSprite, Underline,
};
use scene_plan::scene::recording::{Scene, SceneStep};
use scene_plan::scene::transform::TransformationMatrix;
use std::ops::Range;

/// A number as a count of the steps that lengths are measured in.
fn fx(value: f32) -> i64 {
    (value as f64 * ONE as f64) as i64
}

fn px(value: f32) -> Pixels {
    Pixels(fx(value))
}

fn spx(value: f32) -> ScaledPixels {
    ScaledPixels(fx(value))
}

/// Pushes a clip reachable over exactly its own bounds.
fn push_clip_path(scene: &mut Scene, width: f32) -> ClipId {
    let path = clip_path(width);
    let visible = path.bounds();
    scene.push_clip(path, visible)
}

fn clip_path(width: f32) -> ClipPath<ScaledPixels> {
    ClipPath::rounded_rect(
        Bounds {
            origin: point(px(0.), px(0.)),
            size: size(px(width), px(100.)),
        },
        Corners {
            top_left: Size {
                width: px(20.),
                height: px(8.),
            },
            ..Default::default()
        },
    )
    .scale(fx(1.0))
}

/// A quad far enough from its neighbours that the bounds tree never has to
/// order two of them relative to one another.
fn quad_at(x: f32) -> Quad {
    let bounds = Bounds {
        origin: point(spx(x), spx(0.)),
        size: size(spx(10.), spx(10.)),
    };
    Quad {
        bounds,
        content_mask: ContentMask::new(bounds),
        ..Default::default()
    }
}

fn underline_at(x: f32) -> Underline {
    let bounds = Bounds {
        origin: point(spx(x), spx(0.)),
        size: size(spx(10.), spx(2.)),
    };
    Underline {
        order: 0,
        clip: ClipId::none(),
        bounds,
        content_mask: ContentMask::new(bounds),
        color: Hsla::default(),
        thickness: spx(1.),
        wavy: false.into(),
    }
}

/// A drop shadow whose gaussian tail reaches `3 * blur` beyond the rect its
/// falloff is measured from, under a content mask wide enough not to clip any
/// of it.
fn shadow_at(x: f32, blur: f32) -> Shadow {
    let bounds = Bounds {
        origin: point(spx(x), spx(0.)),
        size: size(spx(10.), spx(10.)),
    };
    Shadow {
        order: 0,
        clip: ClipId::none(),
        blur_radius: spx(blur),
        bounds,
        corner_radii: Corners::default(),
        content_mask: ContentMask::new(Bounds {
            origin: point(spx(-1000.), spx(-1000.)),
            size: size(spx(2000.), spx(2000.)),
        }),
        color: Hsla::default(),
        element_bounds: bounds,
        element_corner_radii: Corners::default(),
        inset: 0,
    }
}

fn path_at(x: f32) -> Path<ScaledPixels> {
    let bounds = Bounds {
        origin: point(px(x), px(0.)),
        size: size(px(10.), px(10.)),
    };
    let mut path = Path::new(bounds.origin);
    path.line_to(point(bounds.right(), bounds.origin.y));
    path.line_to(point(bounds.right(), bounds.bottom()));
    path.content_mask = ContentMask::new(bounds);
    path.scale(fx(1.0))
}

/// A shadow is drawn three blur radii wider than the rect its falloff is
/// measured from, and is ordered by that.
#[test]
fn a_blurred_shadow_is_ordered_by_its_tail_not_by_its_inner_rect() {
    let mut scene = Scene::default();
    scene.insert_primitive(quad_at(0.));
    // Inner rect 40..50, clear of the quad at 0..10; painted out to -5..95,
    // which is not.
    scene.insert_primitive(shadow_at(40., 15.));
    scene.finish();

    assert!(
        scene.shadows[0].order > scene.quads[0].order,
        "a shadow painted over a quad must be drawn after it: shadow order {}, quad order {}",
        scene.shadows[0].order,
        scene.quads[0].order,
    );
}

#[test]
fn a_shadow_whose_tail_reaches_nothing_is_still_ordered_beside_it() {
    let mut scene = Scene::default();
    scene.insert_primitive(quad_at(0.));
    scene.insert_primitive(shadow_at(40., 1.));
    scene.finish();

    assert_eq!(scene.shadows[0].order, scene.quads[0].order);
}

/// An inset shadow's geometry is the element it is painted inside, not the hole
/// its falloff is measured from.
#[test]
fn an_inset_shadow_is_not_culled_by_a_hole_outside_its_content_mask() {
    let element_bounds = Bounds {
        origin: point(spx(0.), spx(0.)),
        size: size(spx(10.), spx(10.)),
    };
    let mut shadow = shadow_at(500., 0.);
    shadow.inset = 1;
    shadow.element_bounds = element_bounds;
    shadow.content_mask = ContentMask::new(element_bounds);

    let mut scene = Scene::default();
    scene.insert_primitive(shadow);
    scene.finish();

    assert_eq!(scene.shadows.len(), 1);
}

/// Within one frame the path ids are `0..paths.len()`, each used once. They are
/// not sorted after `finish`.
#[test]
fn path_ids_are_a_permutation_after_finish_even_where_they_are_not_sorted() {
    let mut scene = Scene::default();
    // Two overlapping paths, so the second takes an order above the first, then
    // one clear of both, which takes the lower order and sorts ahead of it
    // carrying the id 2.
    scene.insert_primitive(path_at(0.));
    scene.insert_primitive(path_at(5.));
    scene.insert_primitive(path_at(100.));
    scene.finish();

    let ids: Vec<_> = scene.paths.iter().map(|path| path.id.0).collect();
    assert_eq!(ids, vec![0, 2, 1], "id 2 sorted ahead of id 1");

    let mut sorted = ids;
    sorted.sort();
    assert_eq!(sorted, vec![0, 1, 2], "the ids are a permutation of 0..3");
}

fn quad_batches(scene: &Scene) -> Vec<Range<usize>> {
    scene
        .batches()
        .into_iter()
        .map(|batch| match batch {
            PrimitiveBatch::Quads(range) => range,
            other => panic!("expected only quad batches, got {}", other.label()),
        })
        .collect()
}

fn labels(scene: &Scene) -> Vec<String> {
    scene.batches().iter().map(|batch| batch.label()).collect()
}

/// A scene without clips stamps every primitive with no clip at all, and is one
/// batch per kind.
#[test]
fn an_unclipped_scene_is_one_batch_per_kind_of_clipless_primitives() {
    let mut scene = Scene::default();
    for i in 0..4 {
        scene.insert_primitive(quad_at(i as f32 * 20.));
        scene.insert_primitive(underline_at(i as f32 * 20.));
    }
    scene.finish();

    assert!(scene.clips.is_empty());
    assert!(scene.quads.iter().all(|quad| quad.clip == ClipId::none()));
    assert!(scene
        .underlines
        .iter()
        .all(|underline| underline.clip == ClipId::none()));

    assert_eq!(labels(&scene), vec!["quads (4)", "underlines (4)"]);
}

#[test]
fn a_batch_breaks_between_clipped_and_unclipped() {
    let mut scene = Scene::default();
    scene.insert_primitive(quad_at(0.));
    push_clip_path(&mut scene, 30.);
    scene.insert_primitive(quad_at(20.));
    scene.insert_primitive(quad_at(40.));
    scene.pop_clip();
    scene.insert_primitive(quad_at(60.));
    scene.finish();

    assert_eq!(quad_batches(&scene), vec![0..1, 1..3, 3..4]);
    let clips: Vec<_> = scene.quads.iter().map(|quad| quad.clip).collect();
    assert_eq!(
        clips,
        vec![ClipId::none(), ClipId(1), ClipId(1), ClipId::none()]
    );
}

#[test]
fn a_batch_does_not_break_between_two_different_clips() {
    // The clip id rides in the primitive record, so a shader that samples one
    // mask atlas by id switches clips without a draw call.
    let mut scene = Scene::default();
    push_clip_path(&mut scene, 30.);
    scene.insert_primitive(quad_at(0.));
    scene.pop_clip();
    push_clip_path(&mut scene, 50.);
    scene.insert_primitive(quad_at(20.));
    scene.pop_clip();
    scene.finish();

    assert_eq!(
        scene.quads.iter().map(|quad| quad.clip).collect::<Vec<_>>(),
        vec![ClipId(1), ClipId(2)]
    );
    assert_eq!(quad_batches(&scene), vec![0..2]);
}

#[test]
fn clips_nest_and_unwind() {
    let mut scene = Scene::default();
    assert_eq!(scene.current_clip(), ClipId::none());

    let outer = push_clip_path(&mut scene, 30.);
    scene.insert_primitive(quad_at(0.));
    let inner = push_clip_path(&mut scene, 50.);
    scene.insert_primitive(quad_at(20.));
    scene.pop_clip();
    assert_eq!(scene.current_clip(), outer);
    scene.insert_primitive(quad_at(40.));
    scene.pop_clip();
    assert_eq!(scene.current_clip(), ClipId::none());
    scene.insert_primitive(quad_at(60.));
    scene.finish();

    assert_eq!(scene.clip(outer).unwrap().parent, ClipId::none());
    assert_eq!(scene.clip(inner).unwrap().parent, outer);
    assert!(scene.clip(ClipId::none()).is_none());
    assert_eq!(
        scene.quads.iter().map(|quad| quad.clip).collect::<Vec<_>>(),
        vec![outer, inner, outer, ClipId::none()]
    );
}

#[test]
fn clearing_a_scene_forgets_its_clips() {
    let mut scene = Scene::default();
    push_clip_path(&mut scene, 30.);
    scene.insert_primitive(quad_at(0.));
    scene.clear();

    assert!(scene.clips.is_empty());
    assert_eq!(scene.current_clip(), ClipId::none());
    scene.insert_primitive(quad_at(0.));
    assert_eq!(scene.quads[0].clip, ClipId::none());
}

#[test]
fn replay_re_registers_clips_and_renumbers_their_ids() {
    let mut prev = Scene::default();
    prev.insert_primitive(quad_at(0.));
    push_clip_path(&mut prev, 30.);
    prev.insert_primitive(quad_at(20.));
    prev.pop_clip();
    prev.insert_primitive(quad_at(40.));
    let replayed = 0..prev.len();
    prev.finish();
    assert_eq!(prev.quads[1].clip, ClipId(1));

    // The new scene registers a clip of its own first, so a replayed primitive
    // that kept the id it was given last frame would name the wrong shape.
    let mut next = Scene::default();
    push_clip_path(&mut next, 70.);
    next.insert_primitive(quad_at(60.));
    next.pop_clip();
    assert!(next.can_replay(&replayed, &prev));
    next.replay(replayed, &prev);
    next.finish();

    assert_eq!(next.clips.len(), 2);
    assert_eq!(next.clips[1].path, clip_path(30.));
    assert_eq!(next.clips[1].parent, ClipId::none());
    assert_eq!(
        next.quads.iter().map(|quad| quad.clip).collect::<Vec<_>>(),
        vec![ClipId(1), ClipId::none(), ClipId(2), ClipId::none()]
    );
    assert_eq!(next.current_clip(), ClipId::none());
}

#[test]
fn a_replayed_subtree_nests_inside_the_clip_it_is_replayed_under() {
    let mut prev = Scene::default();
    push_clip_path(&mut prev, 30.);
    prev.insert_primitive(quad_at(0.));
    prev.pop_clip();
    let replayed = 0..prev.len();
    prev.finish();

    let mut next = Scene::default();
    let outer = push_clip_path(&mut next, 70.);
    next.replay(replayed, &prev);
    assert_eq!(next.current_clip(), outer);
    next.pop_clip();
    next.finish();

    assert_eq!(next.clips.len(), 2);
    assert_eq!(next.clips[1].parent, outer);
    assert_eq!(next.quads[0].clip, ClipId(2));
}

/// A quad with something in it to fade: the default background and border are
/// transparent, and multiplying zero alpha by anything proves nothing.
fn filled_quad_at(x: f32) -> Quad {
    let mut quad = quad_at(x);
    quad.background = opaque().into();
    quad.border_color = opaque();
    quad
}

fn opaque() -> Hsla {
    Hsla {
        h: 0,
        s: fx(1.),
        l: fx(0.5),
        a: fx(1.),
    }
}

fn tile(id: u32, kind: AtlasTextureKind) -> AtlasTile {
    AtlasTile {
        texture_id: AtlasTextureId { index: 0, kind },
        tile_id: TileId(id),
        padding: 0,
        bounds: Bounds {
            origin: point(DevicePixels(0), DevicePixels(0)),
            size: size(DevicePixels(0), DevicePixels(0)),
        },
    }
}

fn monochrome_sprite_at(x: f32, y: f32, tile_id: u32) -> MonochromeSprite {
    let bounds = Bounds {
        origin: point(spx(x), spx(y)),
        size: size(spx(8.), spx(8.)),
    };
    MonochromeSprite {
        order: 0,
        clip: ClipId::none(),
        bounds,
        content_mask: ContentMask::new(bounds),
        color: opaque(),
        tile: tile(tile_id, AtlasTextureKind::Monochrome),
        transformation: TransformationMatrix::unit(),
    }
}

fn subpixel_sprite_at(x: f32) -> SubpixelSprite {
    let bounds = Bounds {
        origin: point(spx(x), spx(0.)),
        size: size(spx(8.), spx(8.)),
    };
    SubpixelSprite {
        order: 0,
        clip: ClipId::none(),
        bounds,
        content_mask: ContentMask::new(bounds),
        color: opaque(),
        tile: tile(0, AtlasTextureKind::Subpixel),
        transformation: TransformationMatrix::unit(),
    }
}

fn polychrome_sprite_at(x: f32, y: f32, tile_id: u32) -> PolychromeSprite {
    let bounds = Bounds {
        origin: point(spx(x), spx(y)),
        size: size(spx(8.), spx(8.)),
    };
    PolychromeSprite {
        order: 0,
        clip: ClipId::none(),
        grayscale: false.into(),
        opacity: fx(1.),
        bounds,
        content_mask: ContentMask::new(bounds),
        corner_radii: Corners::default(),
        tile: tile(tile_id, AtlasTextureKind::Polychrome),
    }
}

fn surface_at(x: f32) -> PaintSurface {
    let bounds = Bounds {
        origin: point(spx(x), spx(0.)),
        size: size(spx(8.), spx(8.)),
    };
    PaintSurface {
        order: 0,
        clip: ClipId::none(),
        bounds,
        content_mask: ContentMask::new(bounds),
        image_buffer: 0,
    }
}

/// A group that can never be folded away, whatever is painted inside it: a
/// blend mode cannot be expressed one primitive at a time.
fn isolated_group() -> GroupSpec {
    GroupSpec {
        blend: BlendMode {
            mix: MixMode::Multiply,
            compose: ComposeMode::SrcOver,
        },
        ..Default::default()
    }
}

/// A group that asks for nothing but a subtree-wide fade, which is what
/// [`Scene::pop_group`] folds away when the subtree does not overlap itself.
fn faded_group(opacity: f32) -> GroupSpec {
    GroupSpec {
        opacity: fx(opacity),
        ..Default::default()
    }
}

fn steps_summary(scene: &Scene) -> Vec<String> {
    scene
        .steps()
        .iter()
        .map(|step| match step {
            SceneStep::Run(run) => format!("run {}", run.len()),
            SceneStep::PushGroup(_) => "push".into(),
            SceneStep::PopGroup => "pop".into(),
        })
        .collect()
}

/// A deterministic generator, so that a failure is reproducible.
struct Lcg(u64);

impl Lcg {
    fn next(&mut self) -> u64 {
        self.0 = self
            .0
            .wrapping_mul(6364136223846793005)
            .wrapping_add(1442695040888963407);
        self.0 >> 33
    }

    fn upto(&mut self, bound: u64) -> f32 {
        (self.next() % bound) as f32
    }
}

fn key(order: u32, bounds: &Bounds<ScaledPixels>) -> (u32, i64, i64) {
    (order, bounds.origin.x.0, bounds.origin.y.0)
}

fn quad_keys(quads: &[Quad]) -> Vec<(u32, i64, i64)> {
    quads.iter().map(|quad| key(quad.order, &quad.bounds)).collect()
}

/// A scene with no groups in it is one run spanning everything, and every
/// per-kind array comes out as one stable sort of it would.
#[test]
fn a_scene_with_no_groups_sorts_exactly_as_one_global_sort_does() {
    let mut random = Lcg(0x5eed);
    let mut scene = Scene::default();
    for index in 0..400u64 {
        let x = random.upto(120);
        let y = random.upto(120);
        match index % 6 {
            0 => scene.insert_primitive(filled_quad_at(x)),
            1 => scene.insert_primitive(underline_at(x)),
            2 => scene.insert_primitive(shadow_at(x, random.upto(6))),
            3 => scene.insert_primitive(path_at(x)),
            4 => scene.insert_primitive(monochrome_sprite_at(x, y, (random.upto(4)) as u32)),
            _ => scene.insert_primitive(polychrome_sprite_at(x, y, (random.upto(4)) as u32)),
        }
    }

    let painted_quads = quad_keys(&scene.quads);
    let mut shadows = scene.shadows.clone();
    let mut quads = scene.quads.clone();
    let mut paths = scene.paths.clone();
    let mut underlines = scene.underlines.clone();
    let mut monochrome_sprites = scene.monochrome_sprites.clone();
    let mut polychrome_sprites = scene.polychrome_sprites.clone();
    shadows.sort_by_key(|shadow| shadow.order);
    quads.sort_by_key(|quad| quad.order);
    paths.sort_by_key(|path| path.order);
    underlines.sort_by_key(|underline| underline.order);
    monochrome_sprites.sort_by_key(|sprite| (sprite.order, sprite.tile.tile_id));
    polychrome_sprites.sort_by_key(|sprite| (sprite.order, sprite.tile.tile_id));

    scene.finish();

    assert_ne!(
        quad_keys(&quads),
        painted_quads,
        "the corpus has to be one the sort actually reorders, or this proves nothing"
    );
    assert_eq!(scene.segments.len(), 1, "one run spanning everything");
    assert_eq!(scene.steps().len(), 1, "and one step drawing it");
    assert!(scene.groups.is_empty());
    let shadow_keys = |shadows: &[Shadow]| -> Vec<_> {
        shadows.iter().map(|shadow| key(shadow.order, &shadow.bounds)).collect()
    };
    assert_eq!(shadow_keys(&scene.shadows), shadow_keys(&shadows));
    assert_eq!(quad_keys(&scene.quads), quad_keys(&quads));
    let path_keys = |paths: &[Path<ScaledPixels>]| -> Vec<_> {
        paths.iter().map(|path| key(path.order, &path.bounds)).collect()
    };
    assert_eq!(path_keys(&scene.paths), path_keys(&paths));
    let underline_keys = |underlines: &[Underline]| -> Vec<_> {
        underlines.iter().map(|line| key(line.order, &line.bounds)).collect()
    };
    assert_eq!(underline_keys(&scene.underlines), underline_keys(&underlines));
    let monochrome_keys = |sprites: &[MonochromeSprite]| -> Vec<_> {
        sprites.iter().map(|sprite| key(sprite.order, &sprite.bounds)).collect()
    };
    assert_eq!(
        monochrome_keys(&scene.monochrome_sprites),
        monochrome_keys(&monochrome_sprites)
    );
    let polychrome_keys = |sprites: &[PolychromeSprite]| -> Vec<_> {
        sprites.iter().map(|sprite| key(sprite.order, &sprite.bounds)).collect()
    };
    assert_eq!(
        polychrome_keys(&scene.polychrome_sprites),
        polychrome_keys(&polychrome_sprites)
    );
}

#[test]
fn a_group_free_scene_batches_exactly_as_it_did_before_groups() {
    let mut scene = Scene::default();
    for i in 0..4 {
        scene.insert_primitive(quad_at(i as f32 * 20.));
        scene.insert_primitive(underline_at(i as f32 * 20.));
    }
    scene.finish();

    assert_eq!(steps_summary(&scene), vec!["run 8"]);
    assert_eq!(labels(&scene), vec!["quads (4)", "underlines (4)"]);
}

#[test]
fn batches_break_at_a_group_boundary() {
    let mut scene = Scene::default();
    scene.insert_primitive(quad_at(0.));
    scene.push_group(isolated_group());
    scene.insert_primitive(quad_at(100.));
    scene.insert_primitive(quad_at(120.));
    scene.pop_group();
    scene.insert_primitive(quad_at(300.));
    scene.finish();

    // The same four quads without the group are one batch: nothing about them
    // breaks it but the boundary.
    let mut ungrouped = Scene::default();
    for x in [0., 100., 120., 300.] {
        ungrouped.insert_primitive(quad_at(x));
    }
    ungrouped.finish();
    assert_eq!(quad_batches(&ungrouped), vec![0..4]);

    assert_eq!(quad_batches(&scene), vec![0..1, 1..3, 3..4]);
    assert_eq!(
        steps_summary(&scene),
        vec!["run 1", "push", "run 2", "pop", "run 1"]
    );
}

/// The ranges a batch names index the whole per-kind array, not the run's slice
/// of it.
#[test]
fn a_batch_inside_a_group_addresses_the_whole_array() {
    let mut scene = Scene::default();
    scene.insert_primitive(underline_at(0.));
    scene.push_group(isolated_group());
    scene.insert_primitive(underline_at(100.));
    scene.pop_group();
    scene.finish();

    let batches: Vec<_> = scene
        .batches()
        .into_iter()
        .map(|batch| match batch {
            PrimitiveBatch::Underlines(range) => range,
            other => panic!("expected underlines, got {}", other.label()),
        })
        .collect();
    assert_eq!(batches, vec![0..1, 1..2]);
}

#[test]
fn groups_nest_and_unwind() {
    let mut scene = Scene::default();
    assert_eq!(scene.group_depth(), 0);
    scene.push_group(isolated_group());
    scene.insert_primitive(quad_at(0.));
    assert_eq!(scene.group_depth(), 1);
    scene.push_group(isolated_group());
    scene.insert_primitive(quad_at(100.));
    assert_eq!(scene.group_depth(), 2);
    scene.pop_group();
    scene.insert_primitive(quad_at(200.));
    assert_eq!(scene.group_depth(), 1);
    scene.pop_group();
    assert_eq!(scene.group_depth(), 0);
    scene.finish();

    assert_eq!(scene.groups.len(), 2);
    assert_eq!(
        steps_summary(&scene),
        vec!["push", "run 1", "push", "run 1", "pop", "run 1", "pop"]
    );
}

#[test]
fn clearing_a_scene_forgets_its_groups() {
    let mut scene = Scene::default();
    scene.push_group(isolated_group());
    scene.insert_primitive(quad_at(0.));
    scene.pop_group();
    scene.clear();

    assert!(scene.groups.is_empty());
    assert!(scene.segments.is_empty());
    assert_eq!(scene.steps().len(), 0);
    assert_eq!(scene.group_depth(), 0);

    scene.insert_primitive(quad_at(0.));
    scene.finish();
    assert_eq!(steps_summary(&scene), vec!["run 1"]);
}

/// A group is rebuilt by replaying it, not copied: the ids it takes are the
/// ones the new scene has left, and the runs it cuts are cut again against the
/// new scene's arrays.
#[test]
fn replay_rebuilds_a_group_with_its_ids_re_derived() {
    let mut prev = Scene::default();
    prev.insert_primitive(quad_at(0.));
    prev.push_group(isolated_group());
    prev.insert_primitive(quad_at(100.));
    prev.insert_primitive(quad_at(120.));
    prev.pop_group();
    prev.insert_primitive(quad_at(300.));
    let replayed = 0..prev.len();
    prev.finish();

    let mut next = Scene::default();
    next.replay(replayed.clone(), &prev);
    next.finish();

    assert_eq!(next.segments, prev.segments);
    assert_eq!(steps_summary(&next), steps_summary(&prev));
    assert_eq!(next.groups.len(), 1);
    assert_eq!(quad_batches(&next), quad_batches(&prev));

    // Replayed under a group the new scene registered first, the same
    // operations take the next id along rather than the one they carried.
    let mut shifted = Scene::default();
    shifted.push_group(isolated_group());
    shifted.insert_primitive(quad_at(500.));
    shifted.pop_group();
    assert_eq!(shifted.group_depth(), 0);
    shifted.replay(replayed, &prev);
    assert_eq!(shifted.group_depth(), 0);
    shifted.finish();

    assert_eq!(shifted.groups.len(), 2);
    assert_eq!(
        steps_summary(&shifted),
        vec!["push", "run 1", "pop", "run 1", "push", "run 2", "pop", "run 1"]
    );
    assert!(matches!(
        shifted.steps().get(4),
        Some(SceneStep::PushGroup(_))
    ));
}

#[test]
fn a_replayed_subtree_nests_inside_the_group_it_is_replayed_under() {
    let mut prev = Scene::default();
    prev.push_group(isolated_group());
    prev.insert_primitive(quad_at(0.));
    prev.pop_group();
    let replayed = 0..prev.len();
    prev.finish();

    let mut next = Scene::default();
    next.push_group(isolated_group());
    next.replay(replayed, &prev);
    assert_eq!(next.group_depth(), 1);
    next.pop_group();
    next.finish();

    assert_eq!(next.groups.len(), 2);
    assert_eq!(
        steps_summary(&next),
        vec!["push", "push", "run 1", "pop", "pop"]
    );
}

#[test]
fn replaying_half_a_group_is_refused() {
    let mut prev = Scene::default();
    prev.push_group(isolated_group());
    prev.insert_primitive(quad_at(0.));
    prev.pop_group();
    let half = 1..prev.len();
    let whole = 0..prev.len();
    let past = 0..prev.len() + 1;
    prev.finish();

    let next = Scene::default();
    assert!(!next.can_replay(&half, &prev));
    assert!(!next.can_replay(&past, &prev));
    assert!(next.can_replay(&whole, &prev));
}

/// A group asking only for a fade over a subtree that does not overlap itself
/// is taken back out, and the scene is the one it would have been without it.
#[test]
fn a_fade_over_content_that_does_not_overlap_is_folded_into_it() {
    let mut scene = Scene::default();
    scene.insert_primitive(filled_quad_at(0.));
    scene.push_group(faded_group(0.5));
    scene.insert_primitive(filled_quad_at(100.));
    scene.insert_primitive(filled_quad_at(200.));
    scene.pop_group();
    scene.insert_primitive(filled_quad_at(300.));
    scene.finish();

    assert!(scene.groups.is_empty(), "the group left nothing behind");
    assert_eq!(scene.segments.len(), 1, "and no boundary either");
    assert_eq!(steps_summary(&scene), vec!["run 4"]);
    assert_eq!(quad_batches(&scene), vec![0..4]);

    let alphas: Vec<_> = scene
        .quads
        .iter()
        .map(|quad| quad.background.solid.a)
        .collect();
    assert_eq!(alphas, vec![fx(1.), fx(0.5), fx(0.5), fx(1.)]);
    let borders: Vec<_> = scene.quads.iter().map(|quad| quad.border_color.a).collect();
    assert_eq!(borders, vec![fx(1.), fx(0.5), fx(0.5), fx(1.)]);
}

#[test]
fn a_fade_over_content_that_overlaps_itself_is_kept() {
    let mut scene = Scene::default();
    scene.push_group(faded_group(0.5));
    scene.insert_primitive(filled_quad_at(0.));
    scene.insert_primitive(filled_quad_at(5.));
    scene.pop_group();
    scene.finish();

    assert_eq!(
        scene.groups.len(),
        1,
        "two overlapping children need a target"
    );
    assert_eq!(steps_summary(&scene), vec!["push", "run 2", "pop"]);
    assert!(
        scene.quads.iter().all(|quad| quad.background.solid.a == fx(1.)),
        "and nothing was faded per primitive, which would have been wrong"
    );
}

#[test]
fn a_fade_over_one_primitive_is_folded_whatever_it_is() {
    let mut scene = Scene::default();
    scene.push_group(faded_group(0.25));
    scene.insert_primitive(monochrome_sprite_at(0., 0., 0));
    scene.pop_group();
    scene.finish();

    assert!(scene.groups.is_empty());
    assert_eq!(scene.monochrome_sprites[0].color.a, fx(0.25));
}

#[test]
fn a_fade_over_a_polychrome_sprite_multiplies_its_own_opacity() {
    let mut scene = Scene::default();
    let mut sprite = polychrome_sprite_at(0., 0., 0);
    sprite.opacity = fx(0.5);
    scene.push_group(faded_group(0.5));
    scene.insert_primitive(sprite);
    scene.pop_group();
    scene.finish();

    assert!(scene.groups.is_empty());
    assert_eq!(scene.polychrome_sprites[0].opacity, fx(0.25));
}

/// A surface has no alpha of its own to fold a group's opacity into.
#[test]
fn a_fade_over_a_surface_is_kept() {
    let mut scene = Scene::default();
    scene.push_group(faded_group(0.5));
    scene.insert_primitive(surface_at(0.));
    scene.pop_group();
    scene.finish();

    assert_eq!(scene.groups.len(), 1);
    assert_eq!(steps_summary(&scene), vec!["push", "run 1", "pop"]);
}

/// A subpixel-antialiased glyph blends per color channel, so its coverage is
/// not one alpha that could be scaled.
#[test]
fn a_fade_over_a_subpixel_sprite_is_kept() {
    let mut scene = Scene::default();
    scene.push_group(faded_group(0.5));
    scene.insert_primitive(subpixel_sprite_at(0.));
    scene.pop_group();
    scene.finish();

    assert_eq!(scene.groups.len(), 1);
    assert_eq!(scene.subpixel_sprites[0].color.a, fx(1.));
}

/// Two shadows whose spread boxes are well clear of each other can still paint
/// over one another out in the tails.
#[test]
fn two_shadows_whose_blur_tails_meet_are_not_folded() {
    let mut overlapping = Scene::default();
    overlapping.push_group(faded_group(0.5));
    // Spread boxes 0..10 and 40..50, painted out to -45..55 and -5..95.
    overlapping.insert_primitive(shadow_at(0., 15.));
    overlapping.insert_primitive(shadow_at(40., 15.));
    overlapping.pop_group();
    overlapping.finish();

    assert_eq!(overlapping.groups.len(), 1, "the tails overlap");
    assert!(overlapping
        .shadows
        .iter()
        .all(|shadow| shadow.color.a == 0));

    // The same two rectangles, blurred by a radius whose tail falls short.
    let mut disjoint = Scene::default();
    disjoint.push_group(faded_group(0.5));
    disjoint.insert_primitive(shadow_at(0., 1.));
    disjoint.insert_primitive(shadow_at(40., 1.));
    disjoint.pop_group();
    disjoint.finish();

    assert!(disjoint.groups.is_empty(), "the tails fall short");
}

/// Blending, a filter and a backdrop filter cannot be expressed one primitive
/// at a time however the primitives are laid out.
#[test]
fn a_group_that_asks_for_more_than_a_fade_is_never_folded() {
    for spec in [
        isolated_group(),
        GroupSpec {
            filter: Some(SceneFilter::Blur {
                radius_x: fx(2.),
                radius_y: fx(2.),
            }),
            ..Default::default()
        },
        GroupSpec {
            backdrop_filter: Some(SceneFilter::ColorMatrix([0; 20])),
            ..Default::default()
        },
    ] {
        let mut scene = Scene::default();
        scene.push_group(spec.clone());
        scene.insert_primitive(filled_quad_at(0.));
        scene.pop_group();
        scene.finish();
        assert_eq!(scene.groups.len(), 1, "{spec:?} needs a target of its own");
    }
}

/// A group holding one quad at `0..10 x 0..10`, filtered and masked as asked,
/// and the bounds its target came out at.
fn filtered_group_bounds(
    filter: Option<SceneFilter>,
    mask: Option<Bounds<ScaledPixels>>,
) -> Bounds<ScaledPixels> {
    let mut scene = Scene::default();
    scene.push_group(GroupSpec {
        // A blend mode so the group is never folded away: a folded group has no
        // bounds to look at.
        blend: BlendMode {
            mix: MixMode::Multiply,
            compose: ComposeMode::SrcOver,
        },
        filter,
        mask,
        ..Default::default()
    });
    scene.insert_primitive(filled_quad_at(0.));
    scene.pop_group();
    scene.finish();
    assert_eq!(scene.groups.len(), 1, "the group had to survive");
    scene.groups[0].bounds
}

fn scaled(x: f32, y: f32, width: f32, height: f32) -> Bounds<ScaledPixels> {
    Bounds {
        origin: point(spx(x), spx(y)),
        size: size(spx(width), spx(height)),
    }
}

/// A blurred group is bigger than the ink inside it.
#[test]
fn a_blurred_group_grows_by_the_gaussian_tail() {
    assert_eq!(
        filtered_group_bounds(
            Some(SceneFilter::Blur {
                radius_x: fx(4.),
                radius_y: fx(1.),
            }),
            None,
        ),
        scaled(-12., -3., 34., 16.),
        "three standard deviations on each axis"
    );
}

/// A drop shadow reaches out to its own tail around its offset, and the tail
/// goes round the un-offset silhouette too.
#[test]
fn a_drop_shadow_group_grows_by_the_offset_and_the_tail() {
    assert_eq!(
        filtered_group_bounds(
            Some(SceneFilter::DropShadow {
                offset_x: fx(6.),
                offset_y: fx(-2.),
                radius: fx(2.),
                color: Hsla::default(),
            }),
            None,
        ),
        // The quad and its offset copy cover 0..16 x -2..10 between them, and
        // three standard deviations is six.
        scaled(-6., -8., 28., 24.),
    );
}

/// Blurring is not licence to paint outside an ancestor's clip.
#[test]
fn a_blurred_group_may_not_grow_past_its_content_mask() {
    assert_eq!(
        filtered_group_bounds(
            Some(SceneFilter::Blur {
                radius_x: fx(4.),
                radius_y: fx(4.),
            }),
            Some(scaled(-5., -1000., 2000., 2000.)),
        ),
        scaled(-5., -12., 27., 34.),
        "the mask cuts the tail off on the left and nowhere else"
    );
}

/// The growth belongs to the filter.
#[test]
fn an_unfiltered_group_is_still_the_size_of_its_content() {
    assert_eq!(filtered_group_bounds(None, None), scaled(0., 0., 10., 10.));
    assert_eq!(
        filtered_group_bounds(Some(SceneFilter::ColorMatrix([0; 20])), None),
        scaled(0., 0., 10., 10.),
        "a colour matrix moves no pixel from where it was"
    );
}

/// A chain grows once per link, in order.
#[test]
fn a_chain_grows_through_every_filter_in_it() {
    assert_eq!(
        filtered_group_bounds(
            Some(SceneFilter::Chain(vec![
                SceneFilter::Blur {
                    radius_x: fx(1.),
                    radius_y: fx(1.),
                },
                SceneFilter::DropShadow {
                    offset_x: fx(10.),
                    offset_y: fx(0.),
                    radius: fx(1.),
                    color: Hsla::default(),
                },
            ])),
            None,
        ),
        // The blur takes 0..10 out to -3..13 both ways; that and its offset
        // copy cover -3..23 x -3..13, and the shadow's own three standard
        // deviations go round all of it.
        scaled(-6., -6., 32., 22.),
    );
}

/// An outer fade over an inner group that survived has to be applied to the
/// inner group's composited result.
#[test]
fn a_fade_around_a_group_that_survived_is_kept() {
    let mut scene = Scene::default();
    scene.push_group(faded_group(0.5));
    scene.push_group(isolated_group());
    scene.insert_primitive(filled_quad_at(0.));
    scene.pop_group();
    scene.pop_group();
    scene.finish();

    assert_eq!(scene.groups.len(), 2);
    assert_eq!(
        steps_summary(&scene),
        vec!["push", "push", "run 1", "pop", "pop"]
    );
}

/// An inner group that folded away leaves nothing behind, so the outer one is
/// judged on the primitives themselves and folds too.
#[test]
fn nested_fades_that_both_fold_multiply() {
    let mut scene = Scene::default();
    scene.push_group(faded_group(0.5));
    scene.push_group(faded_group(0.5));
    scene.insert_primitive(filled_quad_at(0.));
    scene.pop_group();
    scene.insert_primitive(filled_quad_at(100.));
    scene.pop_group();
    scene.finish();

    assert!(scene.groups.is_empty());
    assert_eq!(steps_summary(&scene), vec!["run 2"]);
    let alphas: Vec<_> = scene
        .quads
        .iter()
        .map(|quad| quad.background.solid.a)
        .collect();
    assert_eq!(alphas, vec![fx(0.25), fx(0.5)]);
}

fn layer_bounds() -> Bounds<ScaledPixels> {
    Bounds {
        origin: point(spx(0.), spx(0.)),
        size: size(spx(500.), spx(500.)),
    }
}

/// A group nested wholly inside a layer is fine, and so is a layer nested
/// wholly inside a group.
#[test]
fn a_group_may_nest_inside_a_layer_and_a_layer_inside_a_group() {
    let mut scene = Scene::default();
    scene.push_layer(layer_bounds());
    scene.push_group(isolated_group());
    scene.insert_primitive(quad_at(0.));
    assert!(scene.can_pop_group());
    scene.pop_group();
    scene.pop_layer();

    scene.push_group(isolated_group());
    scene.push_layer(layer_bounds());
    scene.insert_primitive(quad_at(100.));
    scene.pop_layer();
    assert!(scene.can_pop_group());
    scene.pop_group();
    scene.finish();

    assert_eq!(scene.groups.len(), 2);
    assert_eq!(
        steps_summary(&scene),
        vec!["push", "run 1", "pop", "push", "run 1", "pop"]
    );
}

#[test]
fn a_group_may_not_be_closed_inside_a_layer_it_was_opened_outside() {
    let mut scene = Scene::default();
    scene.push_group(isolated_group());
    scene.push_layer(layer_bounds());
    scene.insert_primitive(quad_at(0.));
    assert!(!scene.can_pop_group());
}

#[test]
fn a_layer_may_not_be_closed_inside_a_group_it_was_opened_outside() {
    let mut scene = Scene::default();
    scene.push_layer(layer_bounds());
    scene.push_group(isolated_group());
    scene.insert_primitive(quad_at(0.));
    scene.pop_layer();
    assert!(!scene.can_pop_group());
}

#[test]
fn there_is_no_group_to_close_in_a_scene_without_one() {
    assert!(!Scene::default().can_pop_group());
}

/// A number as a count of the finer steps that a matrix is measured in.
fn fine(value: f64) -> i64 {
    (value * 4294967296.0).round() as i64
}

/// A matrix that is undone by its inverse puts every image where it was asked
/// to be.
#[test]
fn inverting_a_transformation_undoes_it() {
    let transformation = TransformationMatrix::unit()
        .translate(point(spx(30.), spx(-12.)))
        .scale(size(fine(2.), fine(4.)))
        .rotate(fine(0.7f64.cos()), fine(0.7f64.sin()));
    let inverse = transformation.invert().expect("it is invertible");

    for original in [
        point(px(0.), px(0.)),
        point(px(17.), px(-3.)),
        point(px(-100.5), px(64.25)),
    ] {
        let round_tripped = inverse.apply(transformation.apply(original));
        assert!(
            (round_tripped.x.0 - original.x.0).abs() < fx(1e-3)
                && (round_tripped.y.0 - original.y.0).abs() < fx(1e-3),
            "{original:?} came back as {round_tripped:?}"
        );
    }
}

#[test]
fn a_transformation_that_collapses_the_plane_has_no_inverse() {
    assert_eq!(
        TransformationMatrix::unit().scale(size(fine(0.), fine(1.))).invert(),
        None
    );
}
