//! What it takes to rasterize a batch of paths, and to copy the result out.

use crate::atlas::{AtlasTextureId, AtlasTextureKind, AtlasTile, TileId};
use crate::color::Background;
use crate::geometry::{Bounds, ContentMask, DevicePixels, Point, Rect, ScaledPixels, Size};
use crate::scene::laws::{holds_box, is_framed, is_tame};
use crate::scene::path::{BrushExtend, Path, PathBrush, PathModel, PathVertex};
use crate::scene::recording::paths_view;
use crate::scene::transform::{MatrixModel, TransformationMatrix};
use core::ops::Range;
use vstd::prelude::*;

verus! {

/// One vertex of a batch of paths.
#[derive(Clone, Copy, Debug, PartialEq, Eq)]
pub struct PathRasterizationVertex {
    pub xy_position: Point<ScaledPixels>,
    pub st_position: Point<i64>,
    pub color: Background,
    /// The part of the path's box that its content mask lets through.
    pub bounds: Bounds<ScaledPixels>,
    /// Which path of the batch the vertex is of, and so which entry of each of
    /// the batch's other lists is about it.
    pub path_id: u32,
}

/// A vertex, as what it says.
pub struct VertexModel {
    pub xy_position: Point<ScaledPixels>,
    pub st_position: Point<i64>,
    pub color: Background,
    pub bounds: Rect,
    pub path_id: int,
}

impl View for PathRasterizationVertex {
    type V = VertexModel;

    open spec fn view(&self) -> VertexModel {
        VertexModel {
            xy_position: self.xy_position,
            st_position: self.st_position,
            color: self.color,
            bounds: self.bounds@,
            path_id: self.path_id as int,
        }
    }
}

pub open spec fn vertices_view(vertices: Seq<PathRasterizationVertex>) -> Seq<VertexModel> {
    vertices.map_values(|vertex: PathRasterizationVertex| vertex@)
}

/// The image brush of one path of a batch.
#[derive(Clone, Copy, Debug, PartialEq, Eq)]
pub struct PathBrushRecord {
    pub brush: PathBrush,
    /// `1` where `brush` means anything, else `0`.
    pub enabled: u32,
}

/// Whether a tile is the one that stands where there is no image.
pub open spec fn is_blank(brush: PathBrush) -> bool {
    &&& brush.tile.texture_id == (AtlasTextureId { index: 0, kind: AtlasTextureKind::Polychrome })
    &&& brush.tile.tile_id == TileId(0)
    &&& brush.tile.padding == 0
    &&& brush.tile.bounds == (Bounds {
        origin: Point { x: DevicePixels(0), y: DevicePixels(0) },
        size: Size { width: DevicePixels(0), height: DevicePixels(0) },
    })
    &&& brush.screen_to_brush@ == MatrixModel::unit()
    &&& brush.x_extend == BrushExtend::Pad
    &&& brush.y_extend == BrushExtend::Pad
    &&& brush.opacity == 0
}

impl PathBrushRecord {
    /// The entry of a path that has a brush.
    pub fn enabled(brush: PathBrush) -> (r: Self)
        ensures
            r == (PathBrushRecord { brush, enabled: 1 }),
    {
        PathBrushRecord { brush, enabled: 1 }
    }

    /// The entry of a path that has none.
    pub fn disabled() -> (r: Self)
        ensures
            r.enabled == 0,
            is_blank(r.brush),
    {
        PathBrushRecord {
            brush: PathBrush {
                tile: AtlasTile {
                    texture_id: AtlasTextureId { index: 0, kind: AtlasTextureKind::Polychrome },
                    tile_id: TileId(0),
                    padding: 0,
                    bounds: Bounds {
                        origin: Point { x: DevicePixels(0), y: DevicePixels(0) },
                        size: Size { width: DevicePixels(0), height: DevicePixels(0) },
                    },
                },
                screen_to_brush: TransformationMatrix::unit(),
                x_extend: BrushExtend::Pad,
                y_extend: BrushExtend::Pad,
                opacity: 0,
            },
            enabled: 0,
        }
    }

    /// Whether the record is that of a path with this brush, or with none.
    pub open spec fn records(self, brush: Option<PathBrush>) -> bool {
        match brush {
            Some(brush) => self == (PathBrushRecord { brush, enabled: 1 }),
            None => self.enabled == 0 && is_blank(self.brush),
        }
    }
}

/// A stretch of a batch's vertices that is drawn with one texture bound.
/// `texture` is `None` while no path of the run has asked for one.
#[derive(Debug, PartialEq, Eq)]
pub struct BrushRun {
    pub texture: Option<AtlasTextureId>,
    pub vertices: Range<u64>,
}

/// A run, as what it says.
pub struct BrushRunModel {
    pub texture: Option<AtlasTextureId>,
    pub start: int,
    pub end: int,
}

impl View for BrushRun {
    type V = BrushRunModel;

    open spec fn view(&self) -> BrushRunModel {
        BrushRunModel {
            texture: self.texture,
            start: self.vertices.start as int,
            end: self.vertices.end as int,
        }
    }
}

pub open spec fn runs_view(runs: Seq<BrushRun>) -> Seq<BrushRunModel> {
    runs.map_values(|run: BrushRun| run@)
}

impl BrushRunModel {
    pub open spec fn accepts(self, texture: Option<AtlasTextureId>) -> bool {
        texture is None || self.texture is None || self.texture == texture
    }

    /// The run, grown by a path that wants `texture` and ends at `end`.
    pub open spec fn grown(self, texture: Option<AtlasTextureId>, end: int) -> BrushRunModel {
        BrushRunModel {
            texture: if self.texture is Some {
                self.texture
            } else {
                texture
            },
            start: self.start,
            end,
        }
    }
}

impl BrushRun {
    /// Whether a path that wants `texture` can be drawn in this run: one that
    /// wants none always can, and one that wants a texture can as long as the
    /// run has not settled on another.
    pub fn accepts(&self, texture: Option<AtlasTextureId>) -> (r: bool)
        ensures
            r == self@.accepts(texture),
    {
        match (self.texture, texture) {
            (_, None) => true,
            (None, Some(_)) => true,
            (Some(bound), Some(wanted)) => bound == wanted,
        }
    }
}

/// The texture that a path's brush is in.
pub open spec fn texture_of(path: PathModel<ScaledPixels>) -> Option<AtlasTextureId> {
    match path.brush {
        None => None,
        Some(brush) => Some(brush.tile.texture_id),
    }
}

/// The `index`th path's vertices.
pub open spec fn vertices_of(path: PathModel<ScaledPixels>, index: int) -> Seq<VertexModel> {
    path.vertices.map_values(
        |vertex: PathVertex<ScaledPixels>|
            VertexModel {
                xy_position: vertex.xy_position,
                st_position: vertex.st_position,
                color: path.color,
                bounds: path.visible(),
                path_id: index,
            },
    )
}

/// The vertices of the first `n` paths.
pub open spec fn all_vertices(paths: Seq<PathModel<ScaledPixels>>, n: nat) -> Seq<VertexModel>
    decreases n,
{
    if n == 0 {
        Seq::empty()
    } else {
        all_vertices(paths, (n - 1) as nat) + vertices_of(paths[n - 1], n - 1)
    }
}

/// The runs that the first `n` paths are cut into.
pub open spec fn brush_runs(paths: Seq<PathModel<ScaledPixels>>, n: nat) -> Seq<BrushRunModel>
    decreases n,
{
    if n == 0 {
        Seq::empty()
    } else {
        let runs = brush_runs(paths, (n - 1) as nat);
        let texture = texture_of(paths[n - 1]);
        let start = all_vertices(paths, (n - 1) as nat).len() as int;
        let end = all_vertices(paths, n).len() as int;
        if runs.len() > 0 && runs.last().accepts(texture) {
            runs.drop_last().push(runs.last().grown(texture, end))
        } else {
            runs.push(BrushRunModel { texture, start, end })
        }
    }
}

/// Whether any path has a brush.
pub open spec fn any_brushed(paths: Seq<PathModel<ScaledPixels>>) -> bool {
    exists|i: int| 0 <= i < paths.len() && (#[trigger] paths[i]).brush is Some
}

/// What it takes to rasterize a batch of paths.
#[derive(Debug)]
pub struct PathRaster {
    pub vertices: Vec<PathRasterizationVertex>,
    pub content_masks: Vec<ContentMask<ScaledPixels>>,
    /// One for each path of a clipped batch, else none.
    pub clip_ids: Vec<u32>,
    /// One for each path of a batch that has a brush in it, else a single
    /// disabled one: a shader that declares the list needs one to be bound.
    pub brushes: Vec<PathBrushRecord>,
    /// How many of `brushes` a path may look at.
    pub brush_count: u32,
    pub runs: Vec<BrushRun>,
}

impl PathRaster {
    /// Whether this is what it takes to rasterize `paths`.
    pub open spec fn rasterizes(
        self,
        paths: Seq<PathModel<ScaledPixels>>,
        clipped: bool,
    ) -> bool {
        &&& vertices_view(self.vertices@) == all_vertices(paths, paths.len())
        &&& self.content_masks@ == paths.map_values(
            |path: PathModel<ScaledPixels>| path.content_mask,
        )
        &&& self.clip_ids@ == if clipped {
            paths.map_values(|path: PathModel<ScaledPixels>| path.clip.0)
        } else {
            Seq::empty()
        }
        &&& self.brush_count == if any_brushed(paths) {
            paths.len()
        } else {
            0
        }
        &&& self.brushes@.len() == if any_brushed(paths) {
            paths.len()
        } else {
            1
        }
        &&& any_brushed(paths) ==> forall|i: int|
            0 <= i < paths.len() ==> (#[trigger] self.brushes@[i]).records(paths[i].brush)
        &&& !any_brushed(paths) ==> self.brushes@[0].records(None)
        &&& runs_view(self.runs@) == brush_runs(paths, paths.len())
    }
}

fn push_vertices(
    vertices: &mut Vec<PathRasterizationVertex>,
    path: &Path<ScaledPixels>,
    path_id: u32,
)
    ensures
        vertices_view(final(vertices)@) == vertices_view(old(vertices)@) + vertices_of(
            path@,
            path_id as int,
        ),
{
    let bounds = path.clipped_bounds();
    let ghost before = vertices_view(vertices@);
    let ghost added = vertices_of(path@, path_id as int);
    let mut index: usize = 0;
    assert(before + added.take(0) =~= before);
    while index < path.vertices.len()
        invariant
            index <= path.vertices@.len(),
            bounds@ == path@.visible(),
            added == vertices_of(path@, path_id as int),
            vertices_view(vertices@) == before + added.take(index as int),
        decreases path.vertices@.len() - index,
    {
        let ghost now = vertices_view(vertices@);
        let vertex = path.vertices[index];
        let record = PathRasterizationVertex {
            xy_position: vertex.xy_position,
            st_position: vertex.st_position,
            color: path.color,
            bounds,
            path_id,
        };
        vertices.push(record);
        assert(vertices_view(vertices@) =~= now.push(record@));
        assert(record@ == added[index as int]);
        index += 1;
        assert(vertices_view(vertices@) =~= before + added.take(index as int));
    }
    assert(added.take(index as int) =~= added);
}

fn add_run(runs: &mut Vec<BrushRun>, texture: Option<AtlasTextureId>, start: u64, end: u64)
    ensures
        runs_view(final(runs)@) == ({
            let before = runs_view(old(runs)@);
            if before.len() > 0 && before.last().accepts(texture) {
                before.drop_last().push(before.last().grown(texture, end as int))
            } else {
                before.push(BrushRunModel { texture, start: start as int, end: end as int })
            }
        }),
{
    let ghost before = runs_view(runs@);
    if runs.len() > 0 {
        let at: usize = runs.len() - 1;
        assert(before.last() == runs@[at as int]@);
        if runs[at].accepts(texture) {
            let settled = match runs[at].texture {
                Some(bound) => Some(bound),
                None => texture,
            };
            let from: u64 = runs[at].vertices.start;
            runs.set(at, BrushRun { texture: settled, vertices: from..end });
            assert(runs_view(runs@) =~= before.drop_last().push(
                before.last().grown(texture, end as int),
            ));
            return;
        }
    }
    runs.push(BrushRun { texture, vertices: start..end });
    assert(runs_view(runs@) =~= before.push(
        BrushRunModel { texture, start: start as int, end: end as int },
    ));
}

fn is_brushed(paths: &Vec<Path<ScaledPixels>>, start: usize, end: usize) -> (r: bool)
    requires
        start <= end <= paths@.len(),
    ensures
        r == any_brushed(paths_view(paths@).subrange(start as int, end as int)),
{
    let ghost batch = paths_view(paths@).subrange(start as int, end as int);
    let mut index: usize = start;
    while index < end
        invariant
            start <= index <= end <= paths@.len(),
            batch == paths_view(paths@).subrange(start as int, end as int),
            forall|i: int| 0 <= i < index - start ==> (#[trigger] batch[i]).brush is None,
        decreases end - index,
    {
        assert(batch[index - start] == paths@[index as int]@);
        if paths[index].brush.is_some() {
            return true;
        }
        index += 1;
    }
    false
}

/// What it takes to rasterize the paths `start..end`.
///
/// One texture can be bound at a time, so the batch is cut into runs of
/// consecutive paths that agree on which. The runs keep the order of the paths:
/// gathering the paths that share a texture would reorder paths that overlap.
pub fn rasterize_paths(
    paths: &Vec<Path<ScaledPixels>>,
    start: usize,
    end: usize,
    clipped: bool,
) -> (r: PathRaster)
    requires
        start <= end <= paths@.len(),
        end - start <= u32::MAX,
    ensures
        r.rasterizes(paths_view(paths@).subrange(start as int, end as int), clipped),
{
    let ghost batch = paths_view(paths@).subrange(start as int, end as int);
    let ghost masks = |path: PathModel<ScaledPixels>| path.content_mask;
    let ghost clips = |path: PathModel<ScaledPixels>| path.clip.0;
    let brushed = is_brushed(paths, start, end);
    let mut vertices: Vec<PathRasterizationVertex> = Vec::new();
    let mut content_masks: Vec<ContentMask<ScaledPixels>> = Vec::new();
    let mut clip_ids: Vec<u32> = Vec::new();
    let mut brushes: Vec<PathBrushRecord> = Vec::new();
    let mut runs: Vec<BrushRun> = Vec::new();
    let mut index: usize = start;
    assert(vertices_view(vertices@) =~= Seq::<VertexModel>::empty());
    assert(runs_view(runs@) =~= Seq::<BrushRunModel>::empty());
    assert(batch.take(0).map_values(masks) =~= Seq::<ContentMask<ScaledPixels>>::empty());
    assert(batch.take(0).map_values(clips) =~= Seq::<u32>::empty());
    while index < end
        invariant
            start <= index <= end <= paths@.len(),
            end - start <= u32::MAX,
            batch == paths_view(paths@).subrange(start as int, end as int),
            brushed == any_brushed(batch),
            masks == (|path: PathModel<ScaledPixels>| path.content_mask),
            clips == (|path: PathModel<ScaledPixels>| path.clip.0),
            vertices_view(vertices@) == all_vertices(batch, (index - start) as nat),
            content_masks@ == batch.take(index - start).map_values(masks),
            clip_ids@ == if clipped {
                batch.take(index - start).map_values(clips)
            } else {
                Seq::empty()
            },
            brushes@.len() == if brushed {
                index - start
            } else {
                0
            },
            forall|i: int| 0 <= i < brushes@.len() ==> (#[trigger] brushes@[i]).records(
                batch[i].brush,
            ),
            runs_view(runs@) == brush_runs(batch, (index - start) as nat),
        decreases end - index,
    {
        let ghost n = index - start;
        let path = &paths[index];
        assert(batch[n] == path@);
        content_masks.push(path.content_mask);
        assert(content_masks@ =~= batch.take(n + 1).map_values(masks));
        if clipped {
            clip_ids.push(path.clip.0);
            assert(clip_ids@ =~= batch.take(n + 1).map_values(clips));
        }
        if brushed {
            brushes.push(
                match path.brush {
                    Some(brush) => PathBrushRecord::enabled(brush),
                    None => PathBrushRecord::disabled(),
                },
            );
        }
        let first: u64 = vertices.len() as u64;
        push_vertices(&mut vertices, path, (index - start) as u32);
        let texture = match path.brush {
            Some(brush) => Some(brush.tile.texture_id),
            None => None,
        };
        add_run(&mut runs, texture, first, vertices.len() as u64);
        index += 1;
    }
    assert(batch.take(index - start) =~= batch);
    let brush_count: u32 = brushes.len() as u32;
    if brushes.len() == 0 {
        brushes.push(PathBrushRecord::disabled());
        assert(any_brushed(batch) ==> batch.len() > 0);
    }
    PathRaster { vertices, content_masks, clip_ids, brushes, brush_count, runs }
}

/// One draw of a batch's vertices: the texture to bind first, where it differs
/// from the one bound before, and the vertices.
#[derive(Clone, Copy, Debug, PartialEq, Eq)]
pub struct BrushDraw {
    /// The texture to bind: `Some(None)` for the one that stands where there is
    /// no image.
    pub bind: Option<Option<AtlasTextureId>>,
    pub start: u64,
    pub count: u64,
}

/// The texture that is bound once the first `n` runs are drawn.
pub open spec fn bound_after(runs: Seq<BrushRunModel>, n: nat) -> Option<Option<AtlasTextureId>>
    decreases n,
{
    if n == 0 {
        None
    } else if runs[n - 1].start >= runs[n - 1].end {
        bound_after(runs, (n - 1) as nat)
    } else {
        Some(runs[n - 1].texture)
    }
}

/// The draws of the first `n` runs.
pub open spec fn draws_of_runs(runs: Seq<BrushRunModel>, n: nat) -> Seq<BrushDraw>
    decreases n,
{
    if n == 0 {
        Seq::empty()
    } else {
        let before = draws_of_runs(runs, (n - 1) as nat);
        let run = runs[n - 1];
        if run.start >= run.end {
            before
        } else {
            before.push(
                BrushDraw {
                    bind: if bound_after(runs, (n - 1) as nat) == Some(run.texture) {
                        None
                    } else {
                        Some(run.texture)
                    },
                    start: run.start as u64,
                    count: (run.end - run.start) as u64,
                },
            )
        }
    }
}

fn same_texture(a: Option<AtlasTextureId>, b: Option<AtlasTextureId>) -> (r: bool)
    ensures
        r == (a == b),
{
    match (a, b) {
        (None, None) => true,
        (Some(a), Some(b)) => a == b,
        _ => false,
    }
}

/// The draws of a batch's runs. A run without vertices draws nothing, and a
/// texture that is bound already is not bound again.
pub fn brush_draws(runs: &Vec<BrushRun>) -> (r: Vec<BrushDraw>)
    ensures
        r@ == draws_of_runs(runs_view(runs@), runs@.len()),
{
    let ghost models = runs_view(runs@);
    let mut draws: Vec<BrushDraw> = Vec::new();
    let mut bound: Option<Option<AtlasTextureId>> = None;
    let mut index: usize = 0;
    while index < runs.len()
        invariant
            index <= runs@.len(),
            models == runs_view(runs@),
            bound == bound_after(models, index as nat),
            draws@ == draws_of_runs(models, index as nat),
        decreases runs@.len() - index,
    {
        assert(models[index as int] == runs@[index as int]@);
        let texture = runs[index].texture;
        let start: u64 = runs[index].vertices.start;
        let end: u64 = runs[index].vertices.end;
        if start < end {
            let kept = match bound {
                None => false,
                Some(bound) => same_texture(bound, texture),
            };
            draws.push(
                BrushDraw {
                    bind: if kept { None } else { Some(texture) },
                    start,
                    count: end - start,
                },
            );
            bound = Some(texture);
        }
        index += 1;
    }
    draws
}

/// A stretch of the window that is copied out of the intermediate texture.
#[derive(Clone, Copy, Debug, PartialEq, Eq)]
pub struct PathSprite {
    pub bounds: Bounds<ScaledPixels>,
}

/// The smallest box that holds what can be seen of the first `n` paths.
pub open spec fn spanned(paths: Seq<PathModel<ScaledPixels>>, n: nat) -> Rect
    decreases n,
{
    if n <= 1 {
        paths[0].visible()
    } else {
        spanned(paths, (n - 1) as nat).union(paths[n - 1].visible())
    }
}

/// What is copied out of the intermediate texture for a batch of paths.
pub open spec fn sprite_boxes(paths: Seq<PathModel<ScaledPixels>>) -> Seq<Rect> {
    if paths.len() == 0 {
        Seq::empty()
    } else if paths.last().order == paths[0].order {
        paths.map_values(|path: PathModel<ScaledPixels>| path.visible())
    } else {
        seq![spanned(paths, paths.len())]
    }
}

pub open spec fn sprites_view(sprites: Seq<PathSprite>) -> Seq<Rect> {
    sprites.map_values(|sprite: PathSprite| sprite.bounds@)
}

/// What is copied out of the intermediate texture for the paths `start..end`.
///
/// Each pixel may be copied only once, since a path may be transparent. Paths
/// of one draw order are copied one by one. A batch that combines several is
/// copied as the one box that holds them all.
pub fn path_sprites(paths: &Vec<Path<ScaledPixels>>, start: usize, end: usize) -> (r: Vec<
    PathSprite,
>)
    requires
        start <= end <= paths@.len(),
    ensures
        sprites_view(r@) == sprite_boxes(paths_view(paths@).subrange(start as int, end as int)),
{
    let ghost batch = paths_view(paths@).subrange(start as int, end as int);
    let mut sprites: Vec<PathSprite> = Vec::new();
    if start == end {
        assert(sprites_view(sprites@) =~= sprite_boxes(batch));
        return sprites;
    }
    assert(batch[0] == paths@[start as int]@);
    assert(batch.last() == paths@[end - 1]@);
    let mut index: usize = start + 1;
    if paths[end - 1].order == paths[start].order {
        let ghost visible = |path: PathModel<ScaledPixels>| path.visible();
        index = start;
        assert(sprites_view(sprites@) =~= batch.take(0).map_values(visible));
        while index < end
            invariant
                start <= index <= end <= paths@.len(),
                batch == paths_view(paths@).subrange(start as int, end as int),
                visible == (|path: PathModel<ScaledPixels>| path.visible()),
                sprites_view(sprites@) == batch.take(index - start).map_values(visible),
            decreases end - index,
        {
            let ghost before = sprites_view(sprites@);
            assert(batch[index - start] == paths@[index as int]@);
            let sprite = PathSprite { bounds: paths[index].clipped_bounds() };
            sprites.push(sprite);
            assert(sprites_view(sprites@) =~= before.push(sprite.bounds@));
            index += 1;
            assert(sprites_view(sprites@) =~= batch.take(index - start).map_values(visible));
        }
        assert(batch.take(index - start) =~= batch);
        return sprites;
    }
    let mut bounds = paths[start].clipped_bounds();
    while index < end
        invariant
            start < index <= end <= paths@.len(),
            batch == paths_view(paths@).subrange(start as int, end as int),
            bounds@ == spanned(batch, (index - start) as nat),
        decreases end - index,
    {
        assert(batch[index - start] == paths@[index as int]@);
        bounds = bounds.union(&paths[index].clipped_bounds());
        index += 1;
    }
    sprites.push(PathSprite { bounds });
    assert(sprites_view(sprites@) =~= sprite_boxes(batch));
    sprites
}

/// Whether the runs follow one another through the vertices, from the first to
/// `end`.
pub open spec fn runs_follow(runs: Seq<BrushRunModel>, end: int) -> bool {
    &&& runs.len() > 0 ==> runs[0].start == 0 && runs.last().end == end
    &&& runs.len() == 0 ==> end == 0
    &&& forall|i: int|
        0 <= i < runs.len() ==> (#[trigger] runs[i]).start <= runs[i].end
    &&& forall|i: int, j: int|
        0 <= i && j == i + 1 && j < runs.len() ==> (#[trigger] runs[i]).end == (
        #[trigger] runs[j]).start
}

/// The runs cut a batch's vertices into stretches that follow one another, and
/// every path with a brush lies within one run that is drawn with its texture.
pub proof fn brush_runs_cover_every_path(paths: Seq<PathModel<ScaledPixels>>, n: nat, p: int)
    requires
        n <= paths.len(),
        0 <= p < n,
    ensures
        runs_follow(brush_runs(paths, n), all_vertices(paths, n).len() as int),
        exists|k: int|
            0 <= k < brush_runs(paths, n).len() && {
                let run = #[trigger] brush_runs(paths, n)[k];
                &&& run.start <= all_vertices(paths, p as nat).len()
                &&& all_vertices(paths, (p + 1) as nat).len() <= run.end
                &&& texture_of(paths[p]) is Some ==> run.texture == texture_of(paths[p])
            },
    decreases n,
{
    lemma_runs_follow(paths, n);
    let runs = brush_runs(paths, (n - 1) as nat);
    let texture = texture_of(paths[n - 1]);
    let after = brush_runs(paths, n);
    if p == n - 1 {
        if runs.len() > 0 && runs.last().accepts(texture) {
            lemma_runs_follow(paths, (n - 1) as nat);
            assert(runs[runs.len() - 1].start <= runs[runs.len() - 1].end);
        }
        assert(after[after.len() - 1] == after.last());
    } else {
        brush_runs_cover_every_path(paths, (n - 1) as nat, p);
        let k = choose|k: int|
            0 <= k < runs.len() && {
                let run = #[trigger] runs[k];
                &&& run.start <= all_vertices(paths, p as nat).len()
                &&& all_vertices(paths, (p + 1) as nat).len() <= run.end
                &&& texture_of(paths[p]) is Some ==> run.texture == texture_of(paths[p])
            };
        if k == runs.len() - 1 && runs.last().accepts(texture) {
            assert(runs[k] == runs.last());
            assert(all_vertices(paths, n).len() >= all_vertices(paths, (n - 1) as nat).len());
            lemma_runs_follow(paths, (n - 1) as nat);
            assert(after[k] == runs.last().grown(texture, all_vertices(paths, n).len() as int));
        } else {
            assert(after[k] == runs[k]);
        }
    }
}

proof fn lemma_runs_follow(paths: Seq<PathModel<ScaledPixels>>, n: nat)
    requires
        n <= paths.len(),
    ensures
        runs_follow(brush_runs(paths, n), all_vertices(paths, n).len() as int),
    decreases n,
{
    if n > 0 {
        lemma_runs_follow(paths, (n - 1) as nat);
        let runs = brush_runs(paths, (n - 1) as nat);
        let after = brush_runs(paths, n);
        let texture = texture_of(paths[n - 1]);
        let end = all_vertices(paths, n).len() as int;
        assert(end >= all_vertices(paths, (n - 1) as nat).len());
        if runs.len() > 0 {
            assert(runs[runs.len() - 1].start <= runs[runs.len() - 1].end);
        }
        assert forall|i: int| 0 <= i < after.len() implies (#[trigger] after[i]).start
            <= after[i].end by {
            if i < runs.len() - 1 {
                assert(after[i] == runs[i]);
            }
        }
        assert forall|i: int, j: int| 0 <= i && j == i + 1 && j < after.len() implies (
        #[trigger] after[i]).end == (#[trigger] after[j]).start by {
            if j < runs.len() {
                assert(after[i] == runs[i]);
                assert(after[j].start == runs[j].start);
            } else {
                assert(after[i] == runs[i]);
                assert(runs[i] == runs.last());
            }
        }
    }
}

/// A box that is copied for a batch of several draw orders holds what can be
/// seen of every path in it.
pub proof fn one_sprite_spans_every_path(paths: Seq<PathModel<ScaledPixels>>, n: nat, p: int)
    requires
        0 <= p < n <= paths.len(),
        forall|i: int| 0 <= i < n ==> is_tame((#[trigger] paths[i]).visible()),
    ensures
        is_framed(spanned(paths, n)),
        holds_box(spanned(paths, n), paths[p].visible()),
    decreases n,
{
    assert(is_tame(paths[n - 1].visible()));
    if n > 1 {
        if p < n - 1 {
            one_sprite_spans_every_path(paths, (n - 1) as nat, p);
        } else {
            one_sprite_spans_every_path(paths, (n - 1) as nat, 0);
        }
    }
}

} // verus!
