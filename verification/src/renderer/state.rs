//! What a renderer remembers from one frame to the next.

use crate::geometry::{Bounds, ContentMask, DevicePixels, ScaledPixels, Size};
use crate::renderer::clip_plan::{
    lemma_plan_shapes, parents_come_first, plan_of, viewport_is_sane, ClipMask, ClipPlan, PlanModel,
};
use crate::renderer::extent::{
    BudgetModel, ClipTextureBudget, Extent, CLIP_TEXTURE_QUANTUM, CLIP_TEXTURE_SHRINK_FRAMES,
};
use crate::renderer::packing::ATLAS_BOUND;
use crate::scene::group::GroupModel;
use crate::scene::ids::ClipId;
use crate::scene::primitive::PaintSurface;
use crate::scene::recording::Scene;
use vstd::prelude::*;

verus! {

/// Whether some group of a scene has a backdrop filter.
pub open spec fn has_backdrop(groups: Seq<GroupModel>) -> bool {
    exists|i: int| 0 <= i < groups.len() && (#[trigger] groups[i]).backdrop_filter is Some
}

/// Whether any group in a scene asks for a backdrop filter, which is what
/// decides whether the window's drawables have to become readable.
pub fn scene_has_a_backdrop_filter(scene: &Scene) -> (r: bool)
    ensures
        r == has_backdrop(scene@.groups),
{
    let mut index: usize = 0;
    while index < scene.groups.len()
        invariant
            index <= scene.groups@.len(),
            forall|i: int|
                0 <= i < index ==> (#[trigger] scene@.groups[i]).backdrop_filter is None,
        decreases scene.groups@.len() - index,
    {
        assert(scene@.groups[index as int] == scene.groups@[index as int]@);
        if scene.groups[index].backdrop_filter.is_some() {
            return true;
        }
        index += 1;
    }
    false
}

/// Whether what a renderer draws a frame into can be copied out of again.
///
/// An offscreen target always can. A window's drawable cannot until the layer
/// is told to give out readable ones, which costs the display some of its fast
/// paths and so is not asked for before a scene needs it.
#[derive(Clone, Copy, Debug, PartialEq, Eq, Structural)]
pub struct DrawableReads {
    /// Whether the drawables can be read.
    pub readable: bool,
    /// Whether the layer has been asked for readable ones. Those it had given
    /// out already were made before, so `readable` follows a frame later.
    pub requested: bool,
}

impl DrawableReads {
    /// What is known at the start of a frame, where the scene has a backdrop
    /// filter or has none.
    pub open spec fn advanced(self, has_backdrop: bool) -> DrawableReads {
        if self.readable {
            self
        } else if self.requested {
            DrawableReads { readable: true, ..self }
        } else {
            DrawableReads { requested: has_backdrop, ..self }
        }
    }

    /// Start a frame. Answers whether the layer has to be asked now.
    pub fn advance(&mut self, scene: &Scene) -> (r: bool)
        ensures
            *final(self) == old(self).advanced(has_backdrop(scene@.groups)),
            r == (!old(self).requested && final(self).requested),
    {
        if !self.readable {
            if self.requested {
                self.readable = true;
            } else if scene_has_a_backdrop_filter(scene) {
                self.requested = true;
                return true;
            }
        }
        false
    }
}

/// What is known after a run of frames.
pub open spec fn reads_after(reads: DrawableReads, backdrops: Seq<bool>) -> DrawableReads
    decreases backdrops.len(),
{
    if backdrops.len() == 0 {
        reads
    } else {
        reads_after(reads, backdrops.drop_last()).advanced(backdrops.last())
    }
}

/// A window's drawables become readable in the frame after the first one with a
/// backdrop filter, and stay so.
pub proof fn drawables_become_readable_a_frame_late(backdrops: Seq<bool>, n: int)
    requires
        0 <= n < backdrops.len(),
        backdrops[n],
        forall|i: int| 0 <= i < n ==> !backdrops[i],
    ensures
        ({
            let new = DrawableReads { readable: false, requested: false };
            let after = reads_after(new, backdrops);
            &&& after.requested
            &&& after.readable == (backdrops.len() > n + 1)
        }),
    decreases backdrops.len(),
{
    let new = DrawableReads { readable: false, requested: false };
    let rest = backdrops.drop_last();
    if n < backdrops.len() - 1 {
        drawables_become_readable_a_frame_late(rest, n);
    } else {
        lemma_nothing_is_asked(rest);
    }
}

proof fn lemma_nothing_is_asked(backdrops: Seq<bool>)
    requires
        forall|i: int| 0 <= i < backdrops.len() ==> !backdrops[i],
    ensures
        reads_after(DrawableReads { readable: false, requested: false }, backdrops) == (
        DrawableReads { readable: false, requested: false }),
    decreases backdrops.len(),
{
    if backdrops.len() > 0 {
        lemma_nothing_is_asked(backdrops.drop_last());
    }
}

/// The sizes of the clip textures.
#[derive(Clone, Copy, Debug, PartialEq, Eq, Structural)]
pub struct ClipTextures {
    pub atlas: Extent,
    pub work: Extent,
}

/// The clip textures that a renderer holds, and how long it keeps them.
#[derive(Debug)]
pub struct ClipState {
    /// `None` until a scene has clipped anything.
    pub textures: Option<ClipTextures>,
    pub atlas_budget: ClipTextureBudget,
    pub work_budget: ClipTextureBudget,
}

/// The clip textures, as what is said of them.
pub struct ClipStateModel {
    pub textures: Option<ClipTextures>,
    pub atlas_budget: BudgetModel,
    pub work_budget: BudgetModel,
}

impl View for ClipState {
    type V = ClipStateModel;

    open spec fn view(&self) -> ClipStateModel {
        ClipStateModel {
            textures: self.textures,
            atlas_budget: self.atlas_budget@,
            work_budget: self.work_budget@,
        }
    }
}

/// Which of the clip textures have to be made anew.
#[derive(Clone, Copy, Debug, PartialEq, Eq, Structural)]
pub struct ClipChange {
    pub atlas: bool,
    pub work: bool,
}

pub open spec fn is_bounded(extent: Extent) -> bool {
    extent.width <= ATLAS_BOUND && extent.height <= ATLAS_BOUND
}

/// What a frame that clips nothing needs.
pub open spec fn least_textures() -> Extent {
    Extent::zero().rounded(CLIP_TEXTURE_QUANTUM as int)
}

/// Which textures change size.
pub open spec fn change_between(before: Option<ClipTextures>, after: ClipTextures) -> ClipChange {
    match before {
        None => ClipChange { atlas: true, work: true },
        Some(before) => ClipChange {
            atlas: before.atlas != after.atlas,
            work: before.work != after.work,
        },
    }
}

impl ClipStateModel {
    pub open spec fn wf(self) -> bool {
        &&& is_bounded(self.atlas_budget.current)
        &&& is_bounded(self.atlas_budget.peak)
        &&& self.atlas_budget.frames <= CLIP_TEXTURE_SHRINK_FRAMES
        &&& self.work_budget.frames <= CLIP_TEXTURE_SHRINK_FRAMES
    }

    /// The state after a frame that clips nothing. It still counts, so that a
    /// window that stops clipping hands its textures back.
    pub open spec fn idled(self) -> ClipStateModel {
        if self.textures is None {
            self
        } else {
            let atlas = self.atlas_budget.floored(CLIP_TEXTURE_SHRINK_FRAMES as int);
            let work = self.work_budget.floored(CLIP_TEXTURE_SHRINK_FRAMES as int);
            ClipStateModel {
                textures: Some(ClipTextures { atlas: atlas.current, work: work.current }),
                atlas_budget: atlas.observed(atlas.current, least_textures()),
                work_budget: work.observed(work.current, least_textures()),
            }
        }
    }

    /// The state after a frame with this plan.
    pub open spec fn used(self, plan: PlanModel) -> ClipStateModel {
        let atlas = self.atlas_budget.floored(CLIP_TEXTURE_SHRINK_FRAMES as int);
        let work = self.work_budget.floored(CLIP_TEXTURE_SHRINK_FRAMES as int);
        let room = work.current.larger(plan.work);
        ClipStateModel {
            textures: Some(ClipTextures { atlas: plan.atlas, work: room }),
            atlas_budget: atlas.observed(plan.atlas, plan.minimum_atlas),
            work_budget: work.observed(room, plan.work),
        }
    }

    /// How large an atlas this frame starts from.
    pub open spec fn floor(self) -> Extent {
        self.atlas_budget.floored(CLIP_TEXTURE_SHRINK_FRAMES as int).current
    }
}

/// The plan of a scene that clips nothing.
pub open spec fn is_unclipped(plan: PlanModel) -> bool {
    &&& plan.masks == seq![ClipMask::everything()]
    &&& plan.clips.len() == 0
    &&& plan.levels.len() == 0
    &&& plan.vertices.len() == 0
}

impl Default for ClipState {
    fn default() -> (r: Self)
        ensures
            r@.wf(),
            r@ == (ClipStateModel {
                textures: None,
                atlas_budget: BudgetModel {
                    current: Extent::zero(),
                    peak: Extent::zero(),
                    frames: 0,
                },
                work_budget: BudgetModel {
                    current: Extent::zero(),
                    peak: Extent::zero(),
                    frames: 0,
                },
            }),
    {
        ClipState {
            textures: None,
            atlas_budget: Default::default(),
            work_budget: Default::default(),
        }
    }
}

impl ClipState {
    /// Size the clip textures to hold `atlas` and `work`. The two change
    /// independently: a frame can need a bigger atlas without a bigger level.
    fn resize(&mut self, atlas: Extent, work: Extent) -> (r: ClipChange)
        ensures
            final(self)@ == (ClipStateModel {
                textures: Some(ClipTextures { atlas, work }),
                ..old(self)@
            }),
            r == change_between(old(self).textures, ClipTextures { atlas, work }),
    {
        let change = match self.textures {
            None => ClipChange { atlas: true, work: true },
            Some(before) => ClipChange {
                atlas: before.atlas != atlas,
                work: before.work != work,
            },
        };
        self.textures = Some(ClipTextures { atlas, work });
        change
    }

    /// Work out where in the atlas each of a scene's clip paths goes, and size
    /// the textures for it: the plan, and which textures have to be made anew.
    pub fn prepare_clip_masks(&mut self, scene: &Scene, viewport_size: Size<DevicePixels>) -> (r: (
        ClipPlan,
        ClipChange,
    ))
        requires
            old(self)@.wf(),
            parents_come_first(scene@.clips),
            scene@.clips.len() < u32::MAX,
            viewport_is_sane(viewport_size),
        ensures
            final(self)@.wf(),
            scene@.clips.len() == 0 ==> {
                &&& is_unclipped(r.0@)
                &&& final(self)@ == old(self)@.idled()
                &&& r.1 == match final(self)@.textures {
                    None => ClipChange { atlas: false, work: false },
                    Some(textures) => change_between(old(self).textures, textures),
                }
            },
            scene@.clips.len() > 0 ==> {
                &&& r.0@ == plan_of(scene@.clips, viewport_size, old(self)@.floor())
                &&& final(self)@ == old(self)@.used(r.0@)
                &&& r.1 == change_between(old(self).textures, final(self)@.textures->0)
            },
    {
        if scene.clips.len() == 0 {
            let mut change = ClipChange { atlas: false, work: false };
            if self.textures.is_some() {
                let least = Extent::none().quantized();
                let atlas = self.atlas_budget.floor();
                self.atlas_budget.observe(atlas, least);
                let work = self.work_budget.floor();
                self.work_budget.observe(work, least);
                change = self.resize(atlas, work);
            }
            return (ClipPlan::unclipped(), change);
        }
        let floor = self.atlas_budget.floor();
        let plan = ClipPlan::new(scene, viewport_size, floor);
        proof {
            lemma_plan_shapes(scene@.clips, viewport_size, floor);
        }
        self.atlas_budget.observe(plan.atlas, plan.minimum_atlas);
        let work = self.work_budget.floor().max(plan.work);
        self.work_budget.observe(work, plan.work);
        let change = self.resize(plan.atlas, work);
        (plan, change)
    }
}

/// Why a scene cannot be rendered into a texture.
#[derive(Clone, Copy, Debug, PartialEq, Eq)]
pub enum RenderError {
    /// A texture of this size cannot be made.
    InvalidSize(Size<DevicePixels>),
}

pub open spec fn is_drawable(size: Size<DevicePixels>) -> bool {
    size.width.0 > 0 && size.height.0 > 0
}

/// The size of a texture to render into, where one can be made.
pub fn render_size(size: Size<DevicePixels>) -> (r: Result<Extent, RenderError>)
    ensures
        r == if is_drawable(size) {
            Ok::<Extent, RenderError>(Extent { width: size.width.0, height: size.height.0 })
        } else {
            Err(RenderError::InvalidSize(size))
        },
{
    if size.width.0 <= 0 || size.height.0 <= 0 {
        Err(RenderError::InvalidSize(size))
    } else {
        Ok(Extent { width: size.width.0, height: size.height.0 })
    }
}

/// Whether a texture that is kept between frames has to be made anew to render
/// `size` into it.
pub fn needs_new_target(kept: Option<Extent>, size: Extent) -> (r: bool)
    ensures
        r == (kept != Some(size)),
{
    match kept {
        None => true,
        Some(kept) => kept != size,
    }
}

/// The textures that paths are rasterized through.
#[derive(Clone, Copy, Debug, PartialEq, Eq, Structural)]
pub struct PathTextures {
    pub extent: Extent,
    /// How many samples the pass that rasterizes takes of each pixel, where it
    /// takes more than one.
    pub samples: Option<u32>,
    /// Whether the samples need no memory of their own.
    pub memoryless: bool,
}

/// The textures that paths are rasterized through in a window of `size`: none
/// where the window has no size, which it may have before its first layout.
pub fn path_textures(size: Size<DevicePixels>, sample_count: u32, is_apple_gpu: bool) -> (r: Option<
    PathTextures,
>)
    ensures
        r == if is_drawable(size) {
            Some(
                PathTextures {
                    extent: Extent { width: size.width.0, height: size.height.0 },
                    samples: if sample_count > 1 {
                        Some(sample_count)
                    } else {
                        None
                    },
                    memoryless: sample_count > 1 && is_apple_gpu,
                },
            )
        } else {
            None::<PathTextures>
        },
{
    if size.width.0 <= 0 || size.height.0 <= 0 {
        return None;
    }
    Some(
        PathTextures {
            extent: Extent { width: size.width.0, height: size.height.0 },
            samples: if sample_count > 1 { Some(sample_count) } else { None },
            memoryless: sample_count > 1 && is_apple_gpu,
        },
    )
}

/// The pixel formats of a video surface.
#[derive(Clone, Copy, Debug, PartialEq, Eq, Structural)]
pub enum SurfaceFormat {
    /// A plane of brightness and a plane of colour, full range.
    Biplanar,
    /// One plane of blue, green, red and alpha.
    Bgra,
}

/// The code of [`SurfaceFormat::Biplanar`]: `420f`.
pub const BIPLANAR_FULL_RANGE: u32 = 0x3432_3066;

/// The code of [`SurfaceFormat::Bgra`]: `BGRA`.
pub const BGRA_32: u32 = 0x4247_5241;

impl SurfaceFormat {
    /// The format of a code, or `None` for one whose surfaces are not drawn.
    pub fn of(code: u32) -> (r: Option<SurfaceFormat>)
        ensures
            r == if code == BIPLANAR_FULL_RANGE {
                Some(SurfaceFormat::Biplanar)
            } else if code == BGRA_32 {
                Some(SurfaceFormat::Bgra)
            } else {
                None::<SurfaceFormat>
            },
    {
        if code == BIPLANAR_FULL_RANGE {
            Some(SurfaceFormat::Biplanar)
        } else if code == BGRA_32 {
            Some(SurfaceFormat::Bgra)
        } else {
            None
        }
    }
}

/// Where a video surface is drawn. A surface's picture is bound by itself, so
/// its record holds no more than this.
#[derive(Clone, Copy, Debug, PartialEq, Eq)]
pub struct SurfaceBounds {
    pub bounds: Bounds<ScaledPixels>,
    pub content_mask: ContentMask<ScaledPixels>,
    pub clip: ClipId,
    pub pad: u32,
}

impl SurfaceBounds {
    /// The record of a surface.
    pub open spec fn record(surface: PaintSurface) -> SurfaceBounds {
        SurfaceBounds {
            bounds: surface.bounds,
            content_mask: surface.content_mask,
            clip: surface.clip,
            pad: 0,
        }
    }

    /// The records of a scene's surfaces, in their order.
    pub fn of(surfaces: &Vec<PaintSurface>) -> (r: Vec<SurfaceBounds>)
        ensures
            r@ == surfaces@.map_values(|surface: PaintSurface| SurfaceBounds::record(surface)),
    {
        let mut records: Vec<SurfaceBounds> = Vec::new();
        let mut index: usize = 0;
        while index < surfaces.len()
            invariant
                index <= surfaces@.len(),
                records@ == surfaces@.take(index as int).map_values(
                    |surface: PaintSurface| SurfaceBounds::record(surface),
                ),
            decreases surfaces@.len() - index,
        {
            let surface = surfaces[index];
            records.push(
                SurfaceBounds {
                    bounds: surface.bounds,
                    content_mask: surface.content_mask,
                    clip: surface.clip,
                    pad: 0,
                },
            );
            index += 1;
            assert(records@ =~= surfaces@.take(index as int).map_values(
                |surface: PaintSurface| SurfaceBounds::record(surface),
            ));
        }
        assert(surfaces@.take(index as int) =~= surfaces@);
        records
    }
}

} // verus!
