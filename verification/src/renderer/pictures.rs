//! What a frame's commands put into the textures.

use crate::color::Hsla;
use crate::fixed::ONE;
use crate::geometry::{Bounds, DevicePixels, Point, ScaledPixels, Size};
use crate::renderer::compose::{GroupComposeMode, RenderTarget};
use crate::renderer::extent::DeviceRect;
use crate::renderer::filter_ops::{
    blur_passes_reach_the_tail, reach_of, steps_of, stride_of, taps_of, with_filter, with_filters,
    with_matrix, without_still, FilterEdge, FilterPass, FilterPipeline, StepModel,
    MAX_GROUP_COLOR_MATRICES,
};
use crate::renderer::frame_laws::{
    is_held, lemma_acquires, lemma_blurs, lemma_filters, lemma_releases, lemma_smears,
    lemma_some_are_free, lemma_steps, lemma_taken, owns_its_slot, taken,
};
use crate::renderer::passes::{
    downwards, rightwards, ActiveTarget, Clear, CommandModel, PlanModel,
};
use crate::renderer::scratch::FilterImage;
use crate::renderer::targets::{Texture, MAX_FILTER_SCRATCH};
use crate::scene::batch::BatchModel;
use crate::scene::filter::FilterModel;
use crate::scene::ids::ClipId;
use vstd::prelude::*;

verus! {

/// What can be seen in a texture: how it came about.
pub enum Picture {
    /// Nothing is known of it.
    Unknown,
    /// Nothing has been drawn.
    Nothing,
    /// The window's background.
    Ground,
    /// A batch drawn onto a picture that sits at `place` in the window.
    Painted { on: Box<Picture>, batch: BatchModel, clipped: bool, place: RenderTarget },
    /// Paths drawn onto a picture that sits at `place` in the window.
    Filled { on: Box<Picture>, start: int, end: int, clipped: bool, place: RenderTarget },
    /// A picture blurred along one direction.
    Blurred { of: Box<Picture>, sigma: i64, direction: Point<i64>, edge: u32 },
    /// A picture with a colour matrix applied.
    Recoloured { of: Box<Picture>, matrix: [i64; 20] },
    /// A picture over the moved and tinted alpha of another.
    Shadowed {
        of: Box<Picture>,
        silhouette: Box<Picture>,
        offset: Point<i64>,
        color: Hsla,
        edge: u32,
    },
    /// The part of a picture that covers `place` of the window.
    Cut { of: Box<Picture>, place: RenderTarget },
    /// A picture laid on another, over `place` of the window.
    Laid {
        on: Box<Picture>,
        picture: Box<Picture>,
        place: RenderTarget,
        opacity: i64,
        compose: GroupComposeMode,
        clip: ClipId,
        clipped: bool,
    },
    /// A picture laid on another where, underneath it, a filtered copy of what
    /// was there takes the place of the copy.
    LaidOver {
        on: Box<Picture>,
        picture: Box<Picture>,
        place: RenderTarget,
        opacity: i64,
        compose: GroupComposeMode,
        clip: ClipId,
        clipped: bool,
        original: Box<Picture>,
        filtered: Box<Picture>,
        under: RenderTarget,
    },
}

/// A texture's picture, where in the window it sits, and how large the texture
/// is.
pub struct Held {
    pub picture: Picture,
    pub place: RenderTarget,
    pub size: Size<DevicePixels>,
}

/// What a GPU holds after some commands: its textures, the target that is drawn
/// into, and the paths that were rasterized last.
pub struct Gpu {
    pub held: Map<Texture, Held>,
    pub target: Option<ActiveTarget>,
    pub paths: Option<(int, int, bool)>,
}

/// A picture with some colour matrices applied, one after another.
pub open spec fn recoloured_by(picture: Picture, matrices: Seq<[i64; 20]>) -> Picture
    decreases matrices.len(),
{
    if matrices.len() == 0 {
        picture
    } else {
        Picture::Recoloured {
            of: Box::new(recoloured_by(picture, matrices.drop_last())),
            matrix: matrices.last(),
        }
    }
}

/// Whether the reads of a blur pass reach three standard deviations to each
/// side, or as far as reads are counted.
pub open spec fn reads_the_tail(pass: FilterPass) -> bool {
    &&& 1 <= pass.taps <= 96
    &&& 1 <= pass.stride
    &&& pass.taps * pass.stride * ONE >= 3 * pass.sigma || pass.taps * pass.stride >= i32::MAX
}

/// What a filter's pass writes.
pub open spec fn filtered_by(
    source: Held,
    blurred: Held,
    pipeline: FilterPipeline,
    pass: FilterPass,
    matrices: Seq<[i64; 20]>,
    destination: FilterImage,
) -> Picture {
    if pass.source_size != source.place.size || destination.place() != source.place {
        Picture::Unknown
    } else {
        match pipeline {
            FilterPipeline::Blur => if reads_the_tail(pass) {
                Picture::Blurred {
                    of: Box::new(source.picture),
                    sigma: pass.sigma,
                    direction: pass.direction,
                    edge: pass.edge,
                }
            } else {
                Picture::Unknown
            },
            FilterPipeline::Matrices => recoloured_by(source.picture, matrices),
            FilterPipeline::DropShadow => if blurred.place == source.place {
                Picture::Shadowed {
                    of: Box::new(source.picture),
                    silhouette: Box::new(blurred.picture),
                    offset: pass.offset,
                    color: pass.color,
                    edge: pass.edge,
                }
            } else {
                Picture::Unknown
            },
        }
    }
}

/// A point in the window, from a corner of a place that it lies in.
pub open spec fn corner_of(place: RenderTarget) -> (int, int) {
    (place.origin.x.0 as int, place.origin.y.0 as int)
}

impl Gpu {
    /// Nothing has been drawn into anything.
    pub open spec fn idle() -> Gpu {
        Gpu { held: Map::empty(), target: None, paths: None }
    }

    /// What is drawn into the target, onto `picture`.
    pub open spec fn drawn(self, picture: Picture) -> Gpu {
        let target = self.target->0;
        Gpu {
            held: self.held.insert(
                target.texture,
                Held { picture, place: target.render_target, size: target.texture_size },
            ),
            ..self
        }
    }

    /// What is in the target.
    pub open spec fn under(self) -> Picture {
        self.held[self.target->0.texture].picture
    }

    /// What a command does.
    pub open spec fn after(self, command: CommandModel) -> Gpu {
        match command {
            CommandModel::BeginPass { target, clear } => {
                let begun = Gpu { target: Some(target), ..self };
                match clear {
                    Clear::Keep => self.kept(target),
                    Clear::Transparent => begun.drawn(Picture::Nothing),
                    Clear::Window => begun.drawn(Picture::Ground),
                }
            },
            CommandModel::EndPass => Gpu { target: None, ..self },
            CommandModel::Draw { batch, clipped } => self.drawn(
                Picture::Painted {
                    on: Box::new(self.under()),
                    batch,
                    clipped,
                    place: self.target->0.render_target,
                },
            ),
            CommandModel::RasterizePaths { start, end, clipped } => Gpu {
                paths: Some((start, end, clipped)),
                ..self
            },
            CommandModel::CopyPaths { start, end } => self.drawn(
                match self.paths {
                    Some(paths) => if paths.0 == start && paths.1 == end {
                        Picture::Filled {
                            on: Box::new(self.under()),
                            start,
                            end,
                            clipped: paths.2,
                            place: self.target->0.render_target,
                        }
                    } else {
                        Picture::Unknown
                    },
                    None => Picture::Unknown,
                },
            ),
            CommandModel::Filter { pipeline, pass, matrices, source, blurred, destination } => Gpu {
                held: self.held.insert(
                    destination.texture,
                    Held {
                        picture: filtered_by(
                            self.held[source],
                            self.held[blurred],
                            pipeline,
                            pass,
                            matrices,
                            destination,
                        ),
                        place: destination.place(),
                        size: destination.texture_size,
                    },
                ),
                ..self
            },
            CommandModel::CopyBackdrop { from, origin, to } => Gpu {
                held: self.held.insert(
                    to.texture,
                    Held {
                        picture: if corner_of(to.place()) == (
                            corner_of(self.held[from].place).0 + origin.x,
                            corner_of(self.held[from].place).1 + origin.y,
                        ) {
                            Picture::Cut {
                                of: Box::new(self.held[from].picture),
                                place: to.place(),
                            }
                        } else {
                            Picture::Unknown
                        },
                        place: to.place(),
                        size: to.texture_size,
                    },
                ),
                ..self
            },
            CommandModel::Composite { compose, clipped, composite, filter, source, backdrop } => {
                let laid = self.held[source];
                let picture = Box::new(recoloured_by(laid.picture, filter));
                self.drawn(
                    if composite.texture_size != laid.size || composite.bounds != box_of(
                        laid.place,
                    ) {
                        Picture::Unknown
                    } else {
                        match backdrop {
                            None => Picture::Laid {
                                on: Box::new(self.under()),
                                picture,
                                place: laid.place,
                                opacity: composite.opacity,
                                compose,
                                clip: composite.clip,
                                clipped,
                            },
                            Some((original, filtered)) => {
                                let place = RenderTarget {
                                    origin: composite.backdrop_origin,
                                    size: composite.backdrop_size,
                                };
                                if self.held[original].place != place || self.held[filtered].place
                                    != place {
                                    Picture::Unknown
                                } else {
                                    Picture::LaidOver {
                                        on: Box::new(self.under()),
                                        picture,
                                        place: laid.place,
                                        opacity: composite.opacity,
                                        compose,
                                        clip: composite.clip,
                                        clipped,
                                        original: Box::new(self.held[original].picture),
                                        filtered: Box::new(self.held[filtered].picture),
                                        under: place,
                                    }
                                }
                            },
                        }
                    },
                )
            },
        }
    }

    /// A pass begun on what its target holds.
    pub open spec fn kept(self, target: ActiveTarget) -> Gpu {
        let begun = Gpu { target: Some(target), ..self };
        if self.held[target.texture].place == target.render_target
            && self.held[target.texture].size == target.texture_size {
            begun
        } else {
            begun.drawn(Picture::Unknown)
        }
    }
}

/// The box of a place, in the units of a scene.
pub open spec fn box_of(place: RenderTarget) -> Bounds<ScaledPixels> {
    Bounds {
        origin: Point {
            x: ScaledPixels((place.origin.x.0 * ONE) as i64),
            y: ScaledPixels((place.origin.y.0 * ONE) as i64),
        },
        size: Size {
            width: ScaledPixels((place.size.width.0 * ONE) as i64),
            height: ScaledPixels((place.size.height.0 * ONE) as i64),
        },
    }
}

/// What a GPU holds after some commands.
pub open spec fn gpu_after(commands: Seq<CommandModel>) -> Gpu
    decreases commands.len(),
{
    if commands.len() == 0 {
        Gpu::idle()
    } else {
        gpu_after(commands.drop_last()).after(commands.last())
    }
}

pub proof fn lemma_gpu_emits(plan: PlanModel, command: CommandModel)
    ensures
        gpu_after(plan.emitted(command).commands) == gpu_after(plan.commands).after(command),
{
    assert(plan.commands.push(command).drop_last() =~= plan.commands);
}

/// Whether an image shows a picture.
pub open spec fn shows(gpu: Gpu, image: FilterImage, picture: Picture) -> bool {
    gpu.held[image.texture] == (Held {
        picture,
        place: image.place(),
        size: image.texture_size,
    })
}

/// Whether a texture may be overwritten: it is a working one, and free.
pub open spec fn is_free(in_use: Seq<bool>, texture: Texture) -> bool {
    texture is Scratch && texture->Scratch_0 < in_use.len() && !in_use[texture->Scratch_0 as int]
}

/// Whether nothing has changed but working textures that were free.
pub open spec fn leaves_alone(in_use: Seq<bool>, before: Gpu, after: Gpu) -> bool {
    &&& after.target == before.target
    &&& after.paths == before.paths
    &&& forall|texture: Texture|
        !is_free(in_use, texture) ==> #[trigger] after.held[texture] == before.held[texture]
}

/// What a picture comes to after a blur along both axes, none along one whose
/// deviation is not positive.
pub open spec fn blurred_by(picture: Picture, sigma_x: int, sigma_y: int, edge: u32) -> Picture {
    let across = if sigma_x > 0 {
        Picture::Blurred {
            of: Box::new(picture),
            sigma: sigma_x as i64,
            direction: Point { x: 1, y: 0 },
            edge,
        }
    } else {
        picture
    };
    if sigma_y > 0 {
        Picture::Blurred {
            of: Box::new(across),
            sigma: sigma_y as i64,
            direction: Point { x: 0, y: 1 },
            edge,
        }
    } else {
        across
    }
}

/// What a picture comes to under a filter. What lies outside the picture is
/// transparent for `edge` zero, and the nearest texel inside for one; the alpha
/// of a drop shadow always falls off to nothing.
pub open spec fn under_filter(filter: FilterModel, picture: Picture, edge: u32) -> Picture
    decreases filter,
{
    match filter {
        FilterModel::ColorMatrix(matrix) => Picture::Recoloured { of: Box::new(picture), matrix },
        FilterModel::Blur { radius_x, radius_y } => blurred_by(picture, radius_x, radius_y, edge),
        FilterModel::DropShadow { offset_x, offset_y, radius, color } => Picture::Shadowed {
            of: Box::new(picture),
            silhouette: Box::new(blurred_by(picture, radius, radius, 0)),
            offset: Point { x: offset_x as i64, y: offset_y as i64 },
            color,
            edge,
        },
        FilterModel::Chain(filters) => under_filters(filters, picture, edge),
    }
}

/// What a picture comes to under some filters, first to last.
pub open spec fn under_filters(filters: Seq<FilterModel>, picture: Picture, edge: u32) -> Picture
    decreases filters,
{
    if filters.len() == 0 {
        picture
    } else {
        under_filter(filters.last(), under_filters(filters.drop_last(), picture, edge), edge)
    }
}

/// What a picture comes to after a step of a filter.
pub open spec fn under_step(step: StepModel, picture: Picture, edge: u32) -> Picture {
    match step {
        StepModel::Matrices(matrices) => recoloured_by(picture, matrices),
        StepModel::Blur { sigma_x, sigma_y } => blurred_by(picture, sigma_x, sigma_y, edge),
        StepModel::DropShadow { offset_x, offset_y, sigma, color } => Picture::Shadowed {
            of: Box::new(picture),
            silhouette: Box::new(blurred_by(picture, sigma, sigma, 0)),
            offset: Point { x: offset_x as i64, y: offset_y as i64 },
            color,
            edge,
        },
    }
}

/// What a picture comes to after some steps, first to last.
pub open spec fn under_steps(steps: Seq<StepModel>, picture: Picture, edge: u32) -> Picture
    decreases steps.len(),
{
    if steps.len() == 0 {
        picture
    } else {
        under_step(steps.last(), under_steps(steps.drop_last(), picture, edge), edge)
    }
}

/// Whether every length of a filter is one that can be held.
pub open spec fn filter_is_held(filter: FilterModel) -> bool
    decreases filter,
{
    match filter {
        FilterModel::ColorMatrix(_) => true,
        FilterModel::Blur { radius_x, radius_y } => radius_x <= i64::MAX && radius_y <= i64::MAX,
        FilterModel::DropShadow { offset_x, offset_y, radius, .. } => radius <= i64::MAX,
        FilterModel::Chain(filters) => filters_are_held(filters),
    }
}

pub open spec fn filters_are_held(filters: Seq<FilterModel>) -> bool
    decreases filters,
{
    filters.len() == 0 || (filters_are_held(filters.drop_last()) && filter_is_held(filters.last()))
}

pub open spec fn step_is_held(step: StepModel) -> bool {
    match step {
        StepModel::Matrices(_) => true,
        StepModel::Blur { sigma_x, sigma_y } => 0 <= sigma_x <= i64::MAX && 0 <= sigma_y
            <= i64::MAX,
        StepModel::DropShadow { sigma, .. } => 0 <= sigma <= i64::MAX,
    }
}

pub open spec fn steps_are_held(steps: Seq<StepModel>) -> bool {
    forall|i: int| 0 <= i < steps.len() ==> step_is_held(#[trigger] steps[i])
}

pub proof fn lemma_steps_push(steps: Seq<StepModel>, step: StepModel, picture: Picture, edge: u32)
    ensures
        under_steps(steps.push(step), picture, edge) == under_step(
            step,
            under_steps(steps, picture, edge),
            edge,
        ),
{
    assert(steps.push(step).drop_last() =~= steps);
}

pub proof fn lemma_recoloured_push(picture: Picture, matrices: Seq<[i64; 20]>, matrix: [i64; 20])
    ensures
        recoloured_by(picture, matrices.push(matrix)) == (Picture::Recoloured {
            of: Box::new(recoloured_by(picture, matrices)),
            matrix,
        }),
{
    assert(matrices.push(matrix).drop_last() =~= matrices);
}

proof fn lemma_under_with_matrix(
    steps: Seq<StepModel>,
    matrix: [i64; 20],
    picture: Picture,
    edge: u32,
)
    ensures
        under_steps(with_matrix(steps, matrix), picture, edge) == (Picture::Recoloured {
            of: Box::new(under_steps(steps, picture, edge)),
            matrix,
        }),
{
    if steps.len() > 0 && steps.last() is Matrices && steps.last()->Matrices_0.len()
        < MAX_GROUP_COLOR_MATRICES {
        let run = steps.last()->Matrices_0;
        let rest = steps.drop_last();
        lemma_steps_push(rest, StepModel::Matrices(run.push(matrix)), picture, edge);
        lemma_recoloured_push(under_steps(rest, picture, edge), run, matrix);
    } else {
        let none = Seq::<[i64; 20]>::empty();
        lemma_steps_push(steps, StepModel::Matrices(seq![matrix]), picture, edge);
        lemma_recoloured_push(under_steps(steps, picture, edge), none, matrix);
        assert(none.push(matrix) =~= seq![matrix]);
        assert(recoloured_by(under_steps(steps, picture, edge), none) == under_steps(
            steps,
            picture,
            edge,
        ));
    }
}

proof fn lemma_under_with_filter(
    steps: Seq<StepModel>,
    filter: FilterModel,
    picture: Picture,
    edge: u32,
)
    requires
        filter_is_held(filter),
        steps_are_held(steps),
    ensures
        under_steps(with_filter(steps, filter), picture, edge) == under_filter(
            filter,
            under_steps(steps, picture, edge),
            edge,
        ),
        steps_are_held(with_filter(steps, filter)),
    decreases filter,
{
    match filter {
        FilterModel::Chain(filters) => {
            lemma_under_with_filters(steps, filters, picture, edge);
        },
        FilterModel::ColorMatrix(matrix) => {
            lemma_under_with_matrix(steps, matrix, picture, edge);
            let after = with_matrix(steps, matrix);
            assert forall|i: int| 0 <= i < after.len() implies step_is_held(
                #[trigger] after[i],
            ) by {
                if i < steps.len() - 1 {
                    assert(after[i] == steps[i]);
                }
            }
        },
        FilterModel::Blur { radius_x, radius_y } => {
            let step = with_filter(steps, filter).last();
            lemma_steps_push(steps, step, picture, edge);
        },
        FilterModel::DropShadow { .. } => {
            let step = with_filter(steps, filter).last();
            lemma_steps_push(steps, step, picture, edge);
        },
    }
}

proof fn lemma_under_with_filters(
    steps: Seq<StepModel>,
    filters: Seq<FilterModel>,
    picture: Picture,
    edge: u32,
)
    requires
        filters_are_held(filters),
        steps_are_held(steps),
    ensures
        under_steps(with_filters(steps, filters), picture, edge) == under_filters(
            filters,
            under_steps(steps, picture, edge),
            edge,
        ),
        steps_are_held(with_filters(steps, filters)),
    decreases filters,
{
    if filters.len() > 0 {
        lemma_under_with_filters(steps, filters.drop_last(), picture, edge);
        lemma_under_with_filter(
            with_filters(steps, filters.drop_last()),
            filters.last(),
            picture,
            edge,
        );
    }
}

proof fn lemma_under_without_still(steps: Seq<StepModel>, picture: Picture, edge: u32)
    requires
        steps_are_held(steps),
    ensures
        under_steps(without_still(steps), picture, edge) == under_steps(steps, picture, edge),
        steps_are_held(without_still(steps)),
    decreases steps.len(),
{
    if steps.len() > 0 {
        let rest = steps.drop_last();
        assert forall|i: int| 0 <= i < rest.len() implies step_is_held(#[trigger] rest[i]) by {
            assert(rest[i] == steps[i]);
        }
        lemma_under_without_still(rest, picture, edge);
        assert(step_is_held(steps[steps.len() - 1]));
        if !steps.last().is_still() {
            lemma_steps_push(without_still(rest), steps.last(), picture, edge);
            let kept = without_still(steps);
            assert forall|i: int| 0 <= i < kept.len() implies step_is_held(#[trigger] kept[i]) by {
                if i < without_still(rest).len() {
                    assert(kept[i] == without_still(rest)[i]);
                }
            }
        }
    }
}

/// The steps a filter compiles to make of a picture what the filter makes of it:
/// every filter of a chain after the one before it, each colour matrix on its
/// own.
pub proof fn steps_do_what_the_filter_does(filter: FilterModel, picture: Picture, edge: u32)
    requires
        filter_is_held(filter),
    ensures
        under_steps(steps_of(filter), picture, edge) == under_filter(filter, picture, edge),
        steps_are_held(steps_of(filter)),
{
    let none = Seq::<StepModel>::empty();
    lemma_under_with_filter(none, filter, picture, edge);
    lemma_under_without_still(with_filter(none, filter), picture, edge);
}

/// What one pass shows.
proof fn lemma_pass_shows(
    plan: PlanModel,
    rect: DeviceRect,
    pipeline: FilterPipeline,
    pass: FilterPass,
    matrices: Seq<[i64; 20]>,
    source: Texture,
    blurred: Texture,
)
    requires
        plan.scratch.in_use.len() == MAX_FILTER_SCRATCH,
    ensures
        ({
            let (after, image) = plan.passed(rect, pipeline, pass, matrices, source, blurred);
            let before = gpu_after(plan.commands);
            let now = gpu_after(after.commands);
            &&& leaves_alone(plan.scratch.in_use, before, now)
            &&& image matches Some(image) ==> image.rect == rect && shows(
                now,
                image,
                filtered_by(
                    before.held[source],
                    before.held[blurred],
                    pipeline,
                    pass,
                    matrices,
                    image,
                ),
            )
        }),
{
    lemma_acquires(plan, rect);
    let (got, image) = plan.acquired(rect);
    assert(got.commands == plan.commands);
    if let Some(destination) = image {
        let command = CommandModel::Filter {
            pipeline,
            pass,
            matrices,
            source,
            blurred,
            destination,
        };
        lemma_gpu_emits(got, command);
    }
}

proof fn lemma_blur_reads_the_tail(
    size: Size<DevicePixels>,
    sigma: i64,
    direction: Point<i64>,
    edge: FilterEdge,
)
    ensures
        reads_the_tail(FilterPass::blurring(size, sigma, direction, edge)),
{
    blur_passes_reach_the_tail(sigma as int);
    let (taps, stride) = (taps_of(sigma as int), stride_of(sigma as int));
    let reach = reach_of(sigma as int);
    assert(stride <= i32::MAX);
    assert(reach == i32::MAX || reach * ONE >= 3 * sigma);
    if reach * ONE >= 3 * sigma {
        assert(taps * stride * ONE >= reach * ONE) by (nonlinear_arith)
            requires
                taps * stride >= reach,
                ONE > 0,
        ;
    }
}

proof fn lemma_smear_shows(
    plan: PlanModel,
    from: FilterImage,
    sigma: i64,
    direction: Point<i64>,
    edge: FilterEdge,
    picture: Picture,
)
    requires
        plan.scratch.in_use.len() == MAX_FILTER_SCRATCH,
        shows(gpu_after(plan.commands), from, picture),
    ensures
        ({
            let (after, image) = plan.smeared(from.rect, from, sigma, direction, edge);
            let now = gpu_after(after.commands);
            &&& leaves_alone(plan.scratch.in_use, gpu_after(plan.commands), now)
            &&& image matches Some(image) ==> image.rect == from.rect && shows(
                now,
                image,
                Picture::Blurred {
                    of: Box::new(picture),
                    sigma,
                    direction,
                    edge: edge.code(),
                },
            )
        }),
{
    let pass = FilterPass::blurring(from.extent(), sigma, direction, edge);
    lemma_pass_shows(
        plan,
        from.rect,
        FilterPipeline::Blur,
        pass,
        Seq::empty(),
        from.texture,
        from.texture,
    );
    lemma_blur_reads_the_tail(from.extent(), sigma, direction, edge);
}

/// Work that leaves alone what was not free, and then work that leaves alone
/// what was not free by then, where nothing was given back between.
pub proof fn lemma_leaves_alone_joins(first: Seq<bool>, second: Seq<bool>, a: Gpu, b: Gpu, c: Gpu)
    requires
        leaves_alone(first, a, b),
        leaves_alone(second, b, c),
        first.len() == second.len(),
        forall|i: int| 0 <= i < first.len() && first[i] ==> #[trigger] second[i],
    ensures
        leaves_alone(first, a, c),
{
    assert forall|texture: Texture| !is_free(first, texture) implies
        #[trigger] c.held[texture] == a.held[texture] by {
        assert(!is_free(second, texture));
        assert(c.held[texture] == b.held[texture]);
    }
}

proof fn lemma_blur_shows(
    plan: PlanModel,
    source: FilterImage,
    sigma_x: i64,
    sigma_y: i64,
    edge: FilterEdge,
    picture: Picture,
)
    requires
        plan.scratch.in_use.len() == MAX_FILTER_SCRATCH,
        is_held(plan.scratch.in_use, source),
        taken(plan.scratch.in_use) <= 3,
        shows(gpu_after(plan.commands), source, picture),
        plan.blurred(source, sigma_x, sigma_y, edge).0.scratch.targets.reported is None,
    ensures
        ({
            let (after, image) = plan.blurred(source, sigma_x, sigma_y, edge);
            let now = gpu_after(after.commands);
            &&& leaves_alone(plan.scratch.in_use, gpu_after(plan.commands), now)
            &&& (image is Some) == (sigma_x > 0 || sigma_y > 0)
            &&& image matches Some(image) ==> image.rect == source.rect && shows(
                now,
                image,
                blurred_by(picture, sigma_x as int, sigma_y as int, edge.code()),
            )
        }),
{
    let slots = plan.scratch.in_use;
    let start = gpu_after(plan.commands);
    let (across, first) = if sigma_x > 0 {
        plan.smeared(source.rect, source, sigma_x, rightwards(), edge)
    } else {
        (plan, None)
    };
    lemma_some_are_free(slots);
    if sigma_x > 0 {
        lemma_smears(plan, source.rect, source, sigma_x, rightwards(), edge);
        lemma_smear_shows(plan, source, sigma_x, rightwards(), edge, picture);
    }
    if !(sigma_x > 0 && first is None || sigma_y <= 0) {
        let from = match first {
            None => source,
            Some(image) => image,
        };
        let shown = if sigma_x > 0 {
            Picture::Blurred {
                of: Box::new(picture),
                sigma: sigma_x,
                direction: rightwards(),
                edge: edge.code(),
            }
        } else {
            picture
        };
        lemma_smears(across, source.rect, from, sigma_y, downwards(), edge);
        lemma_smear_shows(across, from, sigma_y, downwards(), edge, shown);
        let (down, second) = across.smeared(source.rect, from, sigma_y, downwards(), edge);
        if let Some(image) = first {
            lemma_taken(slots, image.slot->0 as int);
            lemma_some_are_free(across.scratch.in_use);
        }
        lemma_leaves_alone_joins(
            slots,
            across.scratch.in_use,
            start,
            gpu_after(across.commands),
            gpu_after(down.commands),
        );
        assert(second is Some);
    }
}

proof fn lemma_shadow_shows(
    plan: PlanModel,
    source: FilterImage,
    offset: Point<i64>,
    sigma: i64,
    color: Hsla,
    edge: FilterEdge,
    picture: Picture,
)
    requires
        plan.scratch.in_use.len() == MAX_FILTER_SCRATCH,
        is_held(plan.scratch.in_use, source),
        taken(plan.scratch.in_use) <= 3,
        shows(gpu_after(plan.commands), source, picture),
        plan.shadowed(source, offset, sigma, color, edge).0.scratch.targets.reported is None,
    ensures
        ({
            let (after, image) = plan.shadowed(source, offset, sigma, color, edge);
            let now = gpu_after(after.commands);
            &&& leaves_alone(plan.scratch.in_use, gpu_after(plan.commands), now)
            &&& image matches Some(image) && image.rect == source.rect && shows(
                now,
                image,
                Picture::Shadowed {
                    of: Box::new(picture),
                    silhouette: Box::new(blurred_by(picture, sigma as int, sigma as int, 0)),
                    offset,
                    color,
                    edge: edge.code(),
                },
            )
        }),
{
    let slots = plan.scratch.in_use;
    let start = gpu_after(plan.commands);
    lemma_some_are_free(slots);
    let (spread, blurred) = if sigma > 0 {
        plan.blurred(source, sigma, sigma, FilterEdge::Transparent)
    } else {
        (plan, None)
    };
    let pass = FilterPass { offset, color, ..FilterPass::plain(source.extent(), edge) };
    let silhouette = match blurred {
        None => source.texture,
        Some(image) => image.texture,
    };
    let (drawn, image) = spread.passed(
        source.rect,
        FilterPipeline::DropShadow,
        pass,
        Seq::empty(),
        source.texture,
        silhouette,
    );
    if sigma > 0 {
        lemma_blurs(plan, source, sigma, sigma, FilterEdge::Transparent);
    }
    lemma_acquires(spread, source.rect);
    assert(spread.scratch.targets.reported is None);
    if sigma > 0 {
        lemma_blur_shows(plan, source, sigma, sigma, FilterEdge::Transparent, picture);
        lemma_taken(slots, (blurred->0).slot->0 as int);
        lemma_some_are_free(spread.scratch.in_use);
    }
    lemma_pass_shows(
        spread,
        source.rect,
        FilterPipeline::DropShadow,
        pass,
        Seq::empty(),
        source.texture,
        silhouette,
    );
    lemma_leaves_alone_joins(
        slots,
        spread.scratch.in_use,
        start,
        gpu_after(spread.commands),
        gpu_after(drawn.commands),
    );
}

/// What one step of a filter shows.
proof fn lemma_step_shows(
    plan: PlanModel,
    step: StepModel,
    source: FilterImage,
    edge: FilterEdge,
    picture: Picture,
)
    requires
        plan.scratch.in_use.len() == MAX_FILTER_SCRATCH,
        is_held(plan.scratch.in_use, source),
        taken(plan.scratch.in_use) <= 3,
        shows(gpu_after(plan.commands), source, picture),
        step_is_held(step),
        !step.is_still(),
        plan.stepped(step, source, edge).0.scratch.targets.reported is None,
    ensures
        ({
            let (after, image) = plan.stepped(step, source, edge);
            let now = gpu_after(after.commands);
            &&& leaves_alone(plan.scratch.in_use, gpu_after(plan.commands), now)
            &&& image matches Some(image) && image.rect == source.rect && shows(
                now,
                image,
                under_step(step, picture, edge.code()),
            )
        }),
{
    reveal(PlanModel::stepped);
    match step {
        StepModel::Matrices(matrices) => {
            lemma_some_are_free(plan.scratch.in_use);
            lemma_acquires(plan, source.rect);
            lemma_pass_shows(
                plan,
                source.rect,
                FilterPipeline::Matrices,
                FilterPass::plain(source.extent(), edge),
                matrices,
                source.texture,
                source.texture,
            );
        },
        StepModel::Blur { sigma_x, sigma_y } => {
            lemma_blur_shows(plan, source, sigma_x as i64, sigma_y as i64, edge, picture);
        },
        StepModel::DropShadow { offset_x, offset_y, sigma, color } => {
            lemma_shadow_shows(
                plan,
                source,
                Point { x: offset_x as i64, y: offset_y as i64 },
                sigma as i64,
                color,
                edge,
                picture,
            );
        },
    }
}

/// Whether every step moves something.
pub open spec fn none_are_still(steps: Seq<StepModel>) -> bool {
    forall|i: int| 0 <= i < steps.len() ==> !(#[trigger] steps[i]).is_still()
}

pub proof fn lemma_none_are_still(steps: Seq<StepModel>)
    ensures
        none_are_still(without_still(steps)),
    decreases steps.len(),
{
    if steps.len() > 0 {
        lemma_none_are_still(steps.drop_last());
        let rest = without_still(steps.drop_last());
        let kept = without_still(steps);
        assert forall|i: int| 0 <= i < kept.len() implies !(#[trigger] kept[i]).is_still() by {
            if i < rest.len() {
                assert(kept[i] == rest[i]);
            }
        }
    }
}

proof fn lemma_first_step_first(steps: Seq<StepModel>, picture: Picture, edge: u32)
    requires
        steps.len() > 0,
    ensures
        under_steps(steps, picture, edge) == under_steps(
            steps.skip(1),
            under_step(steps[0], picture, edge),
            edge,
        ),
    decreases steps.len(),
{
    let rest = steps.drop_last();
    if rest.len() == 0 {
        assert(under_steps(rest, picture, edge) == picture);
        assert(steps.skip(1).len() == 0);
    } else {
        lemma_first_step_first(rest, picture, edge);
        assert(rest.skip(1) =~= steps.skip(1).drop_last());
        assert(steps.skip(1).last() == steps.last());
    }
}

pub proof fn lemma_given_back(in_use: Seq<bool>, slot: int)
    requires
        0 <= slot < in_use.len(),
        in_use[slot],
    ensures
        taken(in_use.update(slot, false)) + 1 == taken(in_use),
{
    let freed = in_use.update(slot, false);
    lemma_taken(freed, slot);
    assert(freed.update(slot, true) =~= in_use);
}

/// What a filter's steps show: the last image shows the picture with every step
/// applied, first to last.
pub proof fn lemma_filter_shows(
    plan: PlanModel,
    steps: Seq<StepModel>,
    input: FilterImage,
    edge: FilterEdge,
    picture: Picture,
)
    requires
        plan.scratch.in_use.len() == MAX_FILTER_SCRATCH,
        is_held(plan.scratch.in_use, input),
        owns_its_slot(input),
        taken(plan.scratch.in_use) <= if input.slot is None {
            2int
        } else {
            3
        },
        shows(gpu_after(plan.commands), input, picture),
        steps_are_held(steps),
        none_are_still(steps),
        plan.filtered(steps, input, edge).0.scratch.targets.reported is None,
    ensures
        ({
            let (after, image) = plan.filtered(steps, input, edge);
            let now = gpu_after(after.commands);
            &&& leaves_alone(
                plan.released(input).scratch.in_use,
                gpu_after(plan.commands),
                now,
            )
            &&& image.rect == input.rect
            &&& shows(now, image, under_steps(steps, picture, edge.code()))
        }),
    decreases steps.len(),
{
    if steps.len() > 0 {
        let slots = plan.scratch.in_use;
        let start = gpu_after(plan.commands);
        lemma_steps(plan, steps[0], input, edge);
        let (mid, next) = plan.stepped(steps[0], input, edge);
        let freed = mid.released(input);
        let rest = steps.skip(1);
        assert(step_is_held(steps[0]));
        if let Some(image) = next {
            lemma_releases(mid, input);
            lemma_filters(freed, rest, image, edge);
        }
        assert(mid.scratch.targets.reported is None);
        lemma_step_shows(plan, steps[0], input, edge, picture);
        let image = next->0;
        let slot = image.slot->0 as int;
        lemma_taken(slots, slot);
        if let Some(old_slot) = input.slot {
            assert(mid.scratch.in_use[old_slot as int]);
            lemma_given_back(mid.scratch.in_use, old_slot as int);
        }
        assert forall|i: int| 0 <= i < rest.len() implies step_is_held(#[trigger] rest[i]) by {
            assert(rest[i] == steps[i + 1]);
        }
        assert forall|i: int| 0 <= i < rest.len() implies !(#[trigger] rest[i]).is_still() by {
            assert(rest[i] == steps[i + 1]);
        }
        let shown = under_step(steps[0], picture, edge.code());
        lemma_filter_shows(freed, rest, image, edge, shown);
        lemma_first_step_first(steps, picture, edge.code());
        let released = plan.released(input).scratch.in_use;
        assert(freed.released(image).scratch.in_use =~= released);
        let between = gpu_after(mid.commands);
        assert(leaves_alone(released, start, between)) by {
            assert forall|texture: Texture| !is_free(released, texture) implies
                #[trigger] between.held[texture] == start.held[texture] by {
                assert(!is_free(slots, texture));
            }
        }
        let (after, _) = plan.filtered(steps, input, edge);
        lemma_leaves_alone_joins(
            released,
            released,
            start,
            between,
            gpu_after(after.commands),
        );
    }
}

} // verus!
