//! What a frame draws, as a list of commands, and the filters among them.

use crate::color::Hsla;
use crate::geometry::{DevicePixels, Point, Size};
use crate::renderer::compose::{GroupComposeMode, GroupComposite, RenderTarget};
use crate::renderer::extent::DeviceRect;
use crate::renderer::filter_ops::{
    blur_passes_reach_the_tail, blur_reach, ops_view, reach_of, stride_of, FilterEdge, FilterOp,
    FilterPass, FilterPipeline, GroupFilter, StepModel,
};
use crate::renderer::notice::Notice;
use crate::renderer::scratch::{FilterImage, FilterScratch, ScratchModel};
use crate::renderer::targets::{GroupTargets, TargetsModel, Texture, GROUP_TARGET_BUDGET_BYTES};
use crate::scene::batch::{BatchModel, PrimitiveBatch};
use core::ops::Range;
use vstd::prelude::*;

verus! {

/// What a pass finds on its attachment.
#[derive(Clone, Copy, Debug, PartialEq, Eq, Structural)]
pub enum Clear {
    /// What was drawn there before.
    Keep,
    /// Nothing.
    Transparent,
    /// The window's background: black, and opaque where the window is.
    Window,
}

/// The attachment that a pass draws into, and where it sits in the window.
#[derive(Clone, Copy, Debug, PartialEq, Eq)]
pub struct ActiveTarget {
    pub texture: Texture,
    pub texture_size: Size<DevicePixels>,
    pub render_target: RenderTarget,
    /// Whether this is the frame's own target. A window's drawable may refuse
    /// to be read; a group's target never does.
    pub is_window: bool,
}

/// One thing that a frame has the GPU do.
#[derive(Debug)]
pub enum Command {
    /// Start drawing into a target.
    BeginPass { target: ActiveTarget, clear: Clear },
    /// Stop drawing into the target.
    EndPass,
    /// Draw a batch into the target.
    Draw { batch: PrimitiveBatch, clipped: bool },
    /// Rasterize paths into the intermediate texture, in a pass of its own.
    RasterizePaths { paths: Range<usize>, clipped: bool },
    /// Copy the rasterized paths into the target.
    CopyPaths { paths: Range<usize> },
    /// Draw a filter's pass, in a pass of its own.
    Filter {
        pipeline: FilterPipeline,
        pass: FilterPass,
        matrices: GroupFilter,
        source: Texture,
        blurred: Texture,
        destination: FilterImage,
    },
    /// Copy a stretch of a target out of it.
    CopyBackdrop { from: Texture, origin: Point<i32>, to: FilterImage },
    /// Lay a group's picture on the target underneath it.
    Composite {
        compose: GroupComposeMode,
        clipped: bool,
        composite: GroupComposite,
        filter: GroupFilter,
        source: Texture,
        /// The copy of the backdrop, and what the filter made of it.
        backdrop: Option<(Texture, Texture)>,
    },
}

/// A command, as what it says.
pub enum CommandModel {
    BeginPass { target: ActiveTarget, clear: Clear },
    EndPass,
    Draw { batch: BatchModel, clipped: bool },
    RasterizePaths { start: int, end: int, clipped: bool },
    CopyPaths { start: int, end: int },
    Filter {
        pipeline: FilterPipeline,
        pass: FilterPass,
        matrices: Seq<[i64; 20]>,
        source: Texture,
        blurred: Texture,
        destination: FilterImage,
    },
    CopyBackdrop { from: Texture, origin: Point<i32>, to: FilterImage },
    Composite {
        compose: GroupComposeMode,
        clipped: bool,
        composite: GroupComposite,
        filter: Seq<[i64; 20]>,
        source: Texture,
        backdrop: Option<(Texture, Texture)>,
    },
}

impl View for Command {
    type V = CommandModel;

    open spec fn view(&self) -> CommandModel {
        match *self {
            Command::BeginPass { target, clear } => CommandModel::BeginPass { target, clear },
            Command::EndPass => CommandModel::EndPass,
            Command::Draw { batch, clipped } => CommandModel::Draw { batch: batch@, clipped },
            Command::RasterizePaths { paths, clipped } => CommandModel::RasterizePaths {
                start: paths.start as int,
                end: paths.end as int,
                clipped,
            },
            Command::CopyPaths { paths } => CommandModel::CopyPaths {
                start: paths.start as int,
                end: paths.end as int,
            },
            Command::Filter { pipeline, pass, matrices, source, blurred, destination } => {
                CommandModel::Filter {
                    pipeline,
                    pass,
                    matrices: matrices@,
                    source,
                    blurred,
                    destination,
                }
            },
            Command::CopyBackdrop { from, origin, to } => CommandModel::CopyBackdrop {
                from,
                origin,
                to,
            },
            Command::Composite { compose, clipped, composite, filter, source, backdrop } => {
                CommandModel::Composite {
                    compose,
                    clipped,
                    composite,
                    filter: filter@,
                    source,
                    backdrop,
                }
            },
        }
    }
}

pub open spec fn commands_view(commands: Seq<Command>) -> Seq<CommandModel> {
    commands.map_values(|command: Command| command@)
}

/// The textures that groups and filters draw into, and the commands of the
/// frame so far.
#[derive(Debug)]
pub struct FramePlan {
    pub targets: GroupTargets,
    pub scratch: FilterScratch,
    pub commands: Vec<Command>,
}

/// A frame's plan, as what it says.
#[verifier::ext_equal]
pub struct PlanModel {
    pub targets: TargetsModel,
    pub scratch: ScratchModel,
    pub commands: Seq<CommandModel>,
}

impl View for FramePlan {
    type V = PlanModel;

    open spec fn view(&self) -> PlanModel {
        PlanModel {
            targets: self.targets@,
            scratch: self.scratch@,
            commands: commands_view(self.commands@),
        }
    }
}

pub open spec fn rightwards() -> Point<i64> {
    Point { x: 1, y: 0 }
}

pub open spec fn downwards() -> Point<i64> {
    Point { x: 0, y: 1 }
}

impl PlanModel {
    pub open spec fn wf(self) -> bool {
        &&& self.targets.wf(GROUP_TARGET_BUDGET_BYTES as int)
        &&& self.targets.is_counting()
        &&& self.scratch.wf()
    }

    pub open spec fn emitted(self, command: CommandModel) -> PlanModel {
        PlanModel { commands: self.commands.push(command), ..self }
    }

    pub open spec fn having_said(self, notice: Notice) -> PlanModel {
        PlanModel { targets: self.targets.having_said(notice), ..self }
    }

    pub open spec fn acquired(self, rect: DeviceRect) -> (PlanModel, Option<FilterImage>) {
        let (scratch, image) = self.scratch.acquired(rect);
        (PlanModel { scratch, ..self }, image)
    }

    pub open spec fn released(self, image: FilterImage) -> PlanModel {
        PlanModel { scratch: self.scratch.released(image), ..self }
    }

    pub open spec fn released_if(self, image: Option<FilterImage>) -> PlanModel {
        match image {
            None => self,
            Some(image) => self.released(image),
        }
    }

    /// One pass of a filter from `source` into a texture of its own: the plan
    /// after it, and the image it writes, where there is room for one.
    pub open spec fn passed(
        self,
        rect: DeviceRect,
        pipeline: FilterPipeline,
        pass: FilterPass,
        matrices: Seq<[i64; 20]>,
        source: Texture,
        blurred: Texture,
    ) -> (PlanModel, Option<FilterImage>) {
        let (plan, image) = self.acquired(rect);
        match image {
            None => (plan, None),
            Some(destination) => (
                plan.emitted(
                    CommandModel::Filter { pipeline, pass, matrices, source, blurred, destination },
                ),
                Some(destination),
            ),
        }
    }

    /// A run of colour matrices.
    pub open spec fn recoloured(
        self,
        source: FilterImage,
        matrices: Seq<[i64; 20]>,
        edge: FilterEdge,
    ) -> (PlanModel, Option<FilterImage>) {
        self.passed(
            source.rect,
            FilterPipeline::Matrices,
            FilterPass::plain(source.extent(), edge),
            matrices,
            source.texture,
            source.texture,
        )
    }

    /// One direction of a blur of `from`, into an image over `rect`.
    pub open spec fn smeared(
        self,
        rect: DeviceRect,
        from: FilterImage,
        sigma: i64,
        direction: Point<i64>,
        edge: FilterEdge,
    ) -> (PlanModel, Option<FilterImage>) {
        let (plan, image) = self.passed(
            rect,
            FilterPipeline::Blur,
            FilterPass::blurring(from.extent(), sigma, direction, edge),
            Seq::empty(),
            from.texture,
            from.texture,
        );
        if image is Some && stride_of(sigma as int) > 1 {
            (
                plan.having_said(
                    Notice::CoarseBlur {
                        sigma,
                        tail: reach_of(sigma as int) as i32,
                        stride: stride_of(sigma as int) as i32,
                    },
                ),
                image,
            )
        } else {
            (plan, image)
        }
    }

    /// A blur: one direction after the other. Where there is no room for the
    /// second, the image is blurred along the first alone.
    pub open spec fn blurred(
        self,
        source: FilterImage,
        sigma_x: i64,
        sigma_y: i64,
        edge: FilterEdge,
    ) -> (PlanModel, Option<FilterImage>) {
        let (across, first) = if sigma_x > 0 {
            self.smeared(source.rect, source, sigma_x, rightwards(), edge)
        } else {
            (self, None)
        };
        if sigma_x > 0 && first is None || sigma_y <= 0 {
            (across, first)
        } else {
            let from = match first {
                None => source,
                Some(image) => image,
            };
            let (down, second) = across.smeared(source.rect, from, sigma_y, downwards(), edge);
            match second {
                None => (down, first),
                Some(_) => (down.released_if(first), second),
            }
        }
    }

    /// A drop shadow: the source over its own alpha, blurred, moved and tinted.
    pub open spec fn shadowed(
        self,
        source: FilterImage,
        offset: Point<i64>,
        sigma: i64,
        color: Hsla,
        edge: FilterEdge,
    ) -> (PlanModel, Option<FilterImage>) {
        let (plan, blurred) = if sigma > 0 {
            self.blurred(source, sigma, sigma, FilterEdge::Transparent)
        } else {
            (self, None)
        };
        if sigma > 0 && blurred is None {
            (plan, None)
        } else {
            let (after, image) = plan.passed(
                source.rect,
                FilterPipeline::DropShadow,
                FilterPass { offset, color, ..FilterPass::plain(source.extent(), edge) },
                Seq::empty(),
                source.texture,
                match blurred {
                    None => source.texture,
                    Some(blurred) => blurred.texture,
                },
            );
            (after.released_if(blurred), image)
        }
    }

    /// One step of a filter.
    #[verifier::opaque]
    pub open spec fn stepped(self, step: StepModel, source: FilterImage, edge: FilterEdge) -> (
        PlanModel,
        Option<FilterImage>,
    ) {
        match step {
            StepModel::Matrices(matrices) => self.recoloured(source, matrices, edge),
            StepModel::Blur { sigma_x, sigma_y } => self.blurred(
                source,
                sigma_x as i64,
                sigma_y as i64,
                edge,
            ),
            StepModel::DropShadow { offset_x, offset_y, sigma, color } => self.shadowed(
                source,
                Point { x: offset_x as i64, y: offset_y as i64 },
                sigma as i64,
                color,
                edge,
            ),
        }
    }

    /// A filter's steps, one image at a time, and the last image. A step that
    /// there is no room for ends the filter where it is.
    pub open spec fn filtered(
        self,
        steps: Seq<StepModel>,
        input: FilterImage,
        edge: FilterEdge,
    ) -> (PlanModel, FilterImage)
        decreases steps.len(),
    {
        if steps.len() == 0 {
            (self, input)
        } else {
            let (plan, next) = self.stepped(steps[0], input, edge);
            match next {
                None => (plan, input),
                Some(image) => plan.released(input).filtered(steps.skip(1), image, edge),
            }
        }
    }
}

impl FramePlan {
    pub(crate) fn emit(&mut self, command: Command)
        ensures
            final(self)@ == old(self)@.emitted(command@),
            old(self)@.wf() ==> final(self)@.wf(),
    {
        let ghost before = commands_view(self.commands@);
        self.commands.push(command);
        assert(commands_view(self.commands@) =~= before.push(command@));
    }

    pub(crate) fn report(&mut self, notice: Notice)
        ensures
            final(self)@ == old(self)@.having_said(notice),
            old(self)@.wf() ==> final(self)@.wf(),
    {
        self.targets.report(notice);
    }

    pub(crate) fn release(&mut self, image: &FilterImage)
        requires
            old(self)@.wf(),
            image.wf(),
        ensures
            final(self)@ == old(self)@.released(*image),
            final(self)@.wf(),
    {
        self.scratch.release(image);
    }

    fn release_if(&mut self, image: &Option<FilterImage>)
        requires
            old(self)@.wf(),
            image matches Some(image) ==> image.wf(),
        ensures
            final(self)@ == old(self)@.released_if(*image),
            final(self)@.wf(),
    {
        if let Some(image) = image {
            self.release(image);
        }
    }

    fn draw_filter_pass(
        &mut self,
        rect: DeviceRect,
        pipeline: FilterPipeline,
        pass: FilterPass,
        matrices: GroupFilter,
        source: Texture,
        blurred: Texture,
    ) -> (r: Option<FilterImage>)
        requires
            old(self)@.wf(),
            rect.width <= i32::MAX - 255,
            rect.height <= i32::MAX - 255,
        ensures
            (final(self)@, r) == old(self)@.passed(rect, pipeline, pass, matrices@, source, blurred),
            final(self)@.wf(),
            r matches Some(image) ==> image.wf() && image.rect == rect,
    {
        match self.scratch.acquire(rect) {
            None => None,
            Some(destination) => {
                self.emit(
                    Command::Filter { pipeline, pass, matrices, source, blurred, destination },
                );
                Some(destination)
            },
        }
    }

    fn run_matrix_pass(&mut self, source: &FilterImage, matrices: &GroupFilter, edge: FilterEdge)
        -> (r: Option<FilterImage>)
        requires
            old(self)@.wf(),
            source.wf(),
        ensures
            (final(self)@, r) == old(self)@.recoloured(*source, matrices@, edge),
            final(self)@.wf(),
            r matches Some(image) ==> image.wf() && image.rect == source.rect,
    {
        self.draw_filter_pass(
            source.rect,
            FilterPipeline::Matrices,
            FilterPass::new(source.size(), edge),
            *matrices,
            source.texture,
            source.texture,
        )
    }

    fn blur_pass(
        &mut self,
        rect: DeviceRect,
        from: &FilterImage,
        sigma: i64,
        direction: Point<i64>,
        edge: FilterEdge,
    ) -> (r: Option<FilterImage>)
        requires
            old(self)@.wf(),
            rect.width <= i32::MAX - 255,
            rect.height <= i32::MAX - 255,
        ensures
            (final(self)@, r) == old(self)@.smeared(rect, *from, sigma, direction, edge),
            final(self)@.wf(),
            r matches Some(image) ==> image.wf() && image.rect == rect,
    {
        let pass = FilterPass::blur(from.size(), sigma, direction, edge);
        let written = self.draw_filter_pass(
            rect,
            FilterPipeline::Blur,
            pass,
            GroupFilter::none(),
            from.texture,
            from.texture,
        );
        proof {
            blur_passes_reach_the_tail(sigma as int);
        }
        if written.is_some() && pass.stride > 1 {
            self.report(
                Notice::CoarseBlur { sigma, tail: blur_reach(sigma), stride: pass.stride },
            );
        }
        written
    }

    fn run_blur(&mut self, source: &FilterImage, sigma_x: i64, sigma_y: i64, edge: FilterEdge) -> (r:
        Option<FilterImage>)
        requires
            old(self)@.wf(),
            source.wf(),
        ensures
            (final(self)@, r) == old(self)@.blurred(*source, sigma_x, sigma_y, edge),
            final(self)@.wf(),
            r matches Some(image) ==> image.wf() && image.rect == source.rect,
    {
        let mut first: Option<FilterImage> = None;
        if sigma_x > 0 {
            first = self.blur_pass(source.rect, source, sigma_x, Point { x: 1, y: 0 }, edge);
            if first.is_none() {
                return None;
            }
        }
        if sigma_y <= 0 {
            return first;
        }
        let from = match first {
            None => *source,
            Some(image) => image,
        };
        let second = self.blur_pass(source.rect, &from, sigma_y, Point { x: 0, y: 1 }, edge);
        if second.is_none() {
            return first;
        }
        self.release_if(&first);
        second
    }

    fn run_drop_shadow(
        &mut self,
        source: &FilterImage,
        offset: Point<i64>,
        sigma: i64,
        color: Hsla,
        edge: FilterEdge,
    ) -> (r: Option<FilterImage>)
        requires
            old(self)@.wf(),
            source.wf(),
        ensures
            (final(self)@, r) == old(self)@.shadowed(*source, offset, sigma, color, edge),
            final(self)@.wf(),
            r matches Some(image) ==> image.wf() && image.rect == source.rect,
    {
        let mut blurred: Option<FilterImage> = None;
        if sigma > 0 {
            blurred = self.run_blur(source, sigma, sigma, FilterEdge::Transparent);
            if blurred.is_none() {
                return None;
            }
        }
        let mut pass = FilterPass::new(source.size(), edge);
        pass.offset = offset;
        pass.color = color;
        let shadow = match blurred {
            None => source.texture,
            Some(image) => image.texture,
        };
        let written = self.draw_filter_pass(
            source.rect,
            FilterPipeline::DropShadow,
            pass,
            GroupFilter::none(),
            source.texture,
            shadow,
        );
        self.release_if(&blurred);
        written
    }

    fn run_filter_op(&mut self, op: &FilterOp, source: &FilterImage, edge: FilterEdge) -> (r: Option<
        FilterImage,
    >)
        requires
            old(self)@.wf(),
            source.wf(),
        ensures
            (final(self)@, r) == old(self)@.stepped(op@, *source, edge),
            final(self)@.wf(),
            r matches Some(image) ==> image.wf() && image.rect == source.rect,
    {
        reveal(PlanModel::stepped);
        match op {
            FilterOp::Matrices(matrices) => self.run_matrix_pass(source, matrices, edge),
            FilterOp::Blur { sigma_x, sigma_y } => self.run_blur(source, *sigma_x, *sigma_y, edge),
            FilterOp::DropShadow { offset, sigma, color } => self.run_drop_shadow(
                source,
                *offset,
                *sigma,
                *color,
                edge,
            ),
        }
    }

    /// Run the first `count` of a filter's steps, one image at a time, and give
    /// back the last image.
    pub fn run_filter_ops(
        &mut self,
        ops: &Vec<FilterOp>,
        count: usize,
        input: FilterImage,
        edge: FilterEdge,
    ) -> (r: FilterImage)
        requires
            old(self)@.wf(),
            input.wf(),
            count <= ops@.len(),
        ensures
            (final(self)@, r) == old(self)@.filtered(
                ops_view(ops@).take(count as int),
                input,
                edge,
            ),
            final(self)@.wf(),
            r.wf(),
            r.rect == input.rect,
    {
        let ghost steps = ops_view(ops@).take(count as int);
        let ghost whole = self@.filtered(steps, input, edge);
        let mut current = input;
        let mut index: usize = 0;
        assert(steps.skip(0) =~= steps);
        while index < count
            invariant
                self@.wf(),
                current.wf(),
                current.rect == input.rect,
                index <= count <= ops@.len(),
                steps == ops_view(ops@).take(count as int),
                whole == self@.filtered(steps.skip(index as int), current, edge),
                whole == old(self)@.filtered(steps, input, edge),
            decreases count - index,
        {
            proof {
                let rest = steps.skip(index as int);
                assert(rest[0] == ops@[index as int]@);
                assert(rest.skip(1) =~= steps.skip(index + 1));
            }
            match self.run_filter_op(&ops[index], &current, edge) {
                None => {
                    return current;
                },
                Some(next) => {
                    self.release(&current);
                    current = next;
                },
            }
            index += 1;
        }
        assert(steps.skip(index as int).len() == 0);
        current
    }
}

} // verus!
