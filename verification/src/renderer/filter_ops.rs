//! The passes that a filter compiles to.

use crate::color::Hsla;
use crate::fixed::{ceil_of, floor_div, max, min, ONE};
use crate::geometry::{DevicePixels, Point, Size};
use crate::scene::filter::{FilterModel, SceneFilter, GAUSSIAN_BLUR_EXTENT};
use vstd::prelude::*;

verus! {

/// How long a run of colour matrices one pass applies.
pub const MAX_GROUP_COLOR_MATRICES: usize = 8;

/// The most texels one blur pass reads on each side of the texel it writes.
pub const MAX_BLUR_TAPS: i32 = 96;

/// A run of colour matrices that one pass applies, one after another.
#[derive(Clone, Copy, Debug, PartialEq, Eq)]
pub struct GroupFilter {
    /// How many of `matrices` are in use.
    pub matrix_count: u32,
    /// Row-major 4x5 matrices.
    pub matrices: [[i64; 20]; 8],
}

impl GroupFilter {
    pub open spec fn wf(self) -> bool {
        self.matrix_count <= MAX_GROUP_COLOR_MATRICES
    }

    /// The matrices in use.
    pub open spec fn view(&self) -> Seq<[i64; 20]> {
        self.matrices@.take(self.matrix_count as int)
    }

    /// No filter at all: no matrix is in use, and every number is zero.
    pub fn none() -> (r: Self)
        ensures
            r.wf(),
            r@ == Seq::<[i64; 20]>::empty(),
            r.matrix_count == 0,
            forall|i: int, j: int| 0 <= i < 8 && 0 <= j < 20 ==> #[trigger] r.matrices@[i]@[j] == 0,
    {
        let blank: [i64; 20] = [0, 0, 0, 0, 0, 0, 0, 0, 0, 0, 0, 0, 0, 0, 0, 0, 0, 0, 0, 0];
        let filter = GroupFilter {
            matrix_count: 0,
            matrices: [blank, blank, blank, blank, blank, blank, blank, blank],
        };
        assert(filter@ =~= Seq::<[i64; 20]>::empty());
        filter
    }

    /// Add one matrix. Answers whether there was room for it.
    pub fn push(&mut self, matrix: &[i64; 20]) -> (r: bool)
        requires
            old(self).wf(),
        ensures
            final(self).wf(),
            r == (old(self)@.len() < MAX_GROUP_COLOR_MATRICES),
            r ==> final(self)@ == old(self)@.push(*matrix),
            !r ==> *final(self) == *old(self),
    {
        let index: usize = self.matrix_count as usize;
        if index >= MAX_GROUP_COLOR_MATRICES {
            return false;
        }
        self.matrices[index] = *matrix;
        self.matrix_count += 1;
        assert(self@ =~= old(self)@.push(*matrix));
        true
    }
}

/// What a pass reads outside its source.
#[derive(Clone, Copy, Debug, PartialEq, Eq, Structural)]
pub enum FilterEdge {
    /// Transparent black. A group's own picture sits on a transparent canvas,
    /// so a blur near its edge fades to nothing.
    Transparent,
    /// The nearest texel inside. A backdrop is cut out of something larger, so
    /// what lies past its edge is not empty but merely not in the copy.
    Clamp,
}

impl FilterEdge {
    pub open spec fn code(self) -> u32 {
        match self {
            FilterEdge::Transparent => 0,
            FilterEdge::Clamp => 1,
        }
    }

    /// The number a shader knows the edge by.
    pub fn to_code(self) -> (r: u32)
        ensures
            r == self.code(),
    {
        match self {
            FilterEdge::Transparent => 0,
            FilterEdge::Clamp => 1,
        }
    }
}

/// The one quad a filter pass draws. Every pass writes the rectangle that it
/// reads.
#[derive(Clone, Copy, Debug, PartialEq, Eq)]
pub struct FilterPass {
    /// How much of the source texture holds the image.
    pub source_size: Size<DevicePixels>,
    /// Which way a blur runs, in whole texels.
    pub direction: Point<i64>,
    /// A drop shadow's offset.
    pub offset: Point<i64>,
    /// A drop shadow's colour.
    pub color: Hsla,
    /// A blur's standard deviation.
    pub sigma: i64,
    /// How many texels a blur reads on each side of the one it writes.
    pub taps: i32,
    /// How far apart those reads are.
    pub stride: i32,
    /// The code of a [`FilterEdge`].
    pub edge: u32,
}

impl FilterPass {
    pub open spec fn plain(source_size: Size<DevicePixels>, edge: FilterEdge) -> FilterPass {
        FilterPass {
            source_size,
            direction: Point { x: 0, y: 0 },
            offset: Point { x: 0, y: 0 },
            color: Hsla { h: 0, s: 0, l: 0, a: 0 },
            sigma: 0,
            taps: 0,
            stride: 1,
            edge: edge.code(),
        }
    }

    /// A pass over `source_size` texels that neither blurs nor moves anything.
    pub fn new(source_size: Size<DevicePixels>, edge: FilterEdge) -> (r: Self)
        ensures
            r == FilterPass::plain(source_size, edge),
    {
        FilterPass {
            source_size,
            direction: Point { x: 0, y: 0 },
            offset: Point { x: 0, y: 0 },
            color: Hsla { h: 0, s: 0, l: 0, a: 0 },
            sigma: 0,
            taps: 0,
            stride: 1,
            edge: edge.to_code(),
        }
    }

    /// One direction of a blur, as what it says.
    pub open spec fn blurring(
        source_size: Size<DevicePixels>,
        sigma: i64,
        direction: Point<i64>,
        edge: FilterEdge,
    ) -> FilterPass {
        FilterPass {
            direction,
            sigma,
            taps: taps_of(sigma as int) as i32,
            stride: stride_of(sigma as int) as i32,
            ..FilterPass::plain(source_size, edge)
        }
    }

    /// One direction of a blur.
    ///
    /// It reads as far as the tail worth drawing reaches. Past
    /// [`MAX_BLUR_TAPS`] the reach stays and the step widens, which is a
    /// coarser sum of the same integral rather than a shorter one.
    pub fn blur(
        source_size: Size<DevicePixels>,
        sigma: i64,
        direction: Point<i64>,
        edge: FilterEdge,
    ) -> (r: Self)
        ensures
            r == FilterPass::blurring(source_size, sigma, direction, edge),
    {
        let tail: i32 = blur_reach(sigma);
        let stride: i32 = rounded_quotient(tail, MAX_BLUR_TAPS);
        let mut pass = FilterPass::new(source_size, edge);
        pass.direction = direction;
        pass.sigma = sigma;
        pass.taps = rounded_quotient(tail, stride);
        pass.stride = stride;
        pass
    }
}

/// How many whole texels the tail of a blur reaches.
pub open spec fn reach_of(sigma: int) -> int {
    min(max(ceil_of(sigma * GAUSSIAN_BLUR_EXTENT, ONE as int), 1), i32::MAX as int)
}

/// How far apart the reads of a blur are.
pub open spec fn stride_of(sigma: int) -> int {
    (reach_of(sigma) + MAX_BLUR_TAPS - 1) / (MAX_BLUR_TAPS as int)
}

/// How many texels a blur reads on each side.
pub open spec fn taps_of(sigma: int) -> int {
    (reach_of(sigma) + stride_of(sigma) - 1) / stride_of(sigma)
}

/// How many whole texels the tail of a blur reaches.
pub fn blur_reach(sigma: i64) -> (r: i32)
    ensures
        r == reach_of(sigma as int),
        1 <= r,
{
    assert(GAUSSIAN_BLUR_EXTENT == 3);
    assert(sigma * GAUSSIAN_BLUR_EXTENT == sigma * 3) by (nonlinear_arith)
        requires
            GAUSSIAN_BLUR_EXTENT == 3,
    ;
    let wide: i128 = sigma as i128 * 3;
    let texels: i128 = -floor_div(-wide, 65536);
    if texels < 1 {
        1
    } else if texels > i32::MAX as i128 {
        i32::MAX
    } else {
        texels as i32
    }
}

fn rounded_quotient(value: i32, by: i32) -> (r: i32)
    requires
        1 <= value,
        1 <= by,
    ensures
        r == (value + by - 1) / (by as int),
        1 <= r,
{
    proof {
        let v = value as int;
        let b = by as int;
        assert(1 <= (v + b - 1) / b <= v) by (nonlinear_arith)
            requires
                1 <= v,
                1 <= b,
        ;
    }
    ((value as i64 + by as i64 - 1) / by as i64) as i32
}

/// The reads of a blur pass are few enough, and together they reach as far as
/// the blur's tail; a tail that few enough reads can cover is read at every
/// texel.
pub proof fn blur_passes_reach_the_tail(sigma: int)
    ensures
        1 <= taps_of(sigma) <= MAX_BLUR_TAPS,
        1 <= stride_of(sigma),
        taps_of(sigma) * stride_of(sigma) >= reach_of(sigma),
        (taps_of(sigma) - 1) * stride_of(sigma) < reach_of(sigma),
        stride_of(sigma) == 1 <==> reach_of(sigma) <= MAX_BLUR_TAPS,
{
    let reach = reach_of(sigma);
    let stride = stride_of(sigma);
    let taps = taps_of(sigma);
    assert(MAX_BLUR_TAPS == 96);
    assert(1 <= stride && reach <= 96 * stride);
    assert(1 <= taps <= 96) by (nonlinear_arith)
        requires
            1 <= reach,
            1 <= stride,
            reach <= 96 * stride,
            taps == (reach + stride - 1) / stride,
    ;
    assert(taps * stride >= reach && (taps - 1) * stride < reach) by (nonlinear_arith)
        requires
            1 <= reach,
            1 <= stride,
            taps == (reach + stride - 1) / stride,
    ;
}

/// The shapes a filter pass takes.
#[derive(Clone, Copy, Debug, PartialEq, Eq, Hash, Structural)]
pub enum FilterPipeline {
    Blur,
    Matrices,
    DropShadow,
}

impl FilterPipeline {
    pub open spec fn function(self) -> Seq<char> {
        match self {
            FilterPipeline::Blur => "filter_blur_fragment"@,
            FilterPipeline::Matrices => "filter_matrix_fragment"@,
            FilterPipeline::DropShadow => "filter_drop_shadow_fragment"@,
        }
    }

    /// The name of the shader function that draws such a pass.
    pub fn fragment_function(self) -> (r: &'static str)
        ensures
            r@ == self.function(),
    {
        match self {
            FilterPipeline::Blur => "filter_blur_fragment",
            FilterPipeline::Matrices => "filter_matrix_fragment",
            FilterPipeline::DropShadow => "filter_drop_shadow_fragment",
        }
    }
}

/// One step of a filter, with each run of adjacent colour matrices as a single
/// step.
///
/// Such a run is not multiplied together: the matrices are applied one at a
/// time, with colours clamped in between. It only costs one pass rather than
/// one pass each.
#[derive(Clone, Copy, Debug)]
pub enum FilterOp {
    Matrices(GroupFilter),
    Blur { sigma_x: i64, sigma_y: i64 },
    DropShadow { offset: Point<i64>, sigma: i64, color: Hsla },
}

/// A step of a filter, as what it says.
pub enum StepModel {
    Matrices(Seq<[i64; 20]>),
    Blur { sigma_x: int, sigma_y: int },
    DropShadow { offset_x: int, offset_y: int, sigma: int, color: Hsla },
}

impl View for FilterOp {
    type V = StepModel;

    open spec fn view(&self) -> StepModel {
        match *self {
            FilterOp::Matrices(matrices) => StepModel::Matrices(matrices@),
            FilterOp::Blur { sigma_x, sigma_y } => StepModel::Blur {
                sigma_x: sigma_x as int,
                sigma_y: sigma_y as int,
            },
            FilterOp::DropShadow { offset, sigma, color } => StepModel::DropShadow {
                offset_x: offset.x as int,
                offset_y: offset.y as int,
                sigma: sigma as int,
                color,
            },
        }
    }
}

pub open spec fn ops_view(ops: Seq<FilterOp>) -> Seq<StepModel> {
    ops.map_values(|op: FilterOp| op@)
}

impl FilterOp {
    pub open spec fn wf(self) -> bool {
        self matches FilterOp::Matrices(matrices) ==> matrices.wf()
    }
}

pub open spec fn ops_wf(ops: Seq<FilterOp>) -> bool {
    forall|i: int| 0 <= i < ops.len() ==> (#[trigger] ops[i]).wf()
}

impl StepModel {
    /// Whether the step is a blur that moves nothing.
    pub open spec fn is_still(self) -> bool {
        match self {
            StepModel::Blur { sigma_x, sigma_y } => sigma_x <= 0 && sigma_y <= 0,
            _ => false,
        }
    }
}

/// The steps with one more colour matrix: in the last step where that is a run
/// of matrices with room, else in a step of its own.
pub open spec fn with_matrix(steps: Seq<StepModel>, matrix: [i64; 20]) -> Seq<StepModel> {
    if steps.len() > 0 && steps.last() is Matrices && steps.last()->Matrices_0.len()
        < MAX_GROUP_COLOR_MATRICES {
        steps.drop_last().push(StepModel::Matrices(steps.last()->Matrices_0.push(matrix)))
    } else {
        steps.push(StepModel::Matrices(seq![matrix]))
    }
}

/// The steps with those of one more filter.
pub open spec fn with_filter(steps: Seq<StepModel>, filter: FilterModel) -> Seq<StepModel>
    decreases filter,
{
    match filter {
        FilterModel::ColorMatrix(matrix) => with_matrix(steps, matrix),
        FilterModel::Blur { radius_x, radius_y } => steps.push(
            StepModel::Blur { sigma_x: max(radius_x, 0), sigma_y: max(radius_y, 0) },
        ),
        FilterModel::DropShadow { offset_x, offset_y, radius, color } => steps.push(
            StepModel::DropShadow { offset_x, offset_y, sigma: max(radius, 0), color },
        ),
        FilterModel::Chain(filters) => with_filters(steps, filters),
    }
}

pub open spec fn with_filters(steps: Seq<StepModel>, filters: Seq<FilterModel>) -> Seq<StepModel>
    decreases filters,
{
    if filters.len() == 0 {
        steps
    } else {
        with_filter(with_filters(steps, filters.drop_last()), filters.last())
    }
}

/// The steps without the blurs that move nothing.
pub open spec fn without_still(steps: Seq<StepModel>) -> Seq<StepModel>
    decreases steps.len(),
{
    if steps.len() == 0 {
        steps
    } else if steps.last().is_still() {
        without_still(steps.drop_last())
    } else {
        without_still(steps.drop_last()).push(steps.last())
    }
}

/// The steps that a filter compiles to.
pub open spec fn steps_of(filter: FilterModel) -> Seq<StepModel> {
    without_still(with_filter(Seq::empty(), filter))
}

fn push_matrix(ops: &mut Vec<FilterOp>, matrix: &[i64; 20])
    requires
        ops_wf(old(ops)@),
    ensures
        ops_wf(final(ops)@),
        ops_view(final(ops)@) == with_matrix(ops_view(old(ops)@), *matrix),
{
    let ghost before = ops@;
    let ghost steps = ops_view(ops@);
    if ops.len() > 0 {
        let last = ops[ops.len() - 1];
        assert(steps.last() == last@);
        assert(ops@[ops@.len() - 1].wf());
        if let FilterOp::Matrices(matrices) = last {
            let mut matrices = matrices;
            if matrices.push(matrix) {
                let at: usize = ops.len() - 1;
                ops.set(at, FilterOp::Matrices(matrices));
                assert(ops_view(ops@) =~= with_matrix(steps, *matrix));
                return;
            }
        }
    }
    let mut matrices = GroupFilter::none();
    matrices.push(matrix);
    ops.push(FilterOp::Matrices(matrices));
    assert(matrices@ =~= seq![*matrix]);
    assert(ops_view(ops@) =~= steps.push(StepModel::Matrices(seq![*matrix])));
}

fn walk(filter: &SceneFilter, ops: &mut Vec<FilterOp>)
    requires
        ops_wf(old(ops)@),
    ensures
        ops_wf(final(ops)@),
        ops_view(final(ops)@) == with_filter(ops_view(old(ops)@), filter.model()),
    decreases filter,
{
    let ghost steps = ops_view(ops@);
    match filter {
        SceneFilter::ColorMatrix(matrix) => {
            push_matrix(ops, matrix);
        },
        SceneFilter::Blur { radius_x, radius_y } => {
            ops.push(
                FilterOp::Blur {
                    sigma_x: if *radius_x > 0 { *radius_x } else { 0 },
                    sigma_y: if *radius_y > 0 { *radius_y } else { 0 },
                },
            );
            assert(ops_view(ops@) =~= steps.push(ops@.last()@));
        },
        SceneFilter::DropShadow { offset_x, offset_y, radius, color } => {
            ops.push(
                FilterOp::DropShadow {
                    offset: Point { x: *offset_x, y: *offset_y },
                    sigma: if *radius > 0 { *radius } else { 0 },
                    color: *color,
                },
            );
            assert(ops_view(ops@) =~= steps.push(ops@.last()@));
        },
        SceneFilter::Chain(filters) => {
            let mut index: usize = 0;
            while index < filters.len()
                invariant
                    *filter == SceneFilter::Chain(*filters),
                    index <= filters@.len(),
                    ops_wf(ops@),
                    ops_view(ops@) == with_filters(
                        steps,
                        SceneFilter::models(filters@.take(index as int)),
                    ),
                decreases filters@.len() - index,
            {
                proof {
                    SceneFilter::models_of_one_more(filters@, index as int);
                    SceneFilter::chain_decreases(*filter, *filters, index as int);
                    let models = SceneFilter::models(filters@.take(index as int));
                    let next = filters@[index as int].model();
                    assert(models.push(next).drop_last() =~= models);
                }
                walk(&filters[index], ops);
                index += 1;
            }
            assert(filters@.take(index as int) =~= filters@);
        },
    }
}

impl FilterOp {
    /// The steps a filter compiles to, in order.
    ///
    /// A run of colour matrices too long for one step is two steps rather than
    /// one. A blur of nothing is left out.
    pub fn flatten(filter: &SceneFilter) -> (r: Vec<FilterOp>)
        ensures
            ops_view(r@) == steps_of(filter.model()),
            ops_wf(r@),
    {
        let mut all: Vec<FilterOp> = Vec::new();
        assert(ops_view(all@) =~= Seq::<StepModel>::empty());
        walk(filter, &mut all);
        let mut kept: Vec<FilterOp> = Vec::new();
        let mut index: usize = 0;
        assert(ops_view(kept@) =~= Seq::<StepModel>::empty());
        assert(ops_view(all@).take(0) =~= Seq::<StepModel>::empty());
        while index < all.len()
            invariant
                index <= all@.len(),
                ops_wf(all@),
                ops_wf(kept@),
                ops_view(kept@) == without_still(ops_view(all@).take(index as int)),
            decreases all@.len() - index,
        {
            let op = all[index];
            assert(all@[index as int].wf());
            let still = match op {
                FilterOp::Blur { sigma_x, sigma_y } => sigma_x <= 0 && sigma_y <= 0,
                _ => false,
            };
            let ghost before = ops_view(kept@);
            proof {
                let steps = ops_view(all@);
                assert(steps.take(index + 1).drop_last() =~= steps.take(index as int));
                assert(steps.take(index + 1).last() == op@);
            }
            if !still {
                kept.push(op);
                assert(ops_view(kept@) =~= before.push(op@));
            }
            index += 1;
        }
        assert(ops_view(all@).take(index as int) =~= ops_view(all@));
        kept
    }
}

/// The filters of a chain, one after another, with no chain among them.
pub open spec fn leaves(filter: FilterModel) -> Seq<FilterModel>
    decreases filter,
{
    match filter {
        FilterModel::Chain(filters) => leaves_of_all(filters),
        _ => seq![filter],
    }
}

pub open spec fn leaves_of_all(filters: Seq<FilterModel>) -> Seq<FilterModel>
    decreases filters,
{
    if filters.len() == 0 {
        Seq::empty()
    } else {
        leaves_of_all(filters.drop_last()) + leaves(filters.last())
    }
}

/// What a leaf of a filter does to a picture: one step, with one matrix at
/// most.
pub open spec fn single(leaf: FilterModel) -> StepModel {
    match leaf {
        FilterModel::ColorMatrix(matrix) => StepModel::Matrices(seq![matrix]),
        FilterModel::Blur { radius_x, radius_y } => StepModel::Blur {
            sigma_x: max(radius_x, 0),
            sigma_y: max(radius_y, 0),
        },
        FilterModel::DropShadow { offset_x, offset_y, radius, color } => StepModel::DropShadow {
            offset_x,
            offset_y,
            sigma: max(radius, 0),
            color,
        },
        FilterModel::Chain(_) => StepModel::Matrices(Seq::empty()),
    }
}

/// The leaves' steps.
pub open spec fn singles(leaves: Seq<FilterModel>) -> Seq<StepModel>
    decreases leaves.len(),
{
    if leaves.len() == 0 {
        Seq::empty()
    } else {
        singles(leaves.drop_last()).push(single(leaves.last()))
    }
}

/// A step, with each matrix of a run on its own.
pub open spec fn spread(step: StepModel) -> Seq<StepModel> {
    match step {
        StepModel::Matrices(matrices) => matrices.map_values(
            |matrix: [i64; 20]| StepModel::Matrices(seq![matrix]),
        ),
        _ => seq![step],
    }
}

pub open spec fn spread_all(steps: Seq<StepModel>) -> Seq<StepModel>
    decreases steps.len(),
{
    if steps.len() == 0 {
        Seq::empty()
    } else {
        spread_all(steps.drop_last()) + spread(steps.last())
    }
}

proof fn lemma_spread_push(steps: Seq<StepModel>, step: StepModel)
    ensures
        spread_all(steps.push(step)) == spread_all(steps) + spread(step),
{
    assert(steps.push(step).drop_last() =~= steps);
}

proof fn lemma_singles_push(leaves: Seq<FilterModel>, leaf: FilterModel)
    ensures
        singles(leaves.push(leaf)) == singles(leaves).push(single(leaf)),
{
    assert(leaves.push(leaf).drop_last() =~= leaves);
}

proof fn lemma_singles_join(a: Seq<FilterModel>, b: Seq<FilterModel>)
    ensures
        singles(a + b) == singles(a) + singles(b),
    decreases b.len(),
{
    if b.len() == 0 {
        assert(a + b =~= a);
        assert(singles(a) + singles(b) =~= singles(a));
    } else {
        lemma_singles_join(a, b.drop_last());
        assert((a + b).drop_last() =~= a + b.drop_last());
        assert((a + b).last() == b.last());
        assert(singles(a + b) =~= singles(a) + singles(b));
    }
}

proof fn lemma_with_matrix(steps: Seq<StepModel>, matrix: [i64; 20])
    ensures
        spread_all(with_matrix(steps, matrix)) == spread_all(steps).push(
            StepModel::Matrices(seq![matrix]),
        ),
{
    let one = StepModel::Matrices(seq![matrix]);
    if steps.len() > 0 && steps.last() is Matrices && steps.last()->Matrices_0.len()
        < MAX_GROUP_COLOR_MATRICES {
        let run = steps.last()->Matrices_0;
        let rest = steps.drop_last();
        lemma_spread_push(rest, StepModel::Matrices(run.push(matrix)));
        assert(spread(StepModel::Matrices(run.push(matrix))) =~= spread(
            StepModel::Matrices(run),
        ).push(one));
        assert(spread_all(with_matrix(steps, matrix)) =~= spread_all(steps).push(one));
    } else {
        lemma_spread_push(steps, one);
        assert(spread(one) =~= seq![one]);
        assert(spread_all(with_matrix(steps, matrix)) =~= spread_all(steps).push(one));
    }
}

proof fn lemma_with_filter(steps: Seq<StepModel>, filter: FilterModel)
    ensures
        spread_all(with_filter(steps, filter)) == spread_all(steps) + singles(leaves(filter)),
    decreases filter,
{
    match filter {
        FilterModel::Chain(filters) => {
            lemma_with_filters(steps, filters);
        },
        FilterModel::ColorMatrix(matrix) => {
            lemma_with_matrix(steps, matrix);
            lemma_one_leaf(filter);
            assert(spread_all(with_filter(steps, filter)) =~= spread_all(steps) + singles(
                leaves(filter),
            ));
        },
        _ => {
            lemma_spread_push(steps, single(filter));
            lemma_one_leaf(filter);
            assert(spread_all(with_filter(steps, filter)) =~= spread_all(steps) + singles(
                leaves(filter),
            ));
        },
    }
}

proof fn lemma_one_leaf(filter: FilterModel)
    requires
        !(filter is Chain),
    ensures
        singles(leaves(filter)) == seq![single(filter)],
{
    let none = Seq::<FilterModel>::empty();
    assert(leaves(filter) =~= none.push(filter));
    lemma_singles_push(none, filter);
    assert(singles(none) =~= Seq::<StepModel>::empty());
    assert(singles(leaves(filter)) =~= seq![single(filter)]);
}

proof fn lemma_with_filters(steps: Seq<StepModel>, filters: Seq<FilterModel>)
    ensures
        spread_all(with_filters(steps, filters)) == spread_all(steps) + singles(
            leaves_of_all(filters),
        ),
    decreases filters,
{
    if filters.len() == 0 {
        assert(spread_all(steps) + singles(leaves_of_all(filters)) =~= spread_all(steps));
    } else {
        lemma_with_filters(steps, filters.drop_last());
        lemma_with_filter(with_filters(steps, filters.drop_last()), filters.last());
        lemma_singles_join(leaves_of_all(filters.drop_last()), leaves(filters.last()));
        assert(spread_all(with_filters(steps, filters)) =~= spread_all(steps) + singles(
            leaves_of_all(filters),
        ));
    }
}

proof fn lemma_still_of_join(a: Seq<StepModel>, b: Seq<StepModel>)
    ensures
        without_still(a + b) == without_still(a) + without_still(b),
    decreases b.len(),
{
    if b.len() == 0 {
        assert(a + b =~= a);
        assert(without_still(a) + without_still(b) =~= without_still(a));
    } else {
        lemma_still_of_join(a, b.drop_last());
        assert((a + b).drop_last() =~= a + b.drop_last());
        assert((a + b).last() == b.last());
        assert(without_still(a + b) =~= without_still(a) + without_still(b));
    }
}

proof fn lemma_still_of_spread(step: StepModel)
    ensures
        without_still(spread(step)) == if step.is_still() {
            Seq::empty()
        } else {
            spread(step)
        },
{
    match step {
        StepModel::Matrices(matrices) => {
            lemma_moving_stays(spread(step));
        },
        _ => {
            let none = Seq::<StepModel>::empty();
            assert(seq![step].drop_last() =~= none);
            assert(without_still(none) =~= none);
            assert(none.push(step) =~= seq![step]);
        },
    }
}

proof fn lemma_moving_stays(steps: Seq<StepModel>)
    requires
        forall|i: int| 0 <= i < steps.len() ==> !(#[trigger] steps[i]).is_still(),
    ensures
        without_still(steps) == steps,
    decreases steps.len(),
{
    if steps.len() > 0 {
        let rest = steps.drop_last();
        assert forall|i: int| 0 <= i < rest.len() implies !(#[trigger] rest[i]).is_still() by {
            assert(rest[i] == steps[i]);
        }
        lemma_moving_stays(rest);
        assert(!steps[steps.len() - 1].is_still());
        assert(rest.push(steps.last()) =~= steps);
    }
}

proof fn lemma_spread_without_still(steps: Seq<StepModel>)
    ensures
        spread_all(without_still(steps)) == without_still(spread_all(steps)),
    decreases steps.len(),
{
    if steps.len() > 0 {
        let rest = steps.drop_last();
        let step = steps.last();
        lemma_spread_without_still(rest);
        lemma_still_of_join(spread_all(rest), spread(step));
        lemma_still_of_spread(step);
        if step.is_still() {
            assert(without_still(spread_all(steps)) =~= without_still(spread_all(rest)));
        } else {
            lemma_spread_push(without_still(rest), step);
        }
    }
}

/// The steps a filter compiles to do what its leaves do, in order and one
/// matrix at a time, but for the blurs that move nothing.
pub proof fn flattening_keeps_every_filter(filter: FilterModel)
    ensures
        spread_all(steps_of(filter)) == without_still(singles(leaves(filter))),
{
    let none = Seq::<StepModel>::empty();
    let steps = with_filter(none, filter);
    lemma_with_filter(none, filter);
    assert(spread_all(none) =~= none);
    assert(none + singles(leaves(filter)) =~= singles(leaves(filter)));
    lemma_spread_without_still(steps);
}

pub open spec fn runs_fit(steps: Seq<StepModel>) -> bool {
    forall|i: int|
        0 <= i < steps.len() ==> ((#[trigger] steps[i]) matches StepModel::Matrices(matrices)
            ==> 1 <= matrices.len() <= MAX_GROUP_COLOR_MATRICES)
}

proof fn lemma_runs_fit(steps: Seq<StepModel>, filter: FilterModel)
    requires
        runs_fit(steps),
    ensures
        runs_fit(with_filter(steps, filter)),
    decreases filter,
{
    match filter {
        FilterModel::Chain(filters) => {
            lemma_all_runs_fit(steps, filters);
        },
        FilterModel::ColorMatrix(matrix) => {
            let after = with_matrix(steps, matrix);
            assert forall|i: int| 0 <= i < after.len() implies ((
            #[trigger] after[i]) matches StepModel::Matrices(matrices) ==> 1 <= matrices.len()
                <= MAX_GROUP_COLOR_MATRICES) by {
                if i < steps.len() - 1 {
                    assert(after[i] == steps[i]);
                } else if i == steps.len() - 1 {
                    assert(steps[i] == steps.last());
                }
            }
        },
        _ => {},
    }
}

proof fn lemma_all_runs_fit(steps: Seq<StepModel>, filters: Seq<FilterModel>)
    requires
        runs_fit(steps),
    ensures
        runs_fit(with_filters(steps, filters)),
    decreases filters,
{
    if filters.len() > 0 {
        lemma_all_runs_fit(steps, filters.drop_last());
        lemma_runs_fit(with_filters(steps, filters.drop_last()), filters.last());
    }
}

proof fn lemma_kept_is_among(steps: Seq<StepModel>, i: int)
    requires
        0 <= i < without_still(steps).len(),
    ensures
        !without_still(steps)[i].is_still(),
        steps.contains(without_still(steps)[i]),
    decreases steps.len(),
{
    let rest = steps.drop_last();
    if !steps.last().is_still() && i == without_still(rest).len() {
        assert(steps[steps.len() - 1] == without_still(steps)[i]);
    } else {
        lemma_kept_is_among(rest, i);
        let k = choose|k: int| 0 <= k < rest.len() && rest[k] == without_still(rest)[i];
        assert(steps[k] == without_still(steps)[i]);
    }
}

/// No step moves nothing, and every run of matrices is one that a pass can
/// apply.
pub proof fn every_step_is_worth_a_pass(filter: FilterModel, i: int)
    requires
        0 <= i < steps_of(filter).len(),
    ensures
        !steps_of(filter)[i].is_still(),
        steps_of(filter)[i] matches StepModel::Matrices(matrices) ==> 1 <= matrices.len()
            <= MAX_GROUP_COLOR_MATRICES,
{
    let none = Seq::<StepModel>::empty();
    let steps = with_filter(none, filter);
    lemma_runs_fit(none, filter);
    lemma_kept_is_among(steps, i);
    let k = choose|k: int| 0 <= k < steps.len() && steps[k] == without_still(steps)[i];
    assert(steps[k] == steps_of(filter)[i]);
}

} // verus!
