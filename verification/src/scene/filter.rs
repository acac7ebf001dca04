//! Pixel filters on a group's picture.

use crate::color::Hsla;
use crate::fixed::{max, product, saturate, saturated, times};
use crate::geometry::{Bounds, Edges, Point, Rect, ScaledPixels};
use vstd::prelude::*;

verus! {

/// How many standard deviations of its tail anything blurred is drawn out to.
pub const GAUSSIAN_BLUR_EXTENT: i64 = 3;

/// A pixel filter applied to a group's picture before it is composited.
#[derive(Debug, PartialEq, Eq)]
pub enum SceneFilter {
    /// A row-major 4x5 matrix that maps RGBA and a constant to RGBA, on colour
    /// that is not premultiplied.
    ColorMatrix([i64; 20]),
    /// A separable gaussian blur.
    Blur {
        /// Standard deviation along x.
        radius_x: i64,
        /// Standard deviation along y.
        radius_y: i64,
    },
    /// The group's alpha, blurred, moved and tinted, drawn behind the group.
    DropShadow {
        /// How far the shadow is moved along x.
        offset_x: i64,
        /// How far the shadow is moved along y.
        offset_y: i64,
        /// The standard deviation of the shadow's blur.
        radius: i64,
        /// The shadow's colour.
        color: Hsla,
    },
    /// Several filters applied in order, first to last.
    Chain(Vec<SceneFilter>),
}

/// A filter, as what it says.
pub enum FilterModel {
    ColorMatrix([i64; 20]),
    Blur { radius_x: int, radius_y: int },
    DropShadow { offset_x: int, offset_y: int, radius: int, color: Hsla },
    Chain(Seq<FilterModel>),
}

/// How far a blur of standard deviation `sigma` carries ink.
pub open spec fn tail_of(sigma: int) -> int {
    max(saturate(sigma * GAUSSIAN_BLUR_EXTENT), 0)
}

impl FilterModel {
    pub open spec fn scaled(self, factor: int) -> FilterModel
        decreases self,
    {
        match self {
            FilterModel::ColorMatrix(matrix) => FilterModel::ColorMatrix(matrix),
            FilterModel::Blur { radius_x, radius_y } => FilterModel::Blur {
                radius_x: product(radius_x, factor),
                radius_y: product(radius_y, factor),
            },
            FilterModel::DropShadow { offset_x, offset_y, radius, color } => {
                FilterModel::DropShadow {
                    offset_x: product(offset_x, factor),
                    offset_y: product(offset_y, factor),
                    radius: product(radius, factor),
                    color,
                }
            },
            FilterModel::Chain(filters) => FilterModel::Chain(
                FilterModel::all_scaled(filters, factor),
            ),
        }
    }

    pub open spec fn all_scaled(filters: Seq<FilterModel>, factor: int) -> Seq<FilterModel>
        decreases filters,
    {
        if filters.len() == 0 {
            Seq::empty()
        } else {
            FilterModel::all_scaled(filters.drop_last(), factor).push(
                filters.last().scaled(factor),
            )
        }
    }

    /// Where the filter's picture can reach, of an input that paints nothing
    /// outside `input`.
    pub open spec fn reach(self, input: Rect) -> Rect
        decreases self,
    {
        match self {
            FilterModel::ColorMatrix(_) => input,
            FilterModel::Blur { radius_x, radius_y } => input.extend(
                tail_of(radius_x),
                tail_of(radius_y),
                tail_of(radius_x),
                tail_of(radius_y),
            ),
            FilterModel::DropShadow { offset_x, offset_y, radius, .. } => input.union(
                input.offset(offset_x, offset_y),
            ).dilate(tail_of(radius)),
            FilterModel::Chain(filters) => FilterModel::reach_of_all(filters, input),
        }
    }

    pub open spec fn reach_of_all(filters: Seq<FilterModel>, input: Rect) -> Rect
        decreases filters,
    {
        if filters.len() == 0 {
            input
        } else {
            filters.last().reach(FilterModel::reach_of_all(filters.drop_last(), input))
        }
    }
}

fn tail(sigma: i64) -> (r: ScaledPixels)
    ensures
        r.0 == tail_of(sigma as int),
{
    assert(GAUSSIAN_BLUR_EXTENT == 3);
    assert(sigma * GAUSSIAN_BLUR_EXTENT == sigma * 3) by (nonlinear_arith)
        requires
            GAUSSIAN_BLUR_EXTENT == 3,
    ;
    let reach: i64 = saturated(sigma as i128 * GAUSSIAN_BLUR_EXTENT as i128);
    ScaledPixels(if reach > 0 { reach } else { 0 })
}

impl SceneFilter {
    pub open spec fn model(self) -> FilterModel
        decreases self,
    {
        match self {
            SceneFilter::ColorMatrix(matrix) => FilterModel::ColorMatrix(matrix),
            SceneFilter::Blur { radius_x, radius_y } => FilterModel::Blur {
                radius_x: radius_x as int,
                radius_y: radius_y as int,
            },
            SceneFilter::DropShadow { offset_x, offset_y, radius, color } => {
                FilterModel::DropShadow {
                    offset_x: offset_x as int,
                    offset_y: offset_y as int,
                    radius: radius as int,
                    color,
                }
            },
            SceneFilter::Chain(filters) => FilterModel::Chain(SceneFilter::models(filters@)),
        }
    }

    pub open spec fn models(filters: Seq<SceneFilter>) -> Seq<FilterModel>
        decreases filters,
    {
        if filters.len() == 0 {
            Seq::empty()
        } else {
            SceneFilter::models(filters.drop_last()).push(filters.last().model())
        }
    }

    /// This filter with every length multiplied by `factor`. A colour matrix
    /// has no lengths in it and is unchanged.
    pub fn scale(&self, factor: i64) -> (r: SceneFilter)
        ensures
            r.model() == self.model().scaled(factor as int),
        decreases self,
    {
        match self {
            SceneFilter::ColorMatrix(matrix) => SceneFilter::ColorMatrix(*matrix),
            SceneFilter::Blur { radius_x, radius_y } => SceneFilter::Blur {
                radius_x: times(*radius_x, factor),
                radius_y: times(*radius_y, factor),
            },
            SceneFilter::DropShadow { offset_x, offset_y, radius, color } => {
                SceneFilter::DropShadow {
                    offset_x: times(*offset_x, factor),
                    offset_y: times(*offset_y, factor),
                    radius: times(*radius, factor),
                    color: *color,
                }
            },
            SceneFilter::Chain(filters) => {
                let mut scaled: Vec<SceneFilter> = Vec::new();
                let mut index: usize = 0;
                while index < filters.len()
                    invariant
                        *self == SceneFilter::Chain(*filters),
                        index <= filters@.len(),
                        SceneFilter::models(scaled@) == FilterModel::all_scaled(
                            SceneFilter::models(filters@.take(index as int)),
                            factor as int,
                        ),
                    decreases filters@.len() - index,
                {
                    let ghost before = scaled@;
                    proof {
                        SceneFilter::models_of_one_more(filters@, index as int);
                    }
                    proof {
                        SceneFilter::chain_decreases(*self, *filters, index as int);
                    }
                    let one = filters[index].scale(factor);
                    scaled.push(one);
                    proof {
                        let models = SceneFilter::models(filters@.take(index as int));
                        let next = filters@[index as int].model();
                        assert(scaled@.drop_last() =~= before);
                        assert(models.push(next).drop_last() =~= models);
                    }
                    index += 1;
                }
                assert(filters@.take(index as int) =~= filters@);
                SceneFilter::Chain(scaled)
            },
        }
    }

    /// Where this filter's picture can reach, given an input that paints
    /// nothing outside `input`.
    ///
    /// A blur carries ink [`GAUSSIAN_BLUR_EXTENT`] standard deviations beyond
    /// what it was measured from. A drop shadow is read back from a blurred
    /// copy of the input, so the tail is left room around the input as well as
    /// around the shadow.
    pub fn painted_bounds(&self, input: Bounds<ScaledPixels>) -> (r: Bounds<ScaledPixels>)
        ensures
            r@ == self.model().reach(input@),
        decreases self,
    {
        match self {
            SceneFilter::ColorMatrix(_) => input,
            SceneFilter::Blur { radius_x, radius_y } => {
                let x = tail(*radius_x);
                let y = tail(*radius_y);
                input.extend(Edges { top: y, right: x, bottom: y, left: x })
            },
            SceneFilter::DropShadow { offset_x, offset_y, radius, .. } => {
                let moved = input.offset_by(
                    Point { x: ScaledPixels(*offset_x), y: ScaledPixels(*offset_y) },
                );
                input.union(&moved).dilate(tail(*radius))
            },
            SceneFilter::Chain(filters) => {
                let mut bounds = input;
                let mut index: usize = 0;
                while index < filters.len()
                    invariant
                        *self == SceneFilter::Chain(*filters),
                        index <= filters@.len(),
                        bounds@ == FilterModel::reach_of_all(
                            SceneFilter::models(filters@.take(index as int)),
                            input@,
                        ),
                    decreases filters@.len() - index,
                {
                    proof {
                        SceneFilter::models_of_one_more(filters@, index as int);
                        let models = SceneFilter::models(filters@.take(index as int));
                        let next = filters@[index as int].model();
                        assert(models.push(next).drop_last() =~= models);
                    }
                    proof {
                        SceneFilter::chain_decreases(*self, *filters, index as int);
                    }
                    bounds = filters[index].painted_bounds(bounds);
                    index += 1;
                }
                assert(filters@.take(index as int) =~= filters@);
                bounds
            },
        }
    }
}

impl Clone for SceneFilter {
    fn clone(&self) -> (r: Self)
        ensures
            r.model() == self.model(),
        decreases self,
    {
        match self {
            SceneFilter::ColorMatrix(matrix) => SceneFilter::ColorMatrix(*matrix),
            SceneFilter::Blur { radius_x, radius_y } => SceneFilter::Blur {
                radius_x: *radius_x,
                radius_y: *radius_y,
            },
            SceneFilter::DropShadow { offset_x, offset_y, radius, color } => {
                SceneFilter::DropShadow {
                    offset_x: *offset_x,
                    offset_y: *offset_y,
                    radius: *radius,
                    color: *color,
                }
            },
            SceneFilter::Chain(filters) => {
                let mut copies: Vec<SceneFilter> = Vec::new();
                let mut index: usize = 0;
                while index < filters.len()
                    invariant
                        *self == SceneFilter::Chain(*filters),
                        index <= filters@.len(),
                        SceneFilter::models(copies@) == SceneFilter::models(
                            filters@.take(index as int),
                        ),
                    decreases filters@.len() - index,
                {
                    let ghost before = copies@;
                    proof {
                        SceneFilter::models_of_one_more(filters@, index as int);
                    }
                    proof {
                        SceneFilter::chain_decreases(*self, *filters, index as int);
                    }
                    let one = filters[index].clone();
                    copies.push(one);
                    assert(copies@.drop_last() =~= before);
                    index += 1;
                }
                assert(filters@.take(index as int) =~= filters@);
                SceneFilter::Chain(copies)
            },
        }
    }
}

impl SceneFilter {
    /// A filter of a chain is smaller than the chain.
    pub proof fn chain_decreases(whole: SceneFilter, filters: Vec<SceneFilter>, index: int)
        requires
            whole == SceneFilter::Chain(filters),
            0 <= index < filters@.len(),
        ensures
            decreases_to!(whole => filters@[index]),
    {
        assert(decreases_to!(whole => whole->Chain_0));
        assert(decreases_to!(filters => filters@));
        assert(decreases_to!(filters@ => filters@[index]));
    }

    /// One more filter is one more model.
    pub proof fn models_of_one_more(filters: Seq<SceneFilter>, index: int)
        requires
            0 <= index < filters.len(),
        ensures
            SceneFilter::models(filters.take(index + 1)) == SceneFilter::models(
                filters.take(index),
            ).push(filters[index].model()),
    {
        assert(filters.take(index + 1).drop_last() =~= filters.take(index));
        assert(filters.take(index + 1).last() == filters[index]);
    }
}

} // verus!
