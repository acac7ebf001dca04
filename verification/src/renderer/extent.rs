//! Sizes and rectangles in whole device pixels, and how long textures are kept.

use crate::fixed::{ceil_of, floor_div, max, min, ONE};
use crate::geometry::{Bounds, Point, Rect, ScaledPixels, Size};
use vstd::prelude::*;

verus! {

/// What the clip textures' sides are rounded up to.
pub const CLIP_TEXTURE_QUANTUM: i32 = 256;

/// What a group target's sides are rounded up to.
pub const GROUP_TEXTURE_QUANTUM: i32 = 256;

/// How many consecutive frames have to fit inside smaller clip textures before
/// the memory is given back.
pub const CLIP_TEXTURE_SHRINK_FRAMES: u32 = 240;

/// How many consecutive frames have to fit inside smaller group targets before
/// the memory is given back.
pub const GROUP_TEXTURE_SHRINK_FRAMES: u32 = 240;

/// How far from the origin, in whole pixels, a box is taken seriously.
pub const CLIP_COORDINATE_LIMIT: i32 = 16_777_216;

pub open spec fn fits_i32(v: int) -> bool {
    i32::MIN <= v <= i32::MAX
}

/// A width and height in whole device pixels.
#[derive(Clone, Copy, Debug, PartialEq, Eq, Default, Structural)]
pub struct Extent {
    pub width: i32,
    pub height: i32,
}

/// The next multiple of `quantum` at or above `value`, and never nothing.
pub open spec fn rounded_up(value: int, quantum: int) -> int {
    (max(value, 1) + quantum - 1) / quantum * quantum
}

fn round_up(value: i32, quantum: i32) -> (r: i32)
    requires
        quantum == 256,
        value <= i32::MAX - 255,
    ensures
        r == rounded_up(value as int, quantum as int),
{
    let value: i32 = if value < 1 {
        1
    } else {
        value
    };
    let quanta: i32 = (value + (quantum - 1)) / quantum;
    quanta * quantum
}

impl Extent {
    pub open spec fn zero() -> Extent {
        Extent { width: 0, height: 0 }
    }

    pub open spec fn larger(self, other: Extent) -> Extent {
        Extent {
            width: max(self.width as int, other.width as int) as i32,
            height: max(self.height as int, other.height as int) as i32,
        }
    }

    /// Whether either side is smaller than the other's.
    pub open spec fn falls_short_of(self, other: Extent) -> bool {
        self.width < other.width || self.height < other.height
    }

    /// Nothing.
    pub fn none() -> (r: Extent)
        ensures
            r == Extent::zero(),
    {
        Extent { width: 0, height: 0 }
    }

    /// The smallest extent that holds both.
    pub fn max(self, other: Self) -> (r: Self)
        ensures
            r == self.larger(other),
    {
        Extent {
            width: if self.width >= other.width { self.width } else { other.width },
            height: if self.height >= other.height { self.height } else { other.height },
        }
    }

    pub open spec fn cost(self) -> int {
        max(self.width as int, 0) * max(self.height as int, 0) * 4
    }

    /// What a texture of this size and four bytes a pixel costs.
    pub fn bytes(self) -> (r: u64)
        ensures
            r == self.cost(),
    {
        let width: u64 = if self.width > 0 {
            self.width as u64
        } else {
            0
        };
        let height: u64 = if self.height > 0 {
            self.height as u64
        } else {
            0
        };
        assert(width * height <= 0x7fff_ffff * 0x7fff_ffff) by (nonlinear_arith)
            requires
                0 <= width <= 0x7fff_ffff,
                0 <= height <= 0x7fff_ffff,
        ;
        width * height * 4
    }

    pub open spec fn rounded(self, quantum: int) -> Extent {
        Extent {
            width: rounded_up(self.width as int, quantum) as i32,
            height: rounded_up(self.height as int, quantum) as i32,
        }
    }

    /// The extent with its sides rounded up to whole quanta, and never to
    /// nothing: a size that wobbles by a pixel is then the same allocation.
    pub fn quantized(self) -> (r: Self)
        requires
            self.width <= i32::MAX - 255,
            self.height <= i32::MAX - 255,
        ensures
            r == self.rounded(CLIP_TEXTURE_QUANTUM as int),
    {
        Extent {
            width: round_up(self.width, CLIP_TEXTURE_QUANTUM),
            height: round_up(self.height, CLIP_TEXTURE_QUANTUM),
        }
    }
}

/// A group target's extent, rounded up to whole quanta.
pub fn quantized_group_extent(extent: Extent) -> (r: Extent)
    requires
        extent.width <= i32::MAX - 255,
        extent.height <= i32::MAX - 255,
    ensures
        r == extent.rounded(GROUP_TEXTURE_QUANTUM as int),
{
    Extent {
        width: round_up(extent.width, GROUP_TEXTURE_QUANTUM),
        height: round_up(extent.height, GROUP_TEXTURE_QUANTUM),
    }
}

/// A rounded side is the least multiple of the quantum that holds the side and
/// is not nothing, and rounding it again changes nothing.
pub proof fn rounding_up_is_least(value: int)
    ensures
        rounded_up(value, 256) >= max(value, 1),
        rounded_up(value, 256) % 256 == 0,
        rounded_up(value, 256) - 256 < max(value, 1),
        rounded_up(rounded_up(value, 256), 256) == rounded_up(value, 256),
{
}

/// How large a set of textures is kept once a frame stops needing it.
///
/// Growing is immediate. Shrinking waits for `SHRINK_FRAMES` consecutive frames
/// that would all have fitted in something smaller.
#[derive(Debug)]
pub struct TextureBudget<const SHRINK_FRAMES: u32> {
    /// What is allocated.
    pub current: Extent,
    /// The most that a frame has needed since the run of small frames began,
    /// and so what shrinking would shrink to.
    pub peak: Extent,
    /// How many consecutive frames have been small.
    pub frames: u32,
}

impl<const SHRINK_FRAMES: u32> Default for TextureBudget<SHRINK_FRAMES> {
    fn default() -> (r: Self)
        ensures
            r.current == Extent::zero(),
            r.peak == Extent::zero(),
            r.frames == 0,
    {
        TextureBudget { current: Extent::none(), peak: Extent::none(), frames: 0 }
    }
}

/// The clip textures' budget.
pub type ClipTextureBudget = TextureBudget<240>;

/// A budget, as what it says.
pub struct BudgetModel {
    pub current: Extent,
    pub peak: Extent,
    pub frames: int,
}

impl BudgetModel {
    /// The budget at the start of a frame, where `limit` small frames are
    /// enough to shrink.
    pub open spec fn floored(self, limit: int) -> BudgetModel {
        if self.frames >= limit {
            BudgetModel { current: self.peak, peak: Extent::zero(), frames: 0 }
        } else {
            self
        }
    }

    /// The budget after a frame that allocated and needed so much.
    pub open spec fn observed(self, allocated: Extent, needed: Extent) -> BudgetModel {
        if needed.falls_short_of(allocated) {
            BudgetModel {
                current: allocated,
                peak: self.peak.larger(needed),
                frames: self.frames + 1,
            }
        } else {
            BudgetModel { current: allocated, peak: Extent::zero(), frames: 0 }
        }
    }
}

impl<const SHRINK_FRAMES: u32> View for TextureBudget<SHRINK_FRAMES> {
    type V = BudgetModel;

    open spec fn view(&self) -> BudgetModel {
        BudgetModel { current: self.current, peak: self.peak, frames: self.frames as int }
    }
}

impl<const SHRINK_FRAMES: u32> TextureBudget<SHRINK_FRAMES> {
    /// The size the next frame starts from: what is allocated, unless a long
    /// enough run of frames has all fitted inside something smaller.
    pub fn floor(&mut self) -> (r: Extent)
        ensures
            final(self)@ == old(self)@.floored(SHRINK_FRAMES as int),
            r == final(self)@.current,
    {
        if self.frames >= SHRINK_FRAMES {
            self.current = self.peak;
            self.peak = Extent::none();
            self.frames = 0;
        }
        self.current
    }

    /// What the frame allocated, and what it would have been enough to
    /// allocate.
    pub fn observe(&mut self, allocated: Extent, needed: Extent)
        requires
            old(self).frames < u32::MAX,
        ensures
            final(self)@ == old(self)@.observed(allocated, needed),
    {
        self.current = allocated;
        if needed.width < allocated.width || needed.height < allocated.height {
            self.peak = self.peak.max(needed);
            self.frames += 1;
        } else {
            self.peak = Extent::none();
            self.frames = 0;
        }
    }
}

/// A budget after a run of frames that each allocated `allocated`.
pub open spec fn after_frames(
    budget: BudgetModel,
    allocated: Extent,
    needed: Seq<Extent>,
) -> BudgetModel
    decreases needed.len(),
{
    if needed.len() == 0 {
        budget
    } else {
        after_frames(budget, allocated, needed.drop_last()).observed(allocated, needed.last())
    }
}

/// The smallest extent that holds everything that some frames needed.
pub open spec fn most_needed(needed: Seq<Extent>) -> Extent
    decreases needed.len(),
{
    if needed.len() == 0 {
        Extent::zero()
    } else {
        most_needed(needed.drop_last()).larger(needed.last())
    }
}

/// A frame that needs everything that is allocated starts the countdown anew.
pub proof fn one_busy_frame_restarts_the_countdown(
    budget: BudgetModel,
    allocated: Extent,
    needed: Extent,
)
    requires
        !needed.falls_short_of(allocated),
    ensures
        budget.observed(allocated, needed).frames == 0,
        budget.observed(allocated, needed).peak == Extent::zero(),
{
}

/// A budget gives nothing back before `limit` frames in a row have been small,
/// and after them shrinks to the most that they needed, side by side: to no
/// more than that, and to enough for each of them.
pub proof fn shrinking_waits_for_a_run_of_small_frames(
    budget: BudgetModel,
    allocated: Extent,
    needed: Seq<Extent>,
    limit: int,
    i: int,
)
    requires
        budget.frames == 0,
        budget.peak == Extent::zero(),
        forall|k: int| 0 <= k < needed.len() ==> (#[trigger] needed[k]).falls_short_of(allocated),
        0 <= i < needed.len(),
        0 < limit,
    ensures
        after_frames(budget, allocated, needed).frames == needed.len(),
        after_frames(budget, allocated, needed).current == allocated,
        needed.len() < limit ==> after_frames(budget, allocated, needed).floored(limit).current
            == allocated,
        needed.len() >= limit ==> after_frames(budget, allocated, needed).floored(limit).current
            == most_needed(needed),
        !most_needed(needed).falls_short_of(needed[i]),
{
    lemma_small_frames(budget, allocated, needed);
    lemma_most_needed_holds(needed, i);
    assert(needed[needed.len() - 1].falls_short_of(allocated));
}

proof fn lemma_small_frames(budget: BudgetModel, allocated: Extent, needed: Seq<Extent>)
    requires
        budget.peak == Extent::zero(),
        forall|k: int| 0 <= k < needed.len() ==> (#[trigger] needed[k]).falls_short_of(allocated),
    ensures
        after_frames(budget, allocated, needed).frames == budget.frames + needed.len(),
        after_frames(budget, allocated, needed).peak == most_needed(needed),
    decreases needed.len(),
{
    if needed.len() > 0 {
        let rest = needed.drop_last();
        assert forall|k: int| 0 <= k < rest.len() implies (#[trigger] rest[k]).falls_short_of(
            allocated,
        ) by {
            assert(rest[k] == needed[k]);
        }
        lemma_small_frames(budget, allocated, rest);
        assert(needed[needed.len() - 1].falls_short_of(allocated));
    }
}

proof fn lemma_most_needed_holds(needed: Seq<Extent>, i: int)
    requires
        0 <= i < needed.len(),
    ensures
        !most_needed(needed).falls_short_of(needed[i]),
    decreases needed.len(),
{
    if i < needed.len() - 1 {
        lemma_most_needed_holds(needed.drop_last(), i);
    }
}

/// A rectangle of whole device pixels.
#[derive(Clone, Copy, Debug, PartialEq, Eq, Structural)]
pub struct DeviceRect {
    pub x: i32,
    pub y: i32,
    pub width: i32,
    pub height: i32,
}

impl DeviceRect {
    pub open spec fn right(self) -> int {
        self.x + self.width
    }

    pub open spec fn bottom(self) -> int {
        self.y + self.height
    }

    pub open spec fn encloses_nothing(self) -> bool {
        self.width <= 0 || self.height <= 0
    }

    pub open spec fn edges_fit(self) -> bool {
        fits_i32(self.right()) && fits_i32(self.bottom())
    }

    pub open spec fn common(self, other: DeviceRect) -> Rect {
        let x = max(self.x as int, other.x as int);
        let y = max(self.y as int, other.y as int);
        Rect {
            x,
            y,
            width: min(self.right(), other.right()) - x,
            height: min(self.bottom(), other.bottom()) - y,
        }
    }

    pub open spec fn joined(self, other: DeviceRect) -> Rect {
        let x = min(self.x as int, other.x as int);
        let y = min(self.y as int, other.y as int);
        Rect {
            x,
            y,
            width: max(self.right(), other.right()) - x,
            height: max(self.bottom(), other.bottom()) - y,
        }
    }

    /// The rectangle, as numbers.
    pub open spec fn rect(self) -> Rect {
        Rect {
            x: self.x as int,
            y: self.y as int,
            width: self.width as int,
            height: self.height as int,
        }
    }

    pub open spec fn nothing() -> DeviceRect {
        DeviceRect { x: 0, y: 0, width: 0, height: 0 }
    }

    /// Whether the pixel whose corner is `(x, y)` lies within.
    pub open spec fn holds(self, x: int, y: int) -> bool {
        self.x <= x < self.right() && self.y <= y < self.bottom()
    }

    /// A rectangle that encloses nothing, which is what a clip that lets
    /// nothing through gets.
    pub fn empty() -> (r: Self)
        ensures
            r == DeviceRect::nothing(),
    {
        DeviceRect { x: 0, y: 0, width: 0, height: 0 }
    }

    pub fn is_empty(&self) -> (r: bool)
        ensures
            r == self.encloses_nothing(),
    {
        self.width <= 0 || self.height <= 0
    }

    /// What lies in both.
    pub fn intersect(&self, other: &Self) -> (r: Self)
        requires
            self.edges_fit(),
            other.edges_fit(),
            fits_i32(self.common(*other).width),
            fits_i32(self.common(*other).height),
        ensures
            r.rect() == self.common(*other),
    {
        let x: i32 = if self.x >= other.x { self.x } else { other.x };
        let y: i32 = if self.y >= other.y { self.y } else { other.y };
        let right: i32 = if self.x + self.width <= other.x + other.width {
            self.x + self.width
        } else {
            other.x + other.width
        };
        let bottom: i32 = if self.y + self.height <= other.y + other.height {
            self.y + self.height
        } else {
            other.y + other.height
        };
        DeviceRect { x, y, width: right - x, height: bottom - y }
    }

    /// The smallest rectangle that holds both. One that encloses nothing adds
    /// nothing.
    pub fn union(&self, other: &Self) -> (r: Self)
        requires
            self.edges_fit(),
            other.edges_fit(),
            fits_i32(self.joined(*other).width),
            fits_i32(self.joined(*other).height),
        ensures
            r == self.united(*other),
    {
        if self.is_empty() {
            return *other;
        }
        if other.is_empty() {
            return *self;
        }
        let x: i32 = if self.x <= other.x { self.x } else { other.x };
        let y: i32 = if self.y <= other.y { self.y } else { other.y };
        let right: i32 = if self.x + self.width >= other.x + other.width {
            self.x + self.width
        } else {
            other.x + other.width
        };
        let bottom: i32 = if self.y + self.height >= other.y + other.height {
            self.y + self.height
        } else {
            other.y + other.height
        };
        DeviceRect { x, y, width: right - x, height: bottom - y }
    }

    pub open spec fn united(self, other: DeviceRect) -> DeviceRect {
        if self.encloses_nothing() {
            other
        } else if other.encloses_nothing() {
            self
        } else {
            DeviceRect {
                x: self.joined(other).x as i32,
                y: self.joined(other).y as i32,
                width: self.joined(other).width as i32,
                height: self.joined(other).height as i32,
            }
        }
    }

    pub open spec fn size_of(self) -> Extent {
        Extent {
            width: max(self.width as int, 0) as i32,
            height: max(self.height as int, 0) as i32,
        }
    }

    pub fn extent(&self) -> (r: Extent)
        ensures
            r == self.size_of(),
    {
        Extent {
            width: if self.width > 0 { self.width } else { 0 },
            height: if self.height > 0 { self.height } else { 0 },
        }
    }

    /// The rectangle in fixed-point units.
    pub open spec fn in_units(self) -> Rect {
        Rect {
            x: self.x * ONE,
            y: self.y * ONE,
            width: max(self.width as int, 0) * ONE,
            height: max(self.height as int, 0) * ONE,
        }
    }

    /// The box of the rectangle.
    pub open spec fn as_box(self) -> Bounds<ScaledPixels> {
        Bounds {
            origin: Point {
                x: ScaledPixels(self.in_units().x as i64),
                y: ScaledPixels(self.in_units().y as i64),
            },
            size: Size {
                width: ScaledPixels(self.in_units().width as i64),
                height: ScaledPixels(self.in_units().height as i64),
            },
        }
    }

    /// The box of the rectangle.
    pub fn bounds(&self) -> (r: Bounds<ScaledPixels>)
        ensures
            r@ == self.in_units(),
            r == self.as_box(),
    {
        let extent = self.extent();
        Bounds {
            origin: Point {
                x: ScaledPixels(self.x as i64 * 65536),
                y: ScaledPixels(self.y as i64 * 65536),
            },
            size: Size {
                width: ScaledPixels(extent.width as i64 * 65536),
                height: ScaledPixels(extent.height as i64 * 65536),
            },
        }
    }
}

/// A pixel lies in the intersection of two rectangles exactly when it lies in
/// both.
pub proof fn intersection_is_what_both_hold(a: DeviceRect, b: DeviceRect, r: DeviceRect, x: int, y: int)
    requires
        r.rect() == a.common(b),
    ensures
        r.holds(x, y) == (a.holds(x, y) && b.holds(x, y)),
{
}

/// A pixel of either rectangle lies in their union.
pub proof fn union_holds_both(a: DeviceRect, b: DeviceRect, x: int, y: int)
    requires
        fits_i32(a.joined(b).width),
        fits_i32(a.joined(b).height),
        a.holds(x, y) || b.holds(x, y),
    ensures
        a.united(b).holds(x, y),
{
}

pub open spec fn limited(v: int) -> int {
    max(-(CLIP_COORDINATE_LIMIT * ONE), min(v, CLIP_COORDINATE_LIMIT * ONE))
}

fn limit(v: i64) -> (r: i64)
    ensures
        r == limited(v as int),
        -0x100_0000_0000 <= r <= 0x100_0000_0000,
{
    assert(CLIP_COORDINATE_LIMIT * ONE == 0x100_0000_0000) by (nonlinear_arith)
        requires
            CLIP_COORDINATE_LIMIT == 16_777_216,
            ONE == 65536,
    ;
    if v < -0x100_0000_0000 {
        -0x100_0000_0000
    } else if v > 0x100_0000_0000 {
        0x100_0000_0000
    } else {
        v
    }
}

/// The whole pixels that a box in device space touches, as numbers.
pub open spec fn touched(bounds: Rect) -> Rect {
    let x = limited(bounds.x) / (ONE as int);
    let y = limited(bounds.y) / (ONE as int);
    Rect {
        x,
        y,
        width: ceil_of(limited(bounds.right()), ONE as int) - x,
        height: ceil_of(limited(bounds.bottom()), ONE as int) - y,
    }
}

/// The whole pixels that a box in device space touches, of those near enough to
/// the origin to be taken seriously.
pub fn covering_rect(bounds: &Bounds<ScaledPixels>) -> (r: DeviceRect)
    ensures
        r.rect() == touched(bounds@),
        -CLIP_COORDINATE_LIMIT <= r.x <= CLIP_COORDINATE_LIMIT,
        -CLIP_COORDINATE_LIMIT <= r.y <= CLIP_COORDINATE_LIMIT,
        -CLIP_COORDINATE_LIMIT <= r.right() <= CLIP_COORDINATE_LIMIT,
        -CLIP_COORDINATE_LIMIT <= r.bottom() <= CLIP_COORDINATE_LIMIT,
{
    let x: i128 = floor_div(limit(bounds.origin.x.0) as i128, 65536);
    let y: i128 = floor_div(limit(bounds.origin.y.0) as i128, 65536);
    let right: i128 = -floor_div(-(limit(bounds.right().0) as i128), 65536);
    let bottom: i128 = -floor_div(-(limit(bounds.bottom().0) as i128), 65536);
    DeviceRect {
        x: x as i32,
        y: y as i32,
        width: (right - x) as i32,
        height: (bottom - y) as i32,
    }
}

/// The pixels that a rectangle's own box touches are the rectangle's.
pub proof fn whole_pixels_touch_themselves(r: DeviceRect)
    requires
        !r.encloses_nothing(),
        -CLIP_COORDINATE_LIMIT <= r.x,
        -CLIP_COORDINATE_LIMIT <= r.y,
        r.right() <= CLIP_COORDINATE_LIMIT,
        r.bottom() <= CLIP_COORDINATE_LIMIT,
    ensures
        touched(r.in_units()) == r.rect(),
{
    assert(ONE == 65536);
    assert(CLIP_COORDINATE_LIMIT * ONE == 0x100_0000_0000) by (nonlinear_arith)
        requires
            CLIP_COORDINATE_LIMIT == 16_777_216,
            ONE == 65536,
    ;
    assert(r.x * ONE == r.x * 65536 && r.y * ONE == r.y * 65536);
    assert(r.width * ONE == r.width * 65536 && r.height * ONE == r.height * 65536);
}

/// A box near enough to the origin lies within the pixels that it touches, and
/// no pixel more is touched on any side.
pub proof fn covering_rect_covers(bounds: Rect)
    requires
        bounds.in_range(),
        limited(bounds.x) == bounds.x,
        limited(bounds.y) == bounds.y,
        limited(bounds.right()) == bounds.right(),
        limited(bounds.bottom()) == bounds.bottom(),
    ensures
        touched(bounds).x * ONE <= bounds.x < (touched(bounds).x + 1) * ONE,
        touched(bounds).y * ONE <= bounds.y < (touched(bounds).y + 1) * ONE,
        (touched(bounds).x + touched(bounds).width - 1) * ONE < bounds.right() <= (touched(
            bounds,
        ).x + touched(bounds).width) * ONE,
        (touched(bounds).y + touched(bounds).height - 1) * ONE < bounds.bottom() <= (touched(
            bounds,
        ).y + touched(bounds).height) * ONE,
{
    assert(ONE == 65536);
}

} // verus!
