//! How a group's picture is laid on what is underneath it.

use crate::geometry::{Bounds, DevicePixels, Point, ScaledPixels, Size};
use crate::scene::blend::ComposeMode;
use crate::scene::ids::ClipId;
use vstd::prelude::*;

verus! {

/// Where the attachment that a pass draws into sits in the window.
///
/// `size` is the part that is drawn into, not the texture: a group's target may
/// be larger than the group in it.
#[derive(Clone, Copy, Debug, PartialEq, Eq)]
pub struct RenderTarget {
    /// The size of the region that is drawn into.
    pub size: Size<DevicePixels>,
    /// Where that region's top-left corner is in the window.
    pub origin: Point<DevicePixels>,
}

impl RenderTarget {
    pub open spec fn covering(size: Size<DevicePixels>) -> RenderTarget {
        RenderTarget { size, origin: Point { x: DevicePixels(0), y: DevicePixels(0) } }
    }

    /// The whole window, which is what every pass outside a group draws into.
    pub fn whole(size: Size<DevicePixels>) -> (r: Self)
        ensures
            r == RenderTarget::covering(size),
    {
        RenderTarget { size, origin: Point { x: DevicePixels(0), y: DevicePixels(0) } }
    }
}

/// The Porter-Duff operators that a single blend state and a premultiplied
/// source can express.
///
/// `SrcIn`, `SrcOut` and `DestAtop` scale the source by the destination's alpha
/// and the destination by something other than the emitted alpha, which takes
/// two sources.
#[derive(Clone, Copy, Debug, PartialEq, Eq, Hash, Structural)]
pub enum GroupComposeMode {
    SrcOver,
    DestOut,
    DestIn,
    Clear,
    Xor,
    SrcAtop,
    Plus,
}

/// What one side of a blend is multiplied by.
#[derive(Clone, Copy, Debug, PartialEq, Eq, Hash, Structural)]
pub enum BlendFactor {
    Zero,
    One,
    SourceAlpha,
    OneMinusSourceAlpha,
    DestinationAlpha,
    OneMinusDestinationAlpha,
}

impl BlendFactor {
    /// The factor for these alphas, where `one` is a full one.
    pub open spec fn amount(self, source: int, destination: int, one: int) -> int {
        match self {
            BlendFactor::Zero => 0,
            BlendFactor::One => one,
            BlendFactor::SourceAlpha => source,
            BlendFactor::OneMinusSourceAlpha => one - source,
            BlendFactor::DestinationAlpha => destination,
            BlendFactor::OneMinusDestinationAlpha => one - destination,
        }
    }
}

impl GroupComposeMode {
    pub open spec fn expressing(compose: ComposeMode) -> Option<GroupComposeMode> {
        match compose {
            ComposeMode::SrcOver => Some(GroupComposeMode::SrcOver),
            ComposeMode::DestOut => Some(GroupComposeMode::DestOut),
            ComposeMode::DestIn => Some(GroupComposeMode::DestIn),
            ComposeMode::Clear => Some(GroupComposeMode::Clear),
            ComposeMode::Xor => Some(GroupComposeMode::Xor),
            ComposeMode::SrcAtop => Some(GroupComposeMode::SrcAtop),
            ComposeMode::Plus => Some(GroupComposeMode::Plus),
            ComposeMode::PlusLighter => Some(GroupComposeMode::Plus),
            _ => None,
        }
    }

    /// The operator a scene's compose mode maps to, or `None` for one that
    /// cannot be expressed.
    pub fn of(compose: ComposeMode) -> (r: Option<Self>)
        ensures
            r == GroupComposeMode::expressing(compose),
    {
        match compose {
            ComposeMode::SrcOver => Some(GroupComposeMode::SrcOver),
            ComposeMode::DestOut => Some(GroupComposeMode::DestOut),
            ComposeMode::DestIn => Some(GroupComposeMode::DestIn),
            ComposeMode::Clear => Some(GroupComposeMode::Clear),
            ComposeMode::Xor => Some(GroupComposeMode::Xor),
            ComposeMode::SrcAtop => Some(GroupComposeMode::SrcAtop),
            ComposeMode::Plus | ComposeMode::PlusLighter => Some(GroupComposeMode::Plus),
            ComposeMode::Copy
            | ComposeMode::Dest
            | ComposeMode::DestOver
            | ComposeMode::SrcIn
            | ComposeMode::SrcOut
            | ComposeMode::DestAtop => None,
        }
    }

    pub open spec fn code(self) -> u32 {
        match self {
            GroupComposeMode::SrcOver => 0,
            GroupComposeMode::DestOut => 1,
            GroupComposeMode::DestIn => 2,
            GroupComposeMode::Clear => 3,
            GroupComposeMode::Xor => 4,
            GroupComposeMode::SrcAtop => 5,
            GroupComposeMode::Plus => 6,
        }
    }

    /// The number that a shader knows the operator by.
    pub fn to_code(self) -> (r: u32)
        ensures
            r == self.code(),
    {
        match self {
            GroupComposeMode::SrcOver => 0,
            GroupComposeMode::DestOut => 1,
            GroupComposeMode::DestIn => 2,
            GroupComposeMode::Clear => 3,
            GroupComposeMode::Xor => 4,
            GroupComposeMode::SrcAtop => 5,
            GroupComposeMode::Plus => 6,
        }
    }

    pub open spec fn factors(self) -> (BlendFactor, BlendFactor) {
        match self {
            GroupComposeMode::SrcOver => (BlendFactor::One, BlendFactor::OneMinusSourceAlpha),
            GroupComposeMode::DestOut => (BlendFactor::Zero, BlendFactor::OneMinusSourceAlpha),
            GroupComposeMode::DestIn => (BlendFactor::Zero, BlendFactor::SourceAlpha),
            GroupComposeMode::Clear => (BlendFactor::Zero, BlendFactor::OneMinusSourceAlpha),
            GroupComposeMode::Xor => (
                BlendFactor::OneMinusDestinationAlpha,
                BlendFactor::OneMinusSourceAlpha,
            ),
            GroupComposeMode::SrcAtop => (
                BlendFactor::DestinationAlpha,
                BlendFactor::OneMinusSourceAlpha,
            ),
            GroupComposeMode::Plus => (BlendFactor::One, BlendFactor::One),
        }
    }

    /// The factors that the source and the destination are multiplied by. Both
    /// colour and alpha take the same pair: the source is premultiplied.
    pub fn blend_factors(self) -> (r: (BlendFactor, BlendFactor))
        ensures
            r == self.factors(),
    {
        match self {
            GroupComposeMode::SrcOver => (BlendFactor::One, BlendFactor::OneMinusSourceAlpha),
            GroupComposeMode::DestOut => (BlendFactor::Zero, BlendFactor::OneMinusSourceAlpha),
            GroupComposeMode::DestIn => (BlendFactor::Zero, BlendFactor::SourceAlpha),
            GroupComposeMode::Clear => (BlendFactor::Zero, BlendFactor::OneMinusSourceAlpha),
            GroupComposeMode::Xor => (
                BlendFactor::OneMinusDestinationAlpha,
                BlendFactor::OneMinusSourceAlpha,
            ),
            GroupComposeMode::SrcAtop => (
                BlendFactor::DestinationAlpha,
                BlendFactor::OneMinusSourceAlpha,
            ),
            GroupComposeMode::Plus => (BlendFactor::One, BlendFactor::One),
        }
    }

    /// The factors of a composite. One that holds a filtered copy of what is
    /// underneath replaces it; any other blends as its operator says.
    pub fn composite_factors(self, backdrop: bool) -> (r: (BlendFactor, BlendFactor))
        ensures
            r == if backdrop {
                (BlendFactor::One, BlendFactor::Zero)
            } else {
                self.factors()
            },
    {
        if backdrop {
            (BlendFactor::One, BlendFactor::Zero)
        } else {
            self.blend_factors()
        }
    }
}

/// Where a group paints nothing, every operator that keeps the destination
/// outside the source leaves it as it was, and masking alone clears it.
pub proof fn an_empty_source_keeps_the_destination(
    mode: GroupComposeMode,
    destination: int,
    one: int,
)
    ensures
        mode != GroupComposeMode::DestIn ==> mode.factors().1.amount(0, destination, one) == one,
        mode == GroupComposeMode::DestIn ==> mode.factors().1.amount(0, destination, one) == 0,
{
}

/// The one quad a composite draws: where a group's picture goes, how large it
/// is, and what is cut out of it on the way down.
#[derive(Clone, Copy, Debug, PartialEq, Eq)]
pub struct GroupComposite {
    /// The part of the window that the group covers, in whole pixels.
    pub bounds: Bounds<ScaledPixels>,
    /// The size of the texture the picture is in, which is at least `bounds`.
    pub texture_size: Size<DevicePixels>,
    /// The clip path in force where the group was pushed.
    pub clip: ClipId,
    /// The alpha the whole group is composited at.
    pub opacity: i64,
    /// Where the copy of the backdrop sits in the window.
    pub backdrop_origin: Point<DevicePixels>,
    /// How much of the backdrop textures holds the copy.
    pub backdrop_size: Size<DevicePixels>,
}

} // verus!
