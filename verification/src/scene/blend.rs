//! How a group is combined with what lies underneath it.

use vstd::prelude::*;

verus! {

/// The blend function a group is composited with.
#[derive(Clone, Copy, Debug, PartialEq, Eq, Hash, Default, Structural)]
pub enum MixMode {
    #[default]
    Normal,
    Multiply,
    Screen,
    Overlay,
    Darken,
    Lighten,
    ColorDodge,
    ColorBurn,
    HardLight,
    SoftLight,
    Difference,
    Exclusion,
    Hue,
    Saturation,
    Color,
    Luminosity,
    /// Not a blend function: keep the destination's alpha and take the source's
    /// colour, which is how a clip is expressed in this model.
    Clip,
}

/// The Porter-Duff operator a group is composited with.
#[derive(Clone, Copy, Debug, PartialEq, Eq, Hash, Default, Structural)]
pub enum ComposeMode {
    Clear,
    Copy,
    Dest,
    #[default]
    SrcOver,
    DestOver,
    SrcIn,
    /// Keep the destination where the source is opaque.
    DestIn,
    SrcOut,
    /// Keep the destination where the source is not opaque.
    DestOut,
    SrcAtop,
    DestAtop,
    Xor,
    Plus,
    PlusLighter,
}

impl MixMode {
    pub open spec fn code(self) -> u8 {
        match self {
            MixMode::Normal => 0,
            MixMode::Multiply => 1,
            MixMode::Screen => 2,
            MixMode::Overlay => 3,
            MixMode::Darken => 4,
            MixMode::Lighten => 5,
            MixMode::ColorDodge => 6,
            MixMode::ColorBurn => 7,
            MixMode::HardLight => 8,
            MixMode::SoftLight => 9,
            MixMode::Difference => 10,
            MixMode::Exclusion => 11,
            MixMode::Hue => 12,
            MixMode::Saturation => 13,
            MixMode::Color => 14,
            MixMode::Luminosity => 15,
            MixMode::Clip => 128,
        }
    }

    /// The number a shader knows the mode by.
    pub fn to_code(self) -> (r: u8)
        ensures
            r == self.code(),
    {
        match self {
            MixMode::Normal => 0,
            MixMode::Multiply => 1,
            MixMode::Screen => 2,
            MixMode::Overlay => 3,
            MixMode::Darken => 4,
            MixMode::Lighten => 5,
            MixMode::ColorDodge => 6,
            MixMode::ColorBurn => 7,
            MixMode::HardLight => 8,
            MixMode::SoftLight => 9,
            MixMode::Difference => 10,
            MixMode::Exclusion => 11,
            MixMode::Hue => 12,
            MixMode::Saturation => 13,
            MixMode::Color => 14,
            MixMode::Luminosity => 15,
            MixMode::Clip => 128,
        }
    }
}

impl ComposeMode {
    pub open spec fn code(self) -> u8 {
        match self {
            ComposeMode::Clear => 0,
            ComposeMode::Copy => 1,
            ComposeMode::Dest => 2,
            ComposeMode::SrcOver => 3,
            ComposeMode::DestOver => 4,
            ComposeMode::SrcIn => 5,
            ComposeMode::DestIn => 6,
            ComposeMode::SrcOut => 7,
            ComposeMode::DestOut => 8,
            ComposeMode::SrcAtop => 9,
            ComposeMode::DestAtop => 10,
            ComposeMode::Xor => 11,
            ComposeMode::Plus => 12,
            ComposeMode::PlusLighter => 13,
        }
    }

    /// The number a shader knows the operator by.
    pub fn to_code(self) -> (r: u8)
        ensures
            r == self.code(),
    {
        match self {
            ComposeMode::Clear => 0,
            ComposeMode::Copy => 1,
            ComposeMode::Dest => 2,
            ComposeMode::SrcOver => 3,
            ComposeMode::DestOver => 4,
            ComposeMode::SrcIn => 5,
            ComposeMode::DestIn => 6,
            ComposeMode::SrcOut => 7,
            ComposeMode::DestOut => 8,
            ComposeMode::SrcAtop => 9,
            ComposeMode::DestAtop => 10,
            ComposeMode::Xor => 11,
            ComposeMode::Plus => 12,
            ComposeMode::PlusLighter => 13,
        }
    }
}

/// How a group's picture is combined with what is already on the target
/// underneath it.
#[derive(Clone, Copy, Debug, PartialEq, Eq, Hash, Structural)]
pub struct BlendMode {
    pub mix: MixMode,
    pub compose: ComposeMode,
}

impl BlendMode {
    pub open spec fn plain() -> BlendMode {
        BlendMode { mix: MixMode::Normal, compose: ComposeMode::SrcOver }
    }

    /// The mode that changes nothing: paint the group over what is behind it.
    pub fn normal() -> (r: BlendMode)
        ensures
            r == BlendMode::plain(),
    {
        BlendMode { mix: MixMode::Normal, compose: ComposeMode::SrcOver }
    }

    /// Whether this is the mode that changes nothing, which needs no target of
    /// its own to be composited.
    pub fn is_normal(self) -> (r: bool)
        ensures
            r == (self == BlendMode::plain()),
    {
        self == BlendMode::normal()
    }
}

impl Default for BlendMode {
    fn default() -> (r: Self)
        ensures
            r == BlendMode::plain(),
    {
        BlendMode::normal()
    }
}

} // verus!
