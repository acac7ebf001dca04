//! Colours, as fixed-point channels.

use crate::fixed::{max, min, product, times, ONE};
use vstd::prelude::*;

verus! {

/// `v`, held to the range of an opacity.
pub open spec fn unit_clamp(v: int) -> int {
    max(0, min(v, ONE as int))
}

pub fn unit_clamped(v: i64) -> (r: i64)
    ensures
        r == unit_clamp(v as int),
{
    if v < 0 {
        0
    } else if v > ONE {
        ONE
    } else {
        v
    }
}

/// A colour: hue, saturation, lightness and alpha.
#[derive(Clone, Copy, Debug, PartialEq, Eq, Hash, Default, Structural)]
pub struct Hsla {
    pub h: i64,
    pub s: i64,
    pub l: i64,
    pub a: i64,
}

impl Hsla {
    /// The colour with its alpha multiplied by `factor`.
    pub open spec fn faded(self, factor: int) -> Hsla {
        Hsla { a: product(self.a as int, unit_clamp(factor)) as i64, ..self }
    }

    /// The colour with its alpha multiplied by `factor`, which counts as at
    /// least nothing and at most one.
    pub fn opacity(&self, factor: i64) -> (r: Hsla)
        ensures
            r == self.faded(factor as int),
    {
        Hsla { h: self.h, s: self.s, l: self.l, a: times(self.a, unit_clamped(factor)) }
    }
}

/// The space in which two colours of a gradient are mixed.
#[derive(Clone, Copy, Debug, PartialEq, Eq, Hash, Default, Structural)]
pub enum ColorSpace {
    #[default]
    Srgb,
    Oklab,
}

impl ColorSpace {
    pub open spec fn code(self) -> u8 {
        match self {
            ColorSpace::Srgb => 0,
            ColorSpace::Oklab => 1,
        }
    }

    /// The number the space is known by.
    pub fn to_code(self) -> (r: u8)
        ensures
            r == self.code(),
    {
        match self {
            ColorSpace::Srgb => 0,
            ColorSpace::Oklab => 1,
        }
    }
}

/// A colour on a gradient's line, and where on the line it stands.
#[derive(Clone, Copy, Debug, PartialEq, Eq, Hash, Default, Structural)]
pub struct LinearColorStop {
    pub color: Hsla,
    pub percentage: i64,
}

impl LinearColorStop {
    pub open spec fn faded(self, factor: int) -> LinearColorStop {
        LinearColorStop { color: self.color.faded(factor), ..self }
    }

    /// The stop with its colour's alpha multiplied by `factor`.
    pub fn opacity(&self, factor: i64) -> (r: LinearColorStop)
        ensures
            r == self.faded(factor as int),
    {
        LinearColorStop { color: self.color.opacity(factor), percentage: self.percentage }
    }
}

/// What fills a [`Background`].
#[derive(Clone, Copy, Debug, PartialEq, Eq, Hash, Default, Structural)]
pub enum BackgroundTag {
    #[default]
    Solid,
    LinearGradient,
    PatternSlash,
    Checkerboard,
}

/// What a quad or a path is filled with.
#[derive(Clone, Copy, Debug, PartialEq, Eq, Hash, Default, Structural)]
pub struct Background {
    pub tag: BackgroundTag,
    pub color_space: ColorSpace,
    pub solid: Hsla,
    pub gradient_angle_or_pattern_height: i64,
    pub from_stop: LinearColorStop,
    pub to_stop: LinearColorStop,
}

impl Background {
    /// A fill of one colour.
    pub open spec fn of_color(solid: Hsla) -> Background {
        let nothing = Hsla { h: 0, s: 0, l: 0, a: 0 };
        let stop = LinearColorStop { color: nothing, percentage: 0 };
        Background {
            tag: BackgroundTag::Solid,
            color_space: ColorSpace::Srgb,
            solid,
            gradient_angle_or_pattern_height: 0,
            from_stop: stop,
            to_stop: stop,
        }
    }

    pub open spec fn faded(self, factor: int) -> Background {
        Background {
            solid: self.solid.faded(factor),
            from_stop: self.from_stop.faded(factor),
            to_stop: self.to_stop.faded(factor),
            ..self
        }
    }

    /// The fill with every colour's alpha multiplied by `factor`.
    pub fn opacity(&self, factor: i64) -> (r: Background)
        ensures
            r == self.faded(factor as int),
    {
        Background {
            tag: self.tag,
            color_space: self.color_space,
            solid: self.solid.opacity(factor),
            gradient_angle_or_pattern_height: self.gradient_angle_or_pattern_height,
            from_stop: self.from_stop.opacity(factor),
            to_stop: self.to_stop.opacity(factor),
        }
    }
}

impl From<Hsla> for Background {
    fn from(solid: Hsla) -> (r: Self) {
        let nothing = Hsla { h: 0, s: 0, l: 0, a: 0 };
        let stop = LinearColorStop { color: nothing, percentage: 0 };
        Background {
            tag: BackgroundTag::Solid,
            color_space: ColorSpace::Srgb,
            solid,
            gradient_angle_or_pattern_height: 0,
            from_stop: stop,
            to_stop: stop,
        }
    }
}

impl vstd::std_specs::convert::FromSpecImpl<Hsla> for Background {
    open spec fn obeys_from_spec() -> bool {
        true
    }

    open spec fn from_spec(solid: Hsla) -> Background {
        Background::of_color(solid)
    }
}

} // verus!
