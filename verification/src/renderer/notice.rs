//! What a renderer has to say where it cannot draw what a scene asks for.

use crate::renderer::extent::Extent;
use crate::scene::blend::{ComposeMode, MixMode};
use vstd::prelude::*;

verus! {

/// Why a group is not drawn as it asks to be.
#[derive(Clone, Copy, Debug, PartialEq, Eq)]
pub enum Notice {
    /// Isolated groups nest too deep; the innermost are painted without
    /// isolation.
    TooDeep,
    /// A target of this size would take its pool past its budget. The group is
    /// painted without isolation, or, for a working texture of the filters, the
    /// filter it was for is dropped.
    OverBudget { wanted: Extent, budget: u64, filters: bool },
    /// A backdrop filter under this operator is not implemented; the group is
    /// composited over an unfiltered backdrop.
    BackdropUnder(ComposeMode),
    /// The window's drawable cannot be read back yet; the group is composited
    /// over an unfiltered backdrop for one frame.
    UnreadableDrawable,
    /// A blur of this standard deviation reaches further than one pass reads,
    /// and is integrated every `stride` texels instead.
    CoarseBlur { sigma: i64, tail: i32, stride: i32 },
    /// This blend mode is not implemented; the group is composited normally.
    UnknownMix(MixMode),
    /// This operator is not implemented; the group is composited source-over.
    UnknownCompose(ComposeMode),
}

} // verus!
