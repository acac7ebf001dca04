//! What the operators that lay groups down do.

use crate::renderer::compose::{BlendFactor, GroupComposeMode};
use crate::renderer::pipelines::PipelineKind;
use crate::scene::blend::ComposeMode;
use vstd::prelude::*;

verus! {

/// What a blend leaves of a channel, times `one`: the source's share and the
/// destination's, for these alphas.
pub open spec fn blended(
    factors: (BlendFactor, BlendFactor),
    source: int,
    destination: int,
    source_alpha: int,
    destination_alpha: int,
    one: int,
) -> int {
    source * factors.0.amount(source_alpha, destination_alpha, one) + destination
        * factors.1.amount(source_alpha, destination_alpha, one)
}

/// Where source and destination are each there or not, an operator shows what
/// its name says: over, the source where there is one and else the destination;
/// out, the destination where there is no source; in, the destination where
/// there is one; clear, nothing where there is a source; xor, either where there
/// is not the other; atop, the source within the destination; plus, both.
pub proof fn operators_show_what_they_say(
    mode: GroupComposeMode,
    source: int,
    destination: int,
    has_source: bool,
    has_destination: bool,
    one: int,
)
    requires
        !has_source ==> source == 0,
        !has_destination ==> destination == 0,
    ensures
        ({
            let alpha = if has_source {
                one
            } else {
                0
            };
            let under = if has_destination {
                one
            } else {
                0
            };
            let shown = match mode {
                GroupComposeMode::SrcOver => if has_source {
                    source
                } else {
                    destination
                },
                GroupComposeMode::DestOut => if has_source {
                    0
                } else {
                    destination
                },
                GroupComposeMode::DestIn => if has_source {
                    destination
                } else {
                    0
                },
                GroupComposeMode::Clear => if has_source {
                    0
                } else {
                    destination
                },
                GroupComposeMode::Xor => if has_source && has_destination {
                    0
                } else {
                    source + destination
                },
                GroupComposeMode::SrcAtop => if !has_destination {
                    0
                } else if has_source {
                    source
                } else {
                    destination
                },
                GroupComposeMode::Plus => source + destination,
            };
            blended(mode.factors(), source, destination, alpha, under, one) == shown * one
        }),
{
    assert(source * 0 == 0 && destination * 0 == 0);
    assert((source + destination) * one == source * one + destination * one) by (nonlinear_arith);
    assert(0 * one == 0);
}

/// Between there and not, an operator moves evenly: each share is linear in the
/// alphas, so a source half there leaves half of what it hides.
pub proof fn operators_move_evenly(
    mode: GroupComposeMode,
    source_alpha: int,
    destination_alpha: int,
    one: int,
)
    requires
        0 <= source_alpha <= one,
        0 <= destination_alpha <= one,
    ensures
        ({
            let there = mode.factors().1.amount(one, destination_alpha, one);
            let gone = mode.factors().1.amount(0, destination_alpha, one);
            one * mode.factors().1.amount(source_alpha, destination_alpha, one) == there
                * source_alpha + gone * (one - source_alpha)
        }),
        ({
            let there = mode.factors().0.amount(source_alpha, one, one);
            let gone = mode.factors().0.amount(source_alpha, 0, one);
            one * mode.factors().0.amount(source_alpha, destination_alpha, one) == there
                * destination_alpha + gone * (one - destination_alpha)
        }),
{
    assert(one * source_alpha + one * (one - source_alpha) == one * one) by (nonlinear_arith);
    assert(one * destination_alpha + one * (one - destination_alpha) == one * one)
        by (nonlinear_arith);
    assert(0 * source_alpha == 0 && 0 * destination_alpha == 0);
    assert(0 * (one - source_alpha) == 0 && 0 * (one - destination_alpha) == 0);
}

/// The scene's operators are laid down by the one of the same name, the two
/// kinds of adding alike, and only those that one blend can express.
pub proof fn operators_keep_their_names(compose: ComposeMode)
    ensures
        match GroupComposeMode::expressing(compose) {
            Some(GroupComposeMode::SrcOver) => compose == ComposeMode::SrcOver,
            Some(GroupComposeMode::DestOut) => compose == ComposeMode::DestOut,
            Some(GroupComposeMode::DestIn) => compose == ComposeMode::DestIn,
            Some(GroupComposeMode::Clear) => compose == ComposeMode::Clear,
            Some(GroupComposeMode::Xor) => compose == ComposeMode::Xor,
            Some(GroupComposeMode::SrcAtop) => compose == ComposeMode::SrcAtop,
            Some(GroupComposeMode::Plus) => compose == ComposeMode::Plus || compose
                == ComposeMode::PlusLighter,
            None => {
                ||| compose == ComposeMode::Copy
                ||| compose == ComposeMode::Dest
                ||| compose == ComposeMode::DestOver
                ||| compose == ComposeMode::SrcIn
                ||| compose == ComposeMode::SrcOut
                ||| compose == ComposeMode::DestAtop
            },
        },
{
}

/// Two operators are never known by one number.
pub proof fn operators_have_numbers_of_their_own(a: GroupComposeMode, b: GroupComposeMode)
    requires
        a.code() == b.code(),
    ensures
        a == b,
{
}

/// Paths, what is copied of them, and surfaces in one plane bring their colour
/// with its alpha multiplied in, and it is laid down as it is; the colour of
/// any other kind is laid down as far as its alpha says. What was there shows
/// through as far as the alpha leaves it.
pub proof fn colours_are_laid_down_once(
    kind: PipelineKind,
    emitted: int,
    there: int,
    source: int,
    destination: int,
    one: int,
)
    ensures
        kind == PipelineKind::PathsRasterization || kind == PipelineKind::PathSprites || kind
            == PipelineKind::BgraSurfaces ==> kind.blending().color(
            emitted,
            there,
            source,
            destination,
            one,
        ) == one * emitted + (one - source) * there,
        kind != PipelineKind::PathsRasterization && kind != PipelineKind::PathSprites && kind
            != PipelineKind::BgraSurfaces ==> kind.blending().color(
            emitted,
            there,
            source,
            destination,
            one,
        ) == source * emitted + (one - source) * there,
{
}

} // verus!
