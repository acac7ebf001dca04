//! The pipelines that primitives and clip masks are drawn with: which shaders,
//! how they blend, and what they do to the stencil.

use crate::clip_path::FillRule;
use crate::renderer::compose::BlendFactor;
use vstd::prelude::*;

verus! {

/// How many samples of each pixel a path or a clip mask is rasterized with.
pub const PATH_SAMPLE_COUNT: u32 = 4;

/// What a pipeline draws.
#[derive(Clone, Copy, Debug, PartialEq, Eq, Hash, Structural)]
pub enum PipelineKind {
    /// Paths, into the intermediate texture.
    PathsRasterization,
    /// Rasterized paths, out of the intermediate texture.
    PathSprites,
    Shadows,
    Quads,
    Underlines,
    MonochromeSprites,
    PolychromeSprites,
    /// Video of two planes.
    Surfaces,
    /// Pictures that come with their alpha multiplied in.
    BgraSurfaces,
}

/// What the source and the destination are multiplied by before they are added
/// up, for colour and for alpha.
#[derive(Clone, Copy, Debug, PartialEq, Eq, Structural)]
pub struct BlendRecipe {
    pub source_color: BlendFactor,
    pub source_alpha: BlendFactor,
    pub destination_color: BlendFactor,
    pub destination_alpha: BlendFactor,
}

impl BlendRecipe {
    /// The alpha left on the target, where `one` is a full one; as a part of
    /// `one` times `one`.
    pub open spec fn alpha(self, source: int, destination: int, one: int) -> int {
        self.source_alpha.amount(source, destination, one) * source
            + self.destination_alpha.amount(source, destination, one) * destination
    }

    /// The colour left on the target, of a channel that the shader emits as
    /// `emitted` over one that is `there`; as a part of `one` times `one`.
    pub open spec fn color(
        self,
        emitted: int,
        there: int,
        source: int,
        destination: int,
        one: int,
    ) -> int {
        self.source_color.amount(source, destination, one) * emitted
            + self.destination_color.amount(source, destination, one) * there
    }
}

impl PipelineKind {
    /// Whether the shader emits colour with its alpha multiplied in.
    pub open spec fn emits_premultiplied(self) -> bool {
        match self {
            PipelineKind::PathsRasterization => true,
            PipelineKind::PathSprites => true,
            PipelineKind::BgraSurfaces => true,
            _ => false,
        }
    }

    pub open spec fn blending(self) -> BlendRecipe {
        BlendRecipe {
            source_color: if self.emits_premultiplied() {
                BlendFactor::One
            } else {
                BlendFactor::SourceAlpha
            },
            source_alpha: BlendFactor::One,
            destination_color: BlendFactor::OneMinusSourceAlpha,
            destination_alpha: BlendFactor::OneMinusSourceAlpha,
        }
    }

    /// How what the pipeline emits is laid over what is there.
    pub fn blend(self) -> (r: BlendRecipe)
        ensures
            r == self.blending(),
    {
        let source_color = match self {
            PipelineKind::PathsRasterization
            | PipelineKind::PathSprites
            | PipelineKind::BgraSurfaces => BlendFactor::One,
            PipelineKind::Shadows
            | PipelineKind::Quads
            | PipelineKind::Underlines
            | PipelineKind::MonochromeSprites
            | PipelineKind::PolychromeSprites
            | PipelineKind::Surfaces => BlendFactor::SourceAlpha,
        };
        BlendRecipe {
            source_color,
            source_alpha: BlendFactor::One,
            destination_color: BlendFactor::OneMinusSourceAlpha,
            destination_alpha: BlendFactor::OneMinusSourceAlpha,
        }
    }

    pub open spec fn sample_count(self) -> u32 {
        if self == PipelineKind::PathsRasterization {
            PATH_SAMPLE_COUNT
        } else {
            1
        }
    }

    /// How many samples of each pixel the pipeline takes.
    pub fn samples(self) -> (r: u32)
        ensures
            r == self.sample_count(),
    {
        match self {
            PipelineKind::PathsRasterization => PATH_SAMPLE_COUNT,
            _ => 1,
        }
    }

    pub open spec fn vertex_name(self) -> Seq<char> {
        match self {
            PipelineKind::PathsRasterization => "path_rasterization_vertex"@,
            PipelineKind::PathSprites => "path_sprite_vertex"@,
            PipelineKind::Shadows => "shadow_vertex"@,
            PipelineKind::Quads => "quad_vertex"@,
            PipelineKind::Underlines => "underline_vertex"@,
            PipelineKind::MonochromeSprites => "monochrome_sprite_vertex"@,
            PipelineKind::PolychromeSprites => "polychrome_sprite_vertex"@,
            PipelineKind::Surfaces => "surface_vertex"@,
            PipelineKind::BgraSurfaces => "surface_vertex"@,
        }
    }

    /// The name of the pipeline's vertex shader.
    pub fn vertex_function(self) -> (r: &'static str)
        ensures
            r@ == self.vertex_name(),
    {
        match self {
            PipelineKind::PathsRasterization => "path_rasterization_vertex",
            PipelineKind::PathSprites => "path_sprite_vertex",
            PipelineKind::Shadows => "shadow_vertex",
            PipelineKind::Quads => "quad_vertex",
            PipelineKind::Underlines => "underline_vertex",
            PipelineKind::MonochromeSprites => "monochrome_sprite_vertex",
            PipelineKind::PolychromeSprites => "polychrome_sprite_vertex",
            PipelineKind::Surfaces => "surface_vertex",
            PipelineKind::BgraSurfaces => "surface_vertex",
        }
    }

    pub open spec fn fragment_name(self) -> Seq<char> {
        match self {
            PipelineKind::PathsRasterization => "path_rasterization_fragment"@,
            PipelineKind::PathSprites => "path_sprite_fragment"@,
            PipelineKind::Shadows => "shadow_fragment"@,
            PipelineKind::Quads => "quad_fragment"@,
            PipelineKind::Underlines => "underline_fragment"@,
            PipelineKind::MonochromeSprites => "monochrome_sprite_fragment"@,
            PipelineKind::PolychromeSprites => "polychrome_sprite_fragment"@,
            PipelineKind::Surfaces => "surface_fragment"@,
            PipelineKind::BgraSurfaces => "surface_bgra_fragment"@,
        }
    }

    /// The name of the pipeline's fragment shader.
    pub fn fragment_function(self) -> (r: &'static str)
        ensures
            r@ == self.fragment_name(),
    {
        match self {
            PipelineKind::PathsRasterization => "path_rasterization_fragment",
            PipelineKind::PathSprites => "path_sprite_fragment",
            PipelineKind::Shadows => "shadow_fragment",
            PipelineKind::Quads => "quad_fragment",
            PipelineKind::Underlines => "underline_fragment",
            PipelineKind::MonochromeSprites => "monochrome_sprite_fragment",
            PipelineKind::PolychromeSprites => "polychrome_sprite_fragment",
            PipelineKind::Surfaces => "surface_fragment",
            PipelineKind::BgraSurfaces => "surface_bgra_fragment",
        }
    }
}

/// Alpha adds up as source-over does: what is there shows through as far as the
/// source leaves it. So what is drawn over something transparent in part is
/// never less opaque than either, and never opaque unless one of them is.
pub proof fn alpha_adds_up_as_source_over(
    kind: PipelineKind,
    source: int,
    destination: int,
    one: int,
)
    requires
        0 <= source <= one,
        0 <= destination <= one,
        0 < one,
    ensures
        kind.blending().alpha(source, destination, one) == one * source + (one - source)
            * destination,
        one * source <= kind.blending().alpha(source, destination, one) <= one * one,
        one * destination <= kind.blending().alpha(source, destination, one),
        kind.blending().alpha(source, destination, one) == one * one ==> source == one
            || destination == one,
{
    let rest = (one - source) * destination;
    assert(0 <= rest <= (one - source) * one) by (nonlinear_arith)
        requires
            rest == (one - source) * destination,
            0 <= source <= one,
            0 <= destination <= one,
    ;
    assert((one - source) * one == one * one - one * source) by (nonlinear_arith);
    assert(one * destination <= one * source + (one - source) * destination) by (nonlinear_arith)
        requires
            0 <= source,
            0 <= destination <= one,
    ;
    assert(one * source + (one - source) * destination == one * one - (one - source) * (one
        - destination)) by (nonlinear_arith);
    assert(source < one && destination < one ==> 0 < (one - source) * (one - destination))
        by (nonlinear_arith);
}

/// A target that holds colour with its alpha multiplied in goes on doing so,
/// whether the pipeline's own colour comes multiplied or not: no channel is
/// left brighter than the alpha.
pub proof fn targets_stay_premultiplied(
    kind: PipelineKind,
    emitted: int,
    there: int,
    source: int,
    destination: int,
    one: int,
)
    requires
        0 <= source <= one,
        0 <= destination <= one,
        0 <= emitted <= if kind.emits_premultiplied() {
            source
        } else {
            one
        },
        0 <= there <= destination,
    ensures
        0 <= kind.blending().color(emitted, there, source, destination, one)
            <= kind.blending().alpha(source, destination, one),
{
    assert(0 <= (one - source) * there <= (one - source) * destination) by (nonlinear_arith)
        requires
            0 <= source <= one,
            0 <= there <= destination,
    ;
    if kind.emits_premultiplied() {
        assert(0 <= one * emitted <= one * source) by (nonlinear_arith)
            requires
                0 <= emitted <= source,
                0 <= one,
        ;
    } else {
        assert(0 <= source * emitted <= one * source) by (nonlinear_arith)
            requires
                0 <= emitted <= one,
                0 <= source,
        ;
    }
}

/// What a triangle does to a pixel's stencil.
#[derive(Clone, Copy, Debug, PartialEq, Eq, Structural)]
pub enum StencilOperation {
    Keep,
    Zero,
    Invert,
    IncrementWrap,
    DecrementWrap,
}

/// When a triangle passes the stencil, which is held against zero.
#[derive(Clone, Copy, Debug, PartialEq, Eq, Structural)]
pub enum StencilCompare {
    Always,
    NotEqual,
}

/// What one half of stencil-and-cover does with the stencil.
#[derive(Clone, Copy, Debug, PartialEq, Eq, Structural)]
pub struct StencilRecipe {
    pub compare: StencilCompare,
    /// For triangles that face the viewer.
    pub front: StencilOperation,
    /// For triangles that face away.
    pub back: StencilOperation,
    pub read_mask: u32,
    pub write_mask: u32,
}

/// The one bit of the stencil that the even-odd rule flips.
pub const EVEN_ODD_STENCIL_MASK: u32 = 1;

pub open spec fn stencil_bits(fill_rule: FillRule) -> u32 {
    match fill_rule {
        FillRule::EvenOdd => EVEN_ODD_STENCIL_MASK,
        FillRule::NonZero => u32::MAX,
    }
}

fn bits_of(fill_rule: FillRule) -> (r: u32)
    ensures
        r == stencil_bits(fill_rule),
{
    match fill_rule {
        FillRule::EvenOdd => EVEN_ODD_STENCIL_MASK,
        FillRule::NonZero => u32::MAX,
    }
}

impl StencilOperation {
    /// The eight bits that an operation makes of `value`.
    pub open spec fn apply(self, value: int) -> int {
        match self {
            StencilOperation::Keep => value,
            StencilOperation::Zero => 0,
            StencilOperation::Invert => 255 - value,
            StencilOperation::IncrementWrap => (value + 1) % 256,
            StencilOperation::DecrementWrap => (value - 1) % 256,
        }
    }
}

impl StencilRecipe {
    /// Counting a path's triangles into the stencil: up on one facing and down
    /// on the other, or one bit flipped on both.
    pub open spec fn counts(fill_rule: FillRule) -> StencilRecipe {
        StencilRecipe {
            compare: StencilCompare::Always,
            front: match fill_rule {
                FillRule::EvenOdd => StencilOperation::Invert,
                FillRule::NonZero => StencilOperation::IncrementWrap,
            },
            back: match fill_rule {
                FillRule::EvenOdd => StencilOperation::Invert,
                FillRule::NonZero => StencilOperation::DecrementWrap,
            },
            read_mask: 0,
            write_mask: stencil_bits(fill_rule),
        }
    }

    /// Painting where the count is not zero, and setting it to zero.
    pub open spec fn covers(fill_rule: FillRule) -> StencilRecipe {
        StencilRecipe {
            compare: StencilCompare::NotEqual,
            front: StencilOperation::Zero,
            back: StencilOperation::Zero,
            read_mask: stencil_bits(fill_rule),
            write_mask: stencil_bits(fill_rule),
        }
    }

    /// The half that counts a path's triangles.
    pub fn counting(fill_rule: FillRule) -> (r: Self)
        ensures
            r == StencilRecipe::counts(fill_rule),
    {
        let (front, back) = match fill_rule {
            FillRule::EvenOdd => (StencilOperation::Invert, StencilOperation::Invert),
            FillRule::NonZero => (
                StencilOperation::IncrementWrap,
                StencilOperation::DecrementWrap,
            ),
        };
        StencilRecipe {
            compare: StencilCompare::Always,
            front,
            back,
            read_mask: 0,
            write_mask: bits_of(fill_rule),
        }
    }

    /// The half that paints a clip's tile.
    pub fn covering(fill_rule: FillRule) -> (r: Self)
        ensures
            r == StencilRecipe::covers(fill_rule),
    {
        StencilRecipe {
            compare: StencilCompare::NotEqual,
            front: StencilOperation::Zero,
            back: StencilOperation::Zero,
            read_mask: bits_of(fill_rule),
            write_mask: bits_of(fill_rule),
        }
    }

    /// The part of `value` that a mask lets through: its last bit, or all of it.
    pub open spec fn masked(value: int, mask: u32) -> int {
        if mask == EVEN_ODD_STENCIL_MASK {
            value % 2
        } else {
            value
        }
    }

    /// Whether a triangle passes over a pixel whose stencil is `value`.
    pub open spec fn passes(self, value: int) -> bool {
        match self.compare {
            StencilCompare::Always => true,
            StencilCompare::NotEqual => StencilRecipe::masked(value, self.read_mask) != 0,
        }
    }

    /// The stencil of a pixel after a triangle. Bits that the mask leaves out
    /// stay.
    pub open spec fn after(self, value: int, faces_viewer: bool) -> int {
        let operation = if faces_viewer {
            self.front
        } else {
            self.back
        };
        if !self.passes(value) {
            value
        } else if self.write_mask == EVEN_ODD_STENCIL_MASK {
            value - value % 2 + operation.apply(value) % 2
        } else {
            operation.apply(value)
        }
    }
}

/// The stencil of a pixel after triangles that face the viewer or not, where it
/// was zero before.
pub open spec fn counted(fill_rule: FillRule, facings: Seq<bool>) -> int
    decreases facings.len(),
{
    if facings.len() == 0 {
        0
    } else {
        StencilRecipe::counts(fill_rule).after(
            counted(fill_rule, facings.drop_last()),
            facings.last(),
        )
    }
}

/// How often a path winds around a pixel: once up for each triangle over it
/// that faces the viewer, and once down for each that does not.
pub open spec fn winding(facings: Seq<bool>) -> int
    decreases facings.len(),
{
    if facings.len() == 0 {
        0
    } else if facings.last() {
        winding(facings.drop_last()) + 1
    } else {
        winding(facings.drop_last()) - 1
    }
}

/// The stencil counts windings, as far as eight bits hold them, or whether
/// there is an odd number of triangles.
proof fn lemma_counted(fill_rule: FillRule, facings: Seq<bool>)
    ensures
        0 <= counted(fill_rule, facings) < 256,
        match fill_rule {
            FillRule::NonZero => counted(fill_rule, facings) == winding(facings) % 256,
            FillRule::EvenOdd => counted(fill_rule, facings) == facings.len() as int % 2,
        },
    decreases facings.len(),
{
    if facings.len() > 0 {
        lemma_counted(fill_rule, facings.drop_last());
        let before = counted(fill_rule, facings.drop_last());
        match fill_rule {
            FillRule::NonZero => {
                assert((before + 1) % 256 == (winding(facings.drop_last()) + 1) % 256);
                assert((before - 1) % 256 == (winding(facings.drop_last()) - 1) % 256);
            },
            FillRule::EvenOdd => {
                assert(before == 0 || before == 1);
                assert((255 - before) % 2 == 1 - before);
            },
        }
    }
}

/// A clip's tile is painted where its path winds around the pixel, by the
/// path's fill rule; the count is exact for paths that wind around a pixel
/// fewer than 256 times.
pub proof fn covering_follows_the_fill_rule(fill_rule: FillRule, facings: Seq<bool>)
    requires
        fill_rule == FillRule::NonZero ==> -256 < winding(facings) < 256,
    ensures
        StencilRecipe::covers(fill_rule).passes(counted(fill_rule, facings)) == match fill_rule {
            FillRule::NonZero => winding(facings) != 0,
            FillRule::EvenOdd => facings.len() as int % 2 != 0,
        },
{
    lemma_counted(fill_rule, facings);
}

/// Painting a clip's tile leaves every pixel's stencil at zero, so that the next
/// clip of the pass starts anew.
pub proof fn every_clip_starts_from_a_clean_stencil(
    fill_rule: FillRule,
    facings: Seq<bool>,
    faces_viewer: bool,
)
    ensures
        StencilRecipe::covers(fill_rule).after(counted(fill_rule, facings), faces_viewer) == 0,
{
    lemma_counted(fill_rule, facings);
}

/// The edges inside a fan of triangles cancel: two triangles over a pixel that
/// face opposite ways count for nothing.
pub proof fn opposite_triangles_cancel(fill_rule: FillRule, facings: Seq<bool>, facing: bool)
    ensures
        counted(fill_rule, facings.push(facing).push(!facing)) == counted(fill_rule, facings),
{
    let once = facings.push(facing);
    let twice = once.push(!facing);
    assert(twice.drop_last() =~= once);
    assert(once.drop_last() =~= facings);
    lemma_counted(fill_rule, facings);
    lemma_counted(fill_rule, twice);
    assert(winding(twice) == winding(facings)) by {
        assert(winding(twice) == winding(once) + if facing {
            -1int
        } else {
            1int
        });
        assert(winding(once) == winding(facings) + if facing {
            1int
        } else {
            -1int
        });
    }
    assert(facings.len() as int % 2 == twice.len() as int % 2);
}

} // verus!
