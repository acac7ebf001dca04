//! Runs of primitives.

use core::ops::Range;
use vstd::prelude::*;

verus! {

/// The kinds of primitive, in the order in which those of one draw order are
/// drawn.
#[derive(Clone, Copy, Debug, PartialEq, Eq, PartialOrd, Ord, Default, Structural)]
pub enum PrimitiveKind {
    Shadow,
    #[default]
    Quad,
    Path,
    Underline,
    MonochromeSprite,
    SubpixelSprite,
    PolychromeSprite,
    Surface,
}

impl PrimitiveKind {
    /// Where the kind stands among the kinds.
    pub open spec fn rank(self) -> int {
        match self {
            PrimitiveKind::Shadow => 0,
            PrimitiveKind::Quad => 1,
            PrimitiveKind::Path => 2,
            PrimitiveKind::Underline => 3,
            PrimitiveKind::MonochromeSprite => 4,
            PrimitiveKind::SubpixelSprite => 5,
            PrimitiveKind::PolychromeSprite => 6,
            PrimitiveKind::Surface => 7,
        }
    }

    /// The kind that stands at `rank`.
    pub open spec fn of_rank(rank: int) -> PrimitiveKind {
        if rank == 0 {
            PrimitiveKind::Shadow
        } else if rank == 1 {
            PrimitiveKind::Quad
        } else if rank == 2 {
            PrimitiveKind::Path
        } else if rank == 3 {
            PrimitiveKind::Underline
        } else if rank == 4 {
            PrimitiveKind::MonochromeSprite
        } else if rank == 5 {
            PrimitiveKind::SubpixelSprite
        } else if rank == 6 {
            PrimitiveKind::PolychromeSprite
        } else {
            PrimitiveKind::Surface
        }
    }

    /// The kind that stands at `rank`.
    pub fn at_rank(rank: u64) -> (r: PrimitiveKind)
        ensures
            r == PrimitiveKind::of_rank(rank as int),
    {
        if rank == 0 {
            PrimitiveKind::Shadow
        } else if rank == 1 {
            PrimitiveKind::Quad
        } else if rank == 2 {
            PrimitiveKind::Path
        } else if rank == 3 {
            PrimitiveKind::Underline
        } else if rank == 4 {
            PrimitiveKind::MonochromeSprite
        } else if rank == 5 {
            PrimitiveKind::SubpixelSprite
        } else if rank == 6 {
            PrimitiveKind::PolychromeSprite
        } else {
            PrimitiveKind::Surface
        }
    }
}

/// One number for each kind of primitive.
pub struct Marks {
    pub shadows: int,
    pub quads: int,
    pub paths: int,
    pub underlines: int,
    pub monochrome_sprites: int,
    pub subpixel_sprites: int,
    pub polychrome_sprites: int,
    pub surfaces: int,
}

impl Marks {
    pub open spec fn at(self, kind: PrimitiveKind) -> int {
        match kind {
            PrimitiveKind::Shadow => self.shadows,
            PrimitiveKind::Quad => self.quads,
            PrimitiveKind::Path => self.paths,
            PrimitiveKind::Underline => self.underlines,
            PrimitiveKind::MonochromeSprite => self.monochrome_sprites,
            PrimitiveKind::SubpixelSprite => self.subpixel_sprites,
            PrimitiveKind::PolychromeSprite => self.polychrome_sprites,
            PrimitiveKind::Surface => self.surfaces,
        }
    }

    /// The marks with that of one kind moved.
    pub open spec fn with(self, kind: PrimitiveKind, at: int) -> Marks {
        match kind {
            PrimitiveKind::Shadow => Marks { shadows: at, ..self },
            PrimitiveKind::Quad => Marks { quads: at, ..self },
            PrimitiveKind::Path => Marks { paths: at, ..self },
            PrimitiveKind::Underline => Marks { underlines: at, ..self },
            PrimitiveKind::MonochromeSprite => Marks { monochrome_sprites: at, ..self },
            PrimitiveKind::SubpixelSprite => Marks { subpixel_sprites: at, ..self },
            PrimitiveKind::PolychromeSprite => Marks { polychrome_sprites: at, ..self },
            PrimitiveKind::Surface => Marks { surfaces: at, ..self },
        }
    }

    /// Whether no mark stands behind the other's.
    pub open spec fn le(self, other: Marks) -> bool {
        &&& self.shadows <= other.shadows
        &&& self.quads <= other.quads
        &&& self.paths <= other.paths
        &&& self.underlines <= other.underlines
        &&& self.monochrome_sprites <= other.monochrome_sprites
        &&& self.subpixel_sprites <= other.subpixel_sprites
        &&& self.polychrome_sprites <= other.polychrome_sprites
        &&& self.surfaces <= other.surfaces
    }

    pub open spec fn zero() -> Marks {
        Marks {
            shadows: 0,
            quads: 0,
            paths: 0,
            underlines: 0,
            monochrome_sprites: 0,
            subpixel_sprites: 0,
            polychrome_sprites: 0,
            surfaces: 0,
        }
    }

    pub open spec fn total(self) -> int {
        self.shadows + self.quads + self.paths + self.underlines
            + self.monochrome_sprites + self.subpixel_sprites + self.polychrome_sprites + self.surfaces
    }
}

/// The number of places in `range`.
pub open spec fn span_len(range: Range<usize>) -> int {
    if range.start < range.end {
        range.end - range.start
    } else {
        0
    }
}

fn range_len(range: &Range<usize>) -> (r: usize)
    ensures
        r == span_len(*range),
{
    if range.start < range.end {
        range.end - range.start
    } else {
        0
    }
}

/// A range with the same ends.
pub fn same_range(range: &Range<usize>) -> (r: Range<usize>)
    ensures
        r == *range,
{
    range.start..range.end
}

/// The primitives painted between two group boundaries: one stretch of each
/// kind's array.
///
/// Primitives are appended in the order they are painted, and a group is closed
/// before what encloses it, so what is painted in between takes up one stretch
/// of every array.
#[derive(Debug, PartialEq, Eq)]
pub struct Segment {
    pub shadows: Range<usize>,
    pub quads: Range<usize>,
    pub paths: Range<usize>,
    pub underlines: Range<usize>,
    pub monochrome_sprites: Range<usize>,
    pub subpixel_sprites: Range<usize>,
    pub polychrome_sprites: Range<usize>,
    pub surfaces: Range<usize>,
}

impl Segment {
    /// Where each stretch begins.
    pub open spec fn starts(self) -> Marks {
        Marks {
            shadows: self.shadows.start as int,
            quads: self.quads.start as int,
            paths: self.paths.start as int,
            underlines: self.underlines.start as int,
            monochrome_sprites: self.monochrome_sprites.start as int,
            subpixel_sprites: self.subpixel_sprites.start as int,
            polychrome_sprites: self.polychrome_sprites.start as int,
            surfaces: self.surfaces.start as int,
        }
    }

    /// Where each stretch ends.
    pub open spec fn ends(self) -> Marks {
        Marks {
            shadows: self.shadows.end as int,
            quads: self.quads.end as int,
            paths: self.paths.end as int,
            underlines: self.underlines.end as int,
            monochrome_sprites: self.monochrome_sprites.end as int,
            subpixel_sprites: self.subpixel_sprites.end as int,
            polychrome_sprites: self.polychrome_sprites.end as int,
            surfaces: self.surfaces.end as int,
        }
    }

    /// How many primitives each stretch holds.
    pub open spec fn counts(self) -> Marks {
        Marks {
            shadows: span_len(self.shadows),
            quads: span_len(self.quads),
            paths: span_len(self.paths),
            underlines: span_len(self.underlines),
            monochrome_sprites: span_len(self.monochrome_sprites),
            subpixel_sprites: span_len(self.subpixel_sprites),
            polychrome_sprites: span_len(self.polychrome_sprites),
            surfaces: span_len(self.surfaces),
        }
    }

    /// An empty run at the start of every array.
    pub fn nothing() -> (r: Segment)
        ensures
            r.starts() == Marks::zero(),
            r.ends() == Marks::zero(),
    {
        Segment {

            shadows: 0..0,
            quads: 0..0,
            paths: 0..0,
            underlines: 0..0,
            monochrome_sprites: 0..0,
            subpixel_sprites: 0..0,
            polychrome_sprites: 0..0,
            surfaces: 0..0,
        }
    }

    /// Whether this run holds no primitives at all.
    pub fn is_empty(&self) -> (r: bool)
        ensures
            r == (self.counts().total() == 0),
    {
        self.shadows.start >= self.shadows.end
            && self.quads.start >= self.quads.end
            && self.paths.start >= self.paths.end
            && self.underlines.start >= self.underlines.end
            && self.monochrome_sprites.start >= self.monochrome_sprites.end
            && self.subpixel_sprites.start >= self.subpixel_sprites.end
            && self.polychrome_sprites.start >= self.polychrome_sprites.end
            && self.surfaces.start >= self.surfaces.end
    }

    /// How many primitives this run holds, of every kind.
    pub fn len(&self) -> (r: usize)
        requires
            self.counts().total() <= usize::MAX,
        ensures
            r == self.counts().total(),
    {
        range_len(&self.shadows) + range_len(&self.quads)
            + range_len(&self.paths)
            + range_len(&self.underlines)
            + range_len(&self.monochrome_sprites)
            + range_len(&self.subpixel_sprites)
            + range_len(&self.polychrome_sprites)
            + range_len(&self.surfaces)
    }
}

impl Default for Segment {
    fn default() -> (r: Self)
        ensures
            r.starts() == Marks::zero(),
            r.ends() == Marks::zero(),
    {
        Segment::nothing()
    }
}

impl Clone for Segment {
    fn clone(&self) -> (r: Self)
        ensures
            r == *self,
    {
        Segment {
            shadows: same_range(&self.shadows),
            quads: same_range(&self.quads),
            paths: same_range(&self.paths),
            underlines: same_range(&self.underlines),
            monochrome_sprites: same_range(&self.monochrome_sprites),
            subpixel_sprites: same_range(&self.subpixel_sprites),
            polychrome_sprites: same_range(&self.polychrome_sprites),
            surfaces: same_range(&self.surfaces),
        }
    }
}

} // verus!
