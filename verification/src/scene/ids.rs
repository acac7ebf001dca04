//! The small names a scene's records use for one another.

use vstd::prelude::*;

verus! {

/// Where in the drawing order a primitive stands.
pub type DrawOrder = u32;

/// A truth value as a whole word, for records that a GPU reads: `0` or `1`.
#[derive(Clone, Copy, Debug, PartialEq, Eq, Default, Structural)]
pub struct PaddedBool32(u32);

impl PaddedBool32 {
    pub closed spec fn of(value: bool) -> PaddedBool32 {
        PaddedBool32(if value { 1 } else { 0 })
    }

    /// The word a GPU reads.
    pub closed spec fn spec_word(self) -> u32 {
        self.0
    }

    #[verifier::type_invariant]
    spec fn is_truth(self) -> bool {
        self.0 <= 1
    }

    /// The word a GPU reads, which is `0` or `1`.
    pub fn word(self) -> (r: u32)
        ensures
            r == self.spec_word(),
            r == 0 || r == 1,
    {
        proof {
            use_type_invariant(self);
        }
        self.0
    }

    /// The word of a truth value is `1` for true and `0` for false.
    pub proof fn words(value: bool)
        ensures
            PaddedBool32::of(value).spec_word() == if value {
                1u32
            } else {
                0u32
            },
    {
    }
}

impl From<bool> for PaddedBool32 {
    fn from(value: bool) -> (r: Self) {
        PaddedBool32(if value { 1 } else { 0 })
    }
}

impl vstd::std_specs::convert::FromSpecImpl<bool> for PaddedBool32 {
    open spec fn obeys_from_spec() -> bool {
        true
    }

    open spec fn from_spec(value: bool) -> PaddedBool32 {
        PaddedBool32::of(value)
    }
}

/// The clip path a primitive is clipped to: one more than its index among the
/// scene's clips, or zero where its content mask alone clips it.
#[derive(Clone, Copy, Debug, PartialEq, Eq, PartialOrd, Ord, Hash, Default, Structural)]
pub struct ClipId(pub u32);

impl ClipId {
    /// The id of a primitive that no clip path applies to.
    pub fn none() -> (r: ClipId)
        ensures
            r == ClipId(0),
    {
        ClipId(0)
    }

    pub open spec fn clips(self) -> bool {
        self.0 != 0
    }

    /// Whether no clip path applies.
    pub fn is_none(self) -> (r: bool)
        ensures
            r == !self.clips(),
    {
        self.0 == 0
    }

    /// Whether some clip path applies.
    pub fn is_clipped(self) -> (r: bool)
        ensures
            r == self.clips(),
    {
        !self.is_none()
    }

    /// The index of this clip among the scene's clips, or `None` where no clip
    /// applies.
    pub fn index(self) -> (r: Option<usize>)
        ensures
            r == if self.0 == 0 {
                None::<usize>
            } else {
                Some((self.0 - 1) as usize)
            },
    {
        if self.0 == 0 {
            None
        } else {
            Some((self.0 - 1) as usize)
        }
    }
}

/// An isolated group of a scene: its index among the scene's groups.
#[derive(Clone, Copy, Debug, PartialEq, Eq, PartialOrd, Ord, Hash, Default, Structural)]
pub struct GroupId(pub u32);

/// A run of primitives of a scene: its index among the scene's segments.
#[derive(Clone, Copy, Debug, PartialEq, Eq, PartialOrd, Ord, Hash, Default, Structural)]
pub struct SegmentId(pub u32);

/// A path of a scene: the number of paths painted before it.
#[derive(Clone, Copy, Debug, PartialEq, Eq, Hash, Structural)]
pub struct PathId(pub usize);

} // verus!
