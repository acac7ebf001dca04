//! The working textures that a filter runs through.

use crate::geometry::{DevicePixels, Point, Size};
use crate::renderer::compose::RenderTarget;
use crate::renderer::extent::{DeviceRect, Extent};
use crate::renderer::targets::{
    GroupTargets, TargetsModel, Texture, FILTER_SCRATCH_BUDGET_BYTES, MAX_FILTER_SCRATCH,
};
use vstd::prelude::*;

verus! {

/// One image that a filter reads or writes.
#[derive(Clone, Copy, Debug, PartialEq, Eq)]
pub struct FilterImage {
    /// The texture it is in, from that texture's own top-left corner.
    pub texture: Texture,
    /// The size of the texture, which is at least that of `rect`.
    pub texture_size: Size<DevicePixels>,
    /// The part of the window that the image covers.
    pub rect: DeviceRect,
    /// The slot to hand back once nothing reads the image any more, or `None`
    /// where the image holds none.
    pub slot: Option<usize>,
}

impl FilterImage {
    /// Whether the image's slot is one of those there are, and the image is no
    /// larger than a texture may be.
    pub open spec fn wf(self) -> bool {
        &&& self.slot matches Some(slot) ==> slot < MAX_FILTER_SCRATCH
        &&& self.rect.width <= i32::MAX - 255
        &&& self.rect.height <= i32::MAX - 255
    }

    pub open spec fn extent(self) -> Size<DevicePixels> {
        Size { width: DevicePixels(self.rect.width), height: DevicePixels(self.rect.height) }
    }

    /// The size of the image.
    pub fn size(&self) -> (r: Size<DevicePixels>)
        ensures
            r == self.extent(),
    {
        Size { width: DevicePixels(self.rect.width), height: DevicePixels(self.rect.height) }
    }

    pub open spec fn place(self) -> RenderTarget {
        RenderTarget {
            size: self.extent(),
            origin: Point { x: DevicePixels(self.rect.x), y: DevicePixels(self.rect.y) },
        }
    }

    /// Where a pass that writes the image draws.
    pub fn render_target(&self) -> (r: RenderTarget)
        ensures
            r == self.place(),
    {
        RenderTarget {
            size: self.size(),
            origin: Point { x: DevicePixels(self.rect.x), y: DevicePixels(self.rect.y) },
        }
    }
}

/// The working textures that filters run through: a few slots that every depth
/// shares, since no two groups' filters run at once.
#[derive(Debug)]
pub struct FilterScratch {
    pub targets: GroupTargets,
    pub in_use: [bool; 5],
}

/// The working textures, as what they say.
#[verifier::ext_equal]
pub struct ScratchModel {
    pub targets: TargetsModel,
    pub in_use: Seq<bool>,
}

impl View for FilterScratch {
    type V = ScratchModel;

    open spec fn view(&self) -> ScratchModel {
        ScratchModel { targets: self.targets@, in_use: self.in_use@ }
    }
}

/// The first slot from `from` on that is not in use.
pub open spec fn first_free(in_use: Seq<bool>, from: nat) -> Option<nat>
    decreases in_use.len() - from,
{
    if from >= in_use.len() {
        None
    } else if !in_use[from as int] {
        Some(from)
    } else {
        first_free(in_use, from + 1)
    }
}

pub open spec fn as_size(extent: Extent) -> Size<DevicePixels> {
    Size { width: DevicePixels(extent.width), height: DevicePixels(extent.height) }
}

impl ScratchModel {
    pub open spec fn all_free() -> Seq<bool> {
        seq![false, false, false, false, false]
    }

    pub open spec fn empty() -> ScratchModel {
        ScratchModel { targets: TargetsModel::empty(), in_use: ScratchModel::all_free() }
    }

    pub open spec fn wf(self) -> bool {
        &&& self.in_use.len() == MAX_FILTER_SCRATCH
        &&& self.targets.wf(FILTER_SCRATCH_BUDGET_BYTES as int)
        &&& self.targets.is_counting()
    }

    pub open spec fn begun(self) -> ScratchModel {
        ScratchModel { targets: self.targets.begun(), in_use: ScratchModel::all_free() }
    }

    pub open spec fn ended(self) -> ScratchModel {
        ScratchModel { targets: self.targets.ended(), ..self }
    }

    /// The slots after one that holds `rect` is asked for, and the image that
    /// is granted: `None` where every slot is taken, or the memory is.
    pub open spec fn acquired(self, rect: DeviceRect) -> (ScratchModel, Option<FilterImage>) {
        match first_free(self.in_use, 0) {
            None => (self, None),
            Some(slot) => {
                let (targets, granted) = self.targets.acquired(
                    slot,
                    rect,
                    FILTER_SCRATCH_BUDGET_BYTES,
                    true,
                );
                match granted {
                    None => (ScratchModel { targets, ..self }, None),
                    Some(extent) => (
                        ScratchModel { targets, in_use: self.in_use.update(slot as int, true) },
                        Some(
                            FilterImage {
                                texture: Texture::Scratch(slot as usize),
                                texture_size: as_size(extent),
                                rect,
                                slot: Some(slot as usize),
                            },
                        ),
                    ),
                }
            },
        }
    }

    /// The slots after an image is given back.
    pub open spec fn released(self, image: FilterImage) -> ScratchModel {
        match image.slot {
            None => self,
            Some(slot) => ScratchModel { in_use: self.in_use.update(slot as int, false), ..self },
        }
    }
}

pub proof fn lemma_first_free(in_use: Seq<bool>, from: nat)
    ensures
        match first_free(in_use, from) {
            None => forall|i: int| from <= i < in_use.len() ==> in_use[i],
            Some(slot) => {
                &&& from <= slot < in_use.len()
                &&& !in_use[slot as int]
                &&& forall|i: int| from <= i < slot ==> in_use[i]
            },
        },
    decreases in_use.len() - from,
{
    if from < in_use.len() && in_use[from as int] {
        lemma_first_free(in_use, from + 1);
    }
}

impl Default for FilterScratch {
    fn default() -> (r: Self)
        ensures
            r@ == ScratchModel::empty(),
            r@.wf(),
    {
        let scratch = FilterScratch {
            targets: GroupTargets::default(),
            in_use: [false, false, false, false, false],
        };
        assert(scratch@.in_use =~= ScratchModel::all_free());
        scratch
    }
}

impl FilterScratch {
    /// Start a frame, with every slot free.
    pub fn begin_frame(&mut self)
        ensures
            final(self)@ == old(self)@.begun(),
    {
        self.targets.begin_frame();
        self.in_use = [false, false, false, false, false];
        assert(self@.in_use =~= ScratchModel::all_free());
    }

    /// End a frame.
    pub fn end_frame(&mut self)
        requires
            old(self)@.wf(),
        ensures
            final(self)@ == old(self)@.ended(),
    {
        self.targets.end_frame();
    }

    /// A working texture that covers `rect`, or `None` where every slot is
    /// taken or giving one out would break the budget.
    pub fn acquire(&mut self, rect: DeviceRect) -> (r: Option<FilterImage>)
        requires
            old(self)@.wf(),
            rect.width <= i32::MAX - 255,
            rect.height <= i32::MAX - 255,
        ensures
            (final(self)@, r) == old(self)@.acquired(rect),
            final(self)@.wf(),
            r matches Some(image) ==> image.wf() && image.rect == rect,
    {
        let mut slot: usize = 0;
        proof {
            lemma_first_free(self@.in_use, 0);
        }
        while slot < 5 && self.in_use[slot]
            invariant
                *self == *old(self),
                slot <= 5,
                self@.in_use.len() == 5,
                first_free(self@.in_use, 0) == first_free(self@.in_use, slot as nat),
            decreases 5 - slot,
        {
            slot += 1;
        }
        if slot == 5 {
            return None;
        }
        assert(first_free(self@.in_use, 0) == Some(slot as nat));
        match self.targets.acquire(slot, rect, FILTER_SCRATCH_BUDGET_BYTES, true) {
            None => None,
            Some(extent) => {
                self.in_use[slot] = true;
                assert(self@.in_use =~= old(self)@.in_use.update(slot as int, true));
                Some(
                    FilterImage {
                        texture: Texture::Scratch(slot),
                        texture_size: Size {
                            width: DevicePixels(extent.width),
                            height: DevicePixels(extent.height),
                        },
                        rect,
                        slot: Some(slot),
                    },
                )
            },
        }
    }

    /// Give an image's slot back, if it holds one.
    pub fn release(&mut self, image: &FilterImage)
        requires
            old(self)@.wf(),
            image.wf(),
        ensures
            final(self)@ == old(self)@.released(*image),
            final(self)@.wf(),
    {
        if let Some(slot) = image.slot {
            self.in_use[slot] = false;
            assert(self@.in_use =~= old(self)@.in_use.update(slot as int, false));
        }
    }
}

/// A slot that is granted was free, is taken afterwards, and every other slot
/// stays as it was; giving it back restores the slots.
pub proof fn slots_are_exclusive(scratch: ScratchModel, rect: DeviceRect)
    requires
        scratch.wf(),
        scratch.acquired(rect).1 is Some,
    ensures
        scratch.acquired(rect).1->0.slot is Some,
        scratch.acquired(rect).1->0.slot->0 < MAX_FILTER_SCRATCH,
        !scratch.in_use[scratch.acquired(rect).1->0.slot->0 as int],
        scratch.acquired(rect).0.in_use[scratch.acquired(rect).1->0.slot->0 as int],
        scratch.acquired(rect).0.released(scratch.acquired(rect).1->0).in_use == scratch.in_use,
{
    lemma_first_free(scratch.in_use, 0);
    let slot = first_free(scratch.in_use, 0)->0;
    let after = scratch.acquired(rect).0.released(scratch.acquired(rect).1->0);
    assert(after.in_use =~= scratch.in_use);
}

} // verus!
