//! Isolated groups.

use crate::fixed::ONE;
use crate::geometry::{Bounds, Rect, ScaledPixels};
use crate::scene::blend::BlendMode;
use crate::scene::filter::{FilterModel, SceneFilter};
use crate::scene::ids::ClipId;
use vstd::prelude::*;

verus! {

/// What an isolated group does to what is painted inside it.
///
/// A group is drawn to a target of its own and composited once, so that its
/// opacity, its blend and its filter apply to its picture as a whole rather
/// than to each primitive in it.
#[derive(Debug)]
pub struct GroupSpec {
    /// The part of the window the group can paint: the size of its target.
    pub bounds: Bounds<ScaledPixels>,
    /// The clip path in force where the group was pushed, by which its picture
    /// is clipped.
    pub clip: ClipId,
    /// The alpha the group's picture is composited at.
    pub opacity: i64,
    /// How the picture is combined with what is underneath.
    pub blend: BlendMode,
    /// A filter applied to the group's picture before compositing.
    pub filter: Option<SceneFilter>,
    /// A filter applied to what is on the target underneath the group, before
    /// the group is drawn over it.
    pub backdrop_filter: Option<SceneFilter>,
    /// The content mask in force where the group was pushed, which is the
    /// furthest a filter may carry the group's picture; `None` for no limit.
    pub mask: Option<Bounds<ScaledPixels>>,
}

/// A group's description, as what it says.
pub struct GroupModel {
    pub bounds: Rect,
    pub clip: ClipId,
    pub opacity: i64,
    pub blend: BlendMode,
    pub filter: Option<FilterModel>,
    pub backdrop_filter: Option<FilterModel>,
    pub mask: Option<Rect>,
}

pub open spec fn optional_filter(filter: Option<SceneFilter>) -> Option<FilterModel> {
    match filter {
        None => None,
        Some(filter) => Some(filter.model()),
    }
}

impl GroupModel {
    /// Whether compositing the group looks the same as drawing its primitives
    /// straight onto the target, provided that no two of them overlap.
    pub open spec fn is_foldable(self) -> bool {
        self.blend == BlendMode::plain() && self.filter is None && self.backdrop_filter is None
    }

    /// The group with a target that holds `painted`, and where a filter carries
    /// that.
    pub open spec fn grown(self, painted: Rect) -> GroupModel {
        let whole = if self.bounds.is_empty() {
            painted
        } else {
            self.bounds.union(painted)
        };
        let bounds = match self.filter {
            None => whole,
            Some(filter) => match self.mask {
                None => filter.reach(whole),
                Some(mask) => filter.reach(whole).intersect(mask),
            },
        };
        GroupModel { bounds, ..self }
    }
}

impl View for GroupSpec {
    type V = GroupModel;

    open spec fn view(&self) -> GroupModel {
        GroupModel {
            bounds: self.bounds@,
            clip: self.clip,
            opacity: self.opacity,
            blend: self.blend,
            filter: optional_filter(self.filter),
            backdrop_filter: optional_filter(self.backdrop_filter),
            mask: match self.mask {
                None => None,
                Some(mask) => Some(mask@),
            },
        }
    }
}

impl Default for GroupSpec {
    fn default() -> (r: Self)
        ensures
            r@ == (GroupModel {
                bounds: Rect { x: 0, y: 0, width: 0, height: 0 },
                clip: ClipId(0),
                opacity: ONE,
                blend: BlendMode::plain(),
                filter: None,
                backdrop_filter: None,
                mask: None,
            }),
    {
        GroupSpec {
            bounds: Bounds::from_units(0, 0, 0, 0),
            clip: ClipId::none(),
            opacity: ONE,
            blend: BlendMode::normal(),
            filter: None,
            backdrop_filter: None,
            mask: None,
        }
    }
}

fn copy_of(filter: &Option<SceneFilter>) -> (r: Option<SceneFilter>)
    ensures
        optional_filter(r) == optional_filter(*filter),
{
    match filter {
        None => None,
        Some(filter) => Some(filter.clone()),
    }
}

impl Clone for GroupSpec {
    fn clone(&self) -> (r: Self)
        ensures
            r@ == self@,
    {
        GroupSpec {
            bounds: self.bounds,
            clip: self.clip,
            opacity: self.opacity,
            blend: self.blend,
            filter: copy_of(&self.filter),
            backdrop_filter: copy_of(&self.backdrop_filter),
            mask: self.mask,
        }
    }
}

impl GroupSpec {
    /// Whether compositing this group looks the same as drawing its primitives
    /// straight onto the target, provided that no two of them overlap.
    ///
    /// Opacity has no part in this: where nothing overlaps, fading the group's
    /// picture and fading each primitive give the same pixels.
    pub fn is_foldable(&self) -> (r: bool)
        ensures
            r == self@.is_foldable(),
    {
        self.blend.is_normal() && self.filter.is_none() && self.backdrop_filter.is_none()
    }

    /// Give the group a target that holds `painted`, and where its filter
    /// carries that, which may not leave the group's mask.
    pub fn grow(&mut self, painted: Bounds<ScaledPixels>)
        ensures
            final(self)@ == old(self)@.grown(painted@),
    {
        let whole = if self.bounds.is_empty() {
            painted
        } else {
            self.bounds.union(&painted)
        };
        let reached = match &self.filter {
            None => whole,
            Some(filter) => match self.mask {
                None => filter.painted_bounds(whole),
                Some(mask) => filter.painted_bounds(whole).intersect(&mask),
            },
        };
        self.bounds = reached;
    }
}

} // verus!
