//! The records a scene is made of.

use crate::atlas::{AtlasTextureId, AtlasTile};
use crate::color::{Background, Hsla};
use crate::fixed::{product, saturate, saturated, times};
use crate::geometry::{Bounds, ContentMask, Corners, Edges, Rect, ScaledPixels};
use crate::scene::filter::GAUSSIAN_BLUR_EXTENT;
use crate::scene::ids::{ClipId, DrawOrder, PaddedBool32, PathId};
use crate::scene::path::{Path, PathModel};
use crate::scene::sort::Ranked;
use crate::scene::transform::TransformationMatrix;
use vstd::prelude::*;

verus! {

/// The style of a border.
#[derive(Clone, Copy, Debug, PartialEq, Eq, Hash, Default, Structural)]
pub enum BorderStyle {
    /// A solid border.
    #[default]
    Solid,
    /// A dashed border.
    Dashed,
}

/// A filled box with a border.
#[derive(Clone, Copy, Debug, Default)]
pub struct Quad {
    pub order: DrawOrder,
    pub border_style: BorderStyle,
    pub clip: ClipId,
    pub pad: u32,
    pub bounds: Bounds<ScaledPixels>,
    pub content_mask: ContentMask<ScaledPixels>,
    pub background: Background,
    pub border_color: Hsla,
    pub corner_radii: Corners<ScaledPixels>,
    pub border_widths: Edges<ScaledPixels>,
}

/// A line under text.
#[derive(Clone, Copy, Debug)]
pub struct Underline {
    pub order: DrawOrder,
    pub clip: ClipId,
    pub bounds: Bounds<ScaledPixels>,
    pub content_mask: ContentMask<ScaledPixels>,
    pub color: Hsla,
    pub thickness: ScaledPixels,
    pub wavy: PaddedBool32,
}

/// The shadow of a box.
#[derive(Clone, Copy, Debug)]
pub struct Shadow {
    pub order: DrawOrder,
    pub blur_radius: ScaledPixels,
    pub bounds: Bounds<ScaledPixels>,
    pub corner_radii: Corners<ScaledPixels>,
    pub content_mask: ContentMask<ScaledPixels>,
    pub color: Hsla,
    pub element_bounds: Bounds<ScaledPixels>,
    pub element_corner_radii: Corners<ScaledPixels>,
    /// Zero for a shadow outside the element, one for a shadow inside it.
    pub inset: u32,
    pub clip: ClipId,
}

impl Shadow {
    /// The box that is covered with ink.
    pub open spec fn reach(self) -> Rect {
        if self.inset == 0 {
            self.bounds@.dilate(saturate(self.blur_radius.0 * GAUSSIAN_BLUR_EXTENT))
        } else {
            self.element_bounds@
        }
    }

    /// The box that is covered with ink, which is not [`Shadow::bounds`].
    ///
    /// `bounds` is what the shadow's falloff is measured from. A drop shadow
    /// reaches three blur radii beyond it, and an inset shadow is painted
    /// inside its element.
    pub fn painted_bounds(&self) -> (r: Bounds<ScaledPixels>)
        ensures
            r@ == self.reach(),
    {
        if self.inset == 0 {
            assert(GAUSSIAN_BLUR_EXTENT == 3);
            assert(self.blur_radius.0 * GAUSSIAN_BLUR_EXTENT == self.blur_radius.0 * 3)
                by (nonlinear_arith)
                requires
                    GAUSSIAN_BLUR_EXTENT == 3,
            ;
            let tail: i64 = saturated(self.blur_radius.0 as i128 * GAUSSIAN_BLUR_EXTENT as i128);
            self.bounds.dilate(ScaledPixels(tail))
        } else {
            self.element_bounds
        }
    }
}

/// A glyph, or another image of one colour.
#[derive(Clone, Copy, Debug)]
pub struct MonochromeSprite {
    pub order: DrawOrder,
    pub clip: ClipId,
    pub bounds: Bounds<ScaledPixels>,
    pub content_mask: ContentMask<ScaledPixels>,
    pub color: Hsla,
    pub tile: AtlasTile,
    pub transformation: TransformationMatrix,
}

/// A glyph that covers each colour channel of a pixel by itself.
#[derive(Clone, Copy, Debug)]
pub struct SubpixelSprite {
    pub order: DrawOrder,
    pub clip: ClipId,
    pub bounds: Bounds<ScaledPixels>,
    pub content_mask: ContentMask<ScaledPixels>,
    pub color: Hsla,
    pub tile: AtlasTile,
    pub transformation: TransformationMatrix,
}

/// An image.
#[derive(Clone, Copy, Debug)]
pub struct PolychromeSprite {
    pub order: DrawOrder,
    pub clip: ClipId,
    pub grayscale: PaddedBool32,
    pub opacity: i64,
    pub bounds: Bounds<ScaledPixels>,
    pub content_mask: ContentMask<ScaledPixels>,
    pub corner_radii: Corners<ScaledPixels>,
    pub tile: AtlasTile,
}

/// A frame of video, or another picture that is not in the atlas.
#[derive(Clone, Copy, Debug)]
pub struct PaintSurface {
    pub order: DrawOrder,
    pub clip: ClipId,
    pub bounds: Bounds<ScaledPixels>,
    pub content_mask: ContentMask<ScaledPixels>,
    /// The name under which the renderer finds the picture.
    pub image_buffer: u64,
}

/// What a scene reads of a record, and what it writes to one.
pub trait DrawnSpec: Sized {
    spec fn draw_order(self) -> DrawOrder;

    spec fn draw_clip(self) -> ClipId;

    /// The tile by which records of one order are sorted, or zero for a kind
    /// that has none.
    spec fn draw_tile(self) -> u32;

    /// The texture that has to be bound to draw the record, for a kind that has
    /// one.
    spec fn draw_texture(self) -> Option<AtlasTextureId>;

    /// The box that is covered with ink.
    spec fn ink(self) -> Rect;

    /// The box that the record's content mask lets through.
    spec fn mask(self) -> Rect;

    /// The record with its order, its clip and its number among those of its
    /// kind.
    spec fn stamped(self, order: DrawOrder, clip: ClipId, index: nat) -> Self;

    /// The record with its alpha multiplied by `factor`.
    spec fn faded(self, factor: int) -> Self;
}

/// The box of ink that the record's content mask lets through.
pub open spec fn visible_box<T: DrawnSpec>(item: T) -> Rect {
    item.ink().intersect(item.mask())
}

/// The number by which records are put in order: their order, and then their
/// tile.
pub open spec fn rank_of<T: DrawnSpec>(item: T) -> int {
    item.draw_order() * 0x1_0000_0000 + item.draw_tile()
}

/// A record of a scene.
pub trait Drawn: DrawnSpec {
    fn order(&self) -> (r: DrawOrder)
        ensures
            r == self.draw_order(),
    ;

    fn clip(&self) -> (r: ClipId)
        ensures
            r == self.draw_clip(),
    ;

    fn tile(&self) -> (r: u32)
        ensures
            r == self.draw_tile(),
    ;

    fn texture(&self) -> (r: Option<AtlasTextureId>)
        ensures
            r == self.draw_texture(),
    ;

    fn visible_bounds(&self) -> (r: Bounds<ScaledPixels>)
        ensures
            r@ == visible_box(*self),
    ;

    fn fade(&mut self, factor: i64)
        ensures
            *final(self) == old(self).faded(factor as int),
    ;
}

impl<T: Drawn> Ranked for T {
    open spec fn rank(self) -> int {
        rank_of(self)
    }

    fn ranks_at_most(&self, other: &Self) -> (r: bool) {
        self.order() < other.order() || (self.order() == other.order() && self.tile()
            <= other.tile())
    }
}

impl DrawnSpec for Shadow {
    open spec fn draw_order(self) -> DrawOrder {
        self.order
    }

    open spec fn draw_clip(self) -> ClipId {
        self.clip
    }

    open spec fn draw_tile(self) -> u32 {
        0
    }

    open spec fn draw_texture(self) -> Option<AtlasTextureId> {
        None
    }

    open spec fn ink(self) -> Rect {
        self.reach()
    }

    open spec fn mask(self) -> Rect {
        self.content_mask.bounds@
    }

    open spec fn stamped(self, order: DrawOrder, clip: ClipId, index: nat) -> Self {
        Shadow { order, clip, ..self }
    }

    open spec fn faded(self, factor: int) -> Self {
        Shadow { color: self.color.faded(factor), ..self }
    }
}

impl Drawn for Shadow {
    fn order(&self) -> (r: DrawOrder) {
        self.order
    }

    fn clip(&self) -> (r: ClipId) {
        self.clip
    }

    fn tile(&self) -> (r: u32) {
        0
    }

    fn texture(&self) -> (r: Option<AtlasTextureId>) {
        None
    }

    fn visible_bounds(&self) -> (r: Bounds<ScaledPixels>) {
        self.painted_bounds().intersect(&self.content_mask.bounds)
    }

    fn fade(&mut self, factor: i64) {
        self.color = self.color.opacity(factor);
    }
}

impl DrawnSpec for Quad {
    open spec fn draw_order(self) -> DrawOrder {
        self.order
    }

    open spec fn draw_clip(self) -> ClipId {
        self.clip
    }

    open spec fn draw_tile(self) -> u32 {
        0
    }

    open spec fn draw_texture(self) -> Option<AtlasTextureId> {
        None
    }

    open spec fn ink(self) -> Rect {
        self.bounds@
    }

    open spec fn mask(self) -> Rect {
        self.content_mask.bounds@
    }

    open spec fn stamped(self, order: DrawOrder, clip: ClipId, index: nat) -> Self {
        Quad { order, clip, ..self }
    }

    open spec fn faded(self, factor: int) -> Self {
        Quad {
            background: self.background.faded(factor),
            border_color: self.border_color.faded(factor),
            ..self
        }
    }
}

impl Drawn for Quad {
    fn order(&self) -> (r: DrawOrder) {
        self.order
    }

    fn clip(&self) -> (r: ClipId) {
        self.clip
    }

    fn tile(&self) -> (r: u32) {
        0
    }

    fn texture(&self) -> (r: Option<AtlasTextureId>) {
        None
    }

    fn visible_bounds(&self) -> (r: Bounds<ScaledPixels>) {
        self.bounds.intersect(&self.content_mask.bounds)
    }

    fn fade(&mut self, factor: i64) {
        self.background = self.background.opacity(factor);
        self.border_color = self.border_color.opacity(factor);
    }
}

impl DrawnSpec for PathModel<ScaledPixels> {
    open spec fn draw_order(self) -> DrawOrder {
        self.order
    }

    open spec fn draw_clip(self) -> ClipId {
        self.clip
    }

    open spec fn draw_tile(self) -> u32 {
        0
    }

    open spec fn draw_texture(self) -> Option<AtlasTextureId> {
        None
    }

    open spec fn ink(self) -> Rect {
        self.bounds
    }

    open spec fn mask(self) -> Rect {
        self.content_mask.bounds@
    }

    open spec fn stamped(self, order: DrawOrder, clip: ClipId, index: nat) -> Self {
        PathModel { order, clip, id: index, ..self }
    }

    open spec fn faded(self, factor: int) -> Self {
        PathModel {
            color: self.color.faded(factor),
            brush: match self.brush {
                None => None,
                Some(brush) => Some(brush.faded(factor)),
            },
            ..self
        }
    }
}

impl DrawnSpec for Path<ScaledPixels> {
    open spec fn draw_order(self) -> DrawOrder {
        self.order
    }

    open spec fn draw_clip(self) -> ClipId {
        self.clip
    }

    open spec fn draw_tile(self) -> u32 {
        0
    }

    open spec fn draw_texture(self) -> Option<AtlasTextureId> {
        None
    }

    open spec fn ink(self) -> Rect {
        self.bounds@
    }

    open spec fn mask(self) -> Rect {
        self.content_mask.bounds@
    }

    open spec fn stamped(self, order: DrawOrder, clip: ClipId, index: nat) -> Self {
        Path { order, clip, id: PathId(index as usize), ..self }
    }

    open spec fn faded(self, factor: int) -> Self {
        Path {
            color: self.color.faded(factor),
            brush: match self.brush {
                None => None,
                Some(brush) => Some(brush.faded(factor)),
            },
            ..self
        }
    }
}

impl Drawn for Path<ScaledPixels> {
    fn order(&self) -> (r: DrawOrder) {
        self.order
    }

    fn clip(&self) -> (r: ClipId) {
        self.clip
    }

    fn tile(&self) -> (r: u32) {
        0
    }

    fn texture(&self) -> (r: Option<AtlasTextureId>) {
        None
    }

    fn visible_bounds(&self) -> (r: Bounds<ScaledPixels>) {
        self.bounds.intersect(&self.content_mask.bounds)
    }

    fn fade(&mut self, factor: i64) {
        self.color = self.color.opacity(factor);
        self.brush =
        match &self.brush {
            None => None,
            Some(brush) => Some(brush.fade(factor)),
        };
    }
}

impl DrawnSpec for Underline {
    open spec fn draw_order(self) -> DrawOrder {
        self.order
    }

    open spec fn draw_clip(self) -> ClipId {
        self.clip
    }

    open spec fn draw_tile(self) -> u32 {
        0
    }

    open spec fn draw_texture(self) -> Option<AtlasTextureId> {
        None
    }

    open spec fn ink(self) -> Rect {
        self.bounds@
    }

    open spec fn mask(self) -> Rect {
        self.content_mask.bounds@
    }

    open spec fn stamped(self, order: DrawOrder, clip: ClipId, index: nat) -> Self {
        Underline { order, clip, ..self }
    }

    open spec fn faded(self, factor: int) -> Self {
        Underline { color: self.color.faded(factor), ..self }
    }
}

impl Drawn for Underline {
    fn order(&self) -> (r: DrawOrder) {
        self.order
    }

    fn clip(&self) -> (r: ClipId) {
        self.clip
    }

    fn tile(&self) -> (r: u32) {
        0
    }

    fn texture(&self) -> (r: Option<AtlasTextureId>) {
        None
    }

    fn visible_bounds(&self) -> (r: Bounds<ScaledPixels>) {
        self.bounds.intersect(&self.content_mask.bounds)
    }

    fn fade(&mut self, factor: i64) {
        self.color = self.color.opacity(factor);
    }
}

impl DrawnSpec for MonochromeSprite {
    open spec fn draw_order(self) -> DrawOrder {
        self.order
    }

    open spec fn draw_clip(self) -> ClipId {
        self.clip
    }

    open spec fn draw_tile(self) -> u32 {
        self.tile.tile_id.0
    }

    open spec fn draw_texture(self) -> Option<AtlasTextureId> {
        Some(self.tile.texture_id)
    }

    open spec fn ink(self) -> Rect {
        self.bounds@
    }

    open spec fn mask(self) -> Rect {
        self.content_mask.bounds@
    }

    open spec fn stamped(self, order: DrawOrder, clip: ClipId, index: nat) -> Self {
        MonochromeSprite { order, clip, ..self }
    }

    open spec fn faded(self, factor: int) -> Self {
        MonochromeSprite { color: self.color.faded(factor), ..self }
    }
}

impl Drawn for MonochromeSprite {
    fn order(&self) -> (r: DrawOrder) {
        self.order
    }

    fn clip(&self) -> (r: ClipId) {
        self.clip
    }

    fn tile(&self) -> (r: u32) {
        self.tile.tile_id.0
    }

    fn texture(&self) -> (r: Option<AtlasTextureId>) {
        Some(self.tile.texture_id)
    }

    fn visible_bounds(&self) -> (r: Bounds<ScaledPixels>) {
        self.bounds.intersect(&self.content_mask.bounds)
    }

    fn fade(&mut self, factor: i64) {
        self.color = self.color.opacity(factor);
    }
}

impl DrawnSpec for SubpixelSprite {
    open spec fn draw_order(self) -> DrawOrder {
        self.order
    }

    open spec fn draw_clip(self) -> ClipId {
        self.clip
    }

    open spec fn draw_tile(self) -> u32 {
        self.tile.tile_id.0
    }

    open spec fn draw_texture(self) -> Option<AtlasTextureId> {
        Some(self.tile.texture_id)
    }

    open spec fn ink(self) -> Rect {
        self.bounds@
    }

    open spec fn mask(self) -> Rect {
        self.content_mask.bounds@
    }

    open spec fn stamped(self, order: DrawOrder, clip: ClipId, index: nat) -> Self {
        SubpixelSprite { order, clip, ..self }
    }

    open spec fn faded(self, factor: int) -> Self {
        self
    }
}

impl Drawn for SubpixelSprite {
    fn order(&self) -> (r: DrawOrder) {
        self.order
    }

    fn clip(&self) -> (r: ClipId) {
        self.clip
    }

    fn tile(&self) -> (r: u32) {
        self.tile.tile_id.0
    }

    fn texture(&self) -> (r: Option<AtlasTextureId>) {
        Some(self.tile.texture_id)
    }

    fn visible_bounds(&self) -> (r: Bounds<ScaledPixels>) {
        self.bounds.intersect(&self.content_mask.bounds)
    }

    fn fade(&mut self, factor: i64) {
    }
}

impl DrawnSpec for PolychromeSprite {
    open spec fn draw_order(self) -> DrawOrder {
        self.order
    }

    open spec fn draw_clip(self) -> ClipId {
        self.clip
    }

    open spec fn draw_tile(self) -> u32 {
        self.tile.tile_id.0
    }

    open spec fn draw_texture(self) -> Option<AtlasTextureId> {
        Some(self.tile.texture_id)
    }

    open spec fn ink(self) -> Rect {
        self.bounds@
    }

    open spec fn mask(self) -> Rect {
        self.content_mask.bounds@
    }

    open spec fn stamped(self, order: DrawOrder, clip: ClipId, index: nat) -> Self {
        PolychromeSprite { order, clip, ..self }
    }

    open spec fn faded(self, factor: int) -> Self {
        PolychromeSprite { opacity: product(self.opacity as int, factor) as i64, ..self }
    }
}

impl Drawn for PolychromeSprite {
    fn order(&self) -> (r: DrawOrder) {
        self.order
    }

    fn clip(&self) -> (r: ClipId) {
        self.clip
    }

    fn tile(&self) -> (r: u32) {
        self.tile.tile_id.0
    }

    fn texture(&self) -> (r: Option<AtlasTextureId>) {
        Some(self.tile.texture_id)
    }

    fn visible_bounds(&self) -> (r: Bounds<ScaledPixels>) {
        self.bounds.intersect(&self.content_mask.bounds)
    }

    fn fade(&mut self, factor: i64) {
        self.opacity = times(self.opacity, factor);
    }
}

impl DrawnSpec for PaintSurface {
    open spec fn draw_order(self) -> DrawOrder {
        self.order
    }

    open spec fn draw_clip(self) -> ClipId {
        self.clip
    }

    open spec fn draw_tile(self) -> u32 {
        0
    }

    open spec fn draw_texture(self) -> Option<AtlasTextureId> {
        None
    }

    open spec fn ink(self) -> Rect {
        self.bounds@
    }

    open spec fn mask(self) -> Rect {
        self.content_mask.bounds@
    }

    open spec fn stamped(self, order: DrawOrder, clip: ClipId, index: nat) -> Self {
        PaintSurface { order, clip, ..self }
    }

    open spec fn faded(self, factor: int) -> Self {
        self
    }
}

impl Drawn for PaintSurface {
    fn order(&self) -> (r: DrawOrder) {
        self.order
    }

    fn clip(&self) -> (r: ClipId) {
        self.clip
    }

    fn tile(&self) -> (r: u32) {
        0
    }

    fn texture(&self) -> (r: Option<AtlasTextureId>) {
        None
    }

    fn visible_bounds(&self) -> (r: Bounds<ScaledPixels>) {
        self.bounds.intersect(&self.content_mask.bounds)
    }

    fn fade(&mut self, factor: i64) {
    }
}

/// One painted thing.
#[derive(Debug)]
pub enum Primitive {
    Shadow(Shadow),
    Quad(Quad),
    Path(Path<ScaledPixels>),
    Underline(Underline),
    MonochromeSprite(MonochromeSprite),
    SubpixelSprite(SubpixelSprite),
    PolychromeSprite(PolychromeSprite),
    Surface(PaintSurface),
}

/// A primitive, as what it says.
pub enum PrimitiveModel {
    Shadow(Shadow),
    Quad(Quad),
    Path(PathModel<ScaledPixels>),
    Underline(Underline),
    MonochromeSprite(MonochromeSprite),
    SubpixelSprite(SubpixelSprite),
    PolychromeSprite(PolychromeSprite),
    Surface(PaintSurface),
}

impl PrimitiveModel {
    /// The box that is covered with ink.
    pub open spec fn ink(self) -> Rect {
        match self {
            PrimitiveModel::Shadow(item) => item.ink(),
            PrimitiveModel::Quad(item) => item.ink(),
            PrimitiveModel::Path(item) => item.ink(),
            PrimitiveModel::Underline(item) => item.ink(),
            PrimitiveModel::MonochromeSprite(item) => item.ink(),
            PrimitiveModel::SubpixelSprite(item) => item.ink(),
            PrimitiveModel::PolychromeSprite(item) => item.ink(),
            PrimitiveModel::Surface(item) => item.ink(),
        }
    }

    /// The box that the primitive's content mask lets through.
    pub open spec fn mask(self) -> Rect {
        match self {
            PrimitiveModel::Shadow(item) => item.mask(),
            PrimitiveModel::Quad(item) => item.mask(),
            PrimitiveModel::Path(item) => item.mask(),
            PrimitiveModel::Underline(item) => item.mask(),
            PrimitiveModel::MonochromeSprite(item) => item.mask(),
            PrimitiveModel::SubpixelSprite(item) => item.mask(),
            PrimitiveModel::PolychromeSprite(item) => item.mask(),
            PrimitiveModel::Surface(item) => item.mask(),
        }
    }

    /// The box of ink that the primitive's content mask lets through.
    pub open spec fn visible(self) -> Rect {
        self.ink().intersect(self.mask())
    }

    /// The primitive with its order, its clip and, for a path, its number.
    pub open spec fn stamped(self, order: DrawOrder, clip: ClipId, index: nat) -> PrimitiveModel {
        match self {
            PrimitiveModel::Shadow(item) => PrimitiveModel::Shadow(
                item.stamped(order, clip, index),
            ),
            PrimitiveModel::Quad(item) => PrimitiveModel::Quad(
                item.stamped(order, clip, index),
            ),
            PrimitiveModel::Path(item) => PrimitiveModel::Path(
                item.stamped(order, clip, index),
            ),
            PrimitiveModel::Underline(item) => PrimitiveModel::Underline(
                item.stamped(order, clip, index),
            ),
            PrimitiveModel::MonochromeSprite(item) => PrimitiveModel::MonochromeSprite(
                item.stamped(order, clip, index),
            ),
            PrimitiveModel::SubpixelSprite(item) => PrimitiveModel::SubpixelSprite(
                item.stamped(order, clip, index),
            ),
            PrimitiveModel::PolychromeSprite(item) => PrimitiveModel::PolychromeSprite(
                item.stamped(order, clip, index),
            ),
            PrimitiveModel::Surface(item) => PrimitiveModel::Surface(
                item.stamped(order, clip, index),
            ),
        }
    }
}

impl View for Primitive {
    type V = PrimitiveModel;

    open spec fn view(&self) -> PrimitiveModel {
        match *self {
            Primitive::Shadow(item) => PrimitiveModel::Shadow(item),
            Primitive::Quad(item) => PrimitiveModel::Quad(item),
            Primitive::Path(item) => PrimitiveModel::Path(item@),
            Primitive::Underline(item) => PrimitiveModel::Underline(item),
            Primitive::MonochromeSprite(item) => PrimitiveModel::MonochromeSprite(item),
            Primitive::SubpixelSprite(item) => PrimitiveModel::SubpixelSprite(item),
            Primitive::PolychromeSprite(item) => PrimitiveModel::PolychromeSprite(item),
            Primitive::Surface(item) => PrimitiveModel::Surface(item),
        }
    }
}

impl Clone for Primitive {
    fn clone(&self) -> (r: Self)
        ensures
            r@ == self@,
    {
        match self {
            Primitive::Shadow(item) => Primitive::Shadow(*item),
            Primitive::Quad(item) => Primitive::Quad(*item),
            Primitive::Path(item) => Primitive::Path(item.clone()),
            Primitive::Underline(item) => Primitive::Underline(*item),
            Primitive::MonochromeSprite(item) => Primitive::MonochromeSprite(*item),
            Primitive::SubpixelSprite(item) => Primitive::SubpixelSprite(*item),
            Primitive::PolychromeSprite(item) => Primitive::PolychromeSprite(*item),
            Primitive::Surface(item) => Primitive::Surface(*item),
        }
    }
}

impl Primitive {
    /// The box the primitive's shape is measured from.
    pub open spec fn shape(self) -> Bounds<ScaledPixels> {
        match self {
            Primitive::Shadow(item) => item.bounds,
            Primitive::Quad(item) => item.bounds,
            Primitive::Path(item) => item.bounds,
            Primitive::Underline(item) => item.bounds,
            Primitive::MonochromeSprite(item) => item.bounds,
            Primitive::SubpixelSprite(item) => item.bounds,
            Primitive::PolychromeSprite(item) => item.bounds,
            Primitive::Surface(item) => item.bounds,
        }
    }

    pub open spec fn masked_to(self) -> ContentMask<ScaledPixels> {
        match self {
            Primitive::Shadow(item) => item.content_mask,
            Primitive::Quad(item) => item.content_mask,
            Primitive::Path(item) => item.content_mask,
            Primitive::Underline(item) => item.content_mask,
            Primitive::MonochromeSprite(item) => item.content_mask,
            Primitive::SubpixelSprite(item) => item.content_mask,
            Primitive::PolychromeSprite(item) => item.content_mask,
            Primitive::Surface(item) => item.content_mask,
        }
    }

    /// The box that is covered with ink. For every kind but a shadow this is
    /// [`Primitive::bounds`].
    pub fn painted_bounds(&self) -> (r: Bounds<ScaledPixels>)
        ensures
            r@ == self@.ink(),
    {
        match self {
            Primitive::Shadow(shadow) => shadow.painted_bounds(),
            _ => *self.bounds(),
        }
    }

    /// The box the primitive's shape is measured from.
    pub fn bounds(&self) -> (r: &Bounds<ScaledPixels>)
        ensures
            *r == self.shape(),
    {
        match self {
            Primitive::Shadow(item) => &item.bounds,
            Primitive::Quad(item) => &item.bounds,
            Primitive::Path(item) => &item.bounds,
            Primitive::Underline(item) => &item.bounds,
            Primitive::MonochromeSprite(item) => &item.bounds,
            Primitive::SubpixelSprite(item) => &item.bounds,
            Primitive::PolychromeSprite(item) => &item.bounds,
            Primitive::Surface(item) => &item.bounds,
        }
    }

    /// The box the primitive is clipped to.
    pub fn content_mask(&self) -> (r: &ContentMask<ScaledPixels>)
        ensures
            *r == self.masked_to(),
            r.bounds@ == self@.mask(),
    {
        match self {
            Primitive::Shadow(item) => &item.content_mask,
            Primitive::Quad(item) => &item.content_mask,
            Primitive::Path(item) => &item.content_mask,
            Primitive::Underline(item) => &item.content_mask,
            Primitive::MonochromeSprite(item) => &item.content_mask,
            Primitive::SubpixelSprite(item) => &item.content_mask,
            Primitive::PolychromeSprite(item) => &item.content_mask,
            Primitive::Surface(item) => &item.content_mask,
        }
    }
}

impl From<Shadow> for Primitive {
    fn from(item: Shadow) -> (r: Self) {
        Primitive::Shadow(item)
    }
}

impl vstd::std_specs::convert::FromSpecImpl<Shadow> for Primitive {
    open spec fn obeys_from_spec() -> bool {
        true
    }

    open spec fn from_spec(item: Shadow) -> Primitive {
        Primitive::Shadow(item)
    }
}

impl From<Quad> for Primitive {
    fn from(item: Quad) -> (r: Self) {
        Primitive::Quad(item)
    }
}

impl vstd::std_specs::convert::FromSpecImpl<Quad> for Primitive {
    open spec fn obeys_from_spec() -> bool {
        true
    }

    open spec fn from_spec(item: Quad) -> Primitive {
        Primitive::Quad(item)
    }
}

impl From<Path<ScaledPixels>> for Primitive {
    fn from(item: Path<ScaledPixels>) -> (r: Self) {
        Primitive::Path(item)
    }
}

impl vstd::std_specs::convert::FromSpecImpl<Path<ScaledPixels>> for Primitive {
    open spec fn obeys_from_spec() -> bool {
        true
    }

    open spec fn from_spec(item: Path<ScaledPixels>) -> Primitive {
        Primitive::Path(item)
    }
}

impl From<Underline> for Primitive {
    fn from(item: Underline) -> (r: Self) {
        Primitive::Underline(item)
    }
}

impl vstd::std_specs::convert::FromSpecImpl<Underline> for Primitive {
    open spec fn obeys_from_spec() -> bool {
        true
    }

    open spec fn from_spec(item: Underline) -> Primitive {
        Primitive::Underline(item)
    }
}

impl From<MonochromeSprite> for Primitive {
    fn from(item: MonochromeSprite) -> (r: Self) {
        Primitive::MonochromeSprite(item)
    }
}

impl vstd::std_specs::convert::FromSpecImpl<MonochromeSprite> for Primitive {
    open spec fn obeys_from_spec() -> bool {
        true
    }

    open spec fn from_spec(item: MonochromeSprite) -> Primitive {
        Primitive::MonochromeSprite(item)
    }
}

impl From<SubpixelSprite> for Primitive {
    fn from(item: SubpixelSprite) -> (r: Self) {
        Primitive::SubpixelSprite(item)
    }
}

impl vstd::std_specs::convert::FromSpecImpl<SubpixelSprite> for Primitive {
    open spec fn obeys_from_spec() -> bool {
        true
    }

    open spec fn from_spec(item: SubpixelSprite) -> Primitive {
        Primitive::SubpixelSprite(item)
    }
}

impl From<PolychromeSprite> for Primitive {
    fn from(item: PolychromeSprite) -> (r: Self) {
        Primitive::PolychromeSprite(item)
    }
}

impl vstd::std_specs::convert::FromSpecImpl<PolychromeSprite> for Primitive {
    open spec fn obeys_from_spec() -> bool {
        true
    }

    open spec fn from_spec(item: PolychromeSprite) -> Primitive {
        Primitive::PolychromeSprite(item)
    }
}

impl From<PaintSurface> for Primitive {
    fn from(item: PaintSurface) -> (r: Self) {
        Primitive::Surface(item)
    }
}

impl vstd::std_specs::convert::FromSpecImpl<PaintSurface> for Primitive {
    open spec fn obeys_from_spec() -> bool {
        true
    }

    open spec fn from_spec(item: PaintSurface) -> Primitive {
        Primitive::Surface(item)
    }
}

} // verus!
