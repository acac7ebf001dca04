//! Names for the images a renderer keeps in its sprite atlas.

use crate::geometry::{Bounds, DevicePixels};
use vstd::prelude::*;

verus! {

/// What a texture of the atlas holds.
#[derive(Clone, Copy, Debug, PartialEq, Eq, Hash, Structural)]
pub enum AtlasTextureKind {
    Monochrome,
    Polychrome,
    Subpixel,
}

/// A texture of the atlas.
#[derive(Clone, Copy, Debug, PartialEq, Eq, Hash, Structural)]
pub struct AtlasTextureId {
    pub index: u32,
    pub kind: AtlasTextureKind,
}

/// A tile of the atlas.
#[derive(Clone, Copy, Debug, PartialEq, Eq, PartialOrd, Ord, Hash, Structural)]
pub struct TileId(pub u32);

/// Where in the atlas an image is.
#[derive(Clone, Copy, Debug, PartialEq, Eq)]
pub struct AtlasTile {
    pub texture_id: AtlasTextureId,
    pub tile_id: TileId,
    pub padding: u32,
    pub bounds: Bounds<DevicePixels>,
}

} // verus!
