//! How a GPU renders a scene: what is drawn where, and through which textures.

pub mod brush;
pub mod clip_laws;
pub mod clip_masks;
pub mod clip_plan;
pub mod clip_tile_laws;
pub mod compose;
pub mod compose_laws;
pub mod extent;
pub mod filter_ops;
pub mod flatten;
pub mod flatten_laws;
pub mod frame;
pub mod frame_laws;
pub mod instances;
pub mod memory_laws;
pub mod notice;
pub mod packing;
pub mod passes;
pub mod picture_laws;
pub mod pictures;
pub mod pipelines;
pub mod read_laws;
pub mod pixel_laws;
pub mod readback;
pub mod scratch;
pub mod state;
pub mod target_laws;
pub mod targets;
pub mod walk;
pub mod walk_laws;
