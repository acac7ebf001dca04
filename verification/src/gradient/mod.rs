//! Gradients of many stops, drawn as images that are baked from them.

pub mod bake;
pub mod laws;
pub mod plan;
pub mod stops;
pub mod texel_laws;
