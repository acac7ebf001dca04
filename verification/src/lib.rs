//! The scene a window paints each frame, and the plan by which a GPU renders
//! it.

pub mod atlas;
pub mod clip_path;
pub mod clip_path_laws;
pub mod color;
pub mod fixed;
pub mod geometry;
pub mod gradient;
pub mod renderer;
pub mod scene;
pub mod text;
