//! The scene: what a window paints in one frame.

pub mod batch;
pub mod blend;
pub mod bounds_tree;
pub mod fade_laws;
pub mod filter;
pub mod filter_laws;
pub mod finish_laws;
pub mod group;
pub mod group_laws;
pub mod ids;
pub mod insert_laws;
pub mod laws;
pub mod model;
pub mod ordering;
pub mod overlap;
pub mod path;
pub mod path_laws;
pub mod primitive;
pub mod recording;
pub mod replay;
pub mod report;
pub mod segment;
pub mod sort;
pub mod soundness;
pub mod transform;
pub mod transform_laws;
