//! The document-side model: block models and the culling of their hidden
//! blocks, drill holes, projects, progress counting, and the planar graph
//! that cuts plan outlines into blast shapes.
pub mod arrangement;
pub mod block_model;
pub mod block_variables;
pub mod drill_hole;
pub mod pidb;
pub mod progress;
pub mod surface_blocks;
