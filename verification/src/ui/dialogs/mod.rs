//! Dialog labels and choice lists.
pub mod editing;
pub mod reserve_fields;
pub mod solids;
pub mod triangulation;
pub mod widget_gallery;
