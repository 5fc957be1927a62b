//! Verified core of a mine-design application: natural ordering of names,
//! console text layout, block-model grid indexing and culling, the planar
//! graph behind blast shapes, and the labels and choices its dialogs present.
pub mod natural_sort;
pub mod sorting;
pub mod text;
pub mod ui;
pub mod model;
