//! Navigation meshes built as a single 2D complex over all layers.

pub mod triangulation;
