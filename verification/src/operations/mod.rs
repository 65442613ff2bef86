//! Edits that the user makes to the scene: exposure blocks on the
//! timeline, layer settings and the stroke selection.
pub mod exposure;
pub mod layers;
pub mod selection;
