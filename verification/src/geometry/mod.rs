//! The combinatorial part of stroke geometry: how a stroke's points split
//! into fragments, and how a ribbon of points is cut into triangles. The
//! coordinates themselves are handled by the host.
pub mod boolean;
pub mod tessellator;
