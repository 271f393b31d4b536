//! Integer computational geometry for a painter's-algorithm renderer.
//!
//! The library computes a back-to-front draw order for a set of opaque flat
//! triangles in space: exact 2-D primitives (canonical lines, segment and
//! triangle intersection, point-in-triangle), 3-D primitives (vector algebra,
//! orthographic projection, plane from triangle, plane height), the pairwise
//! occlusion relation, and a depth-first resolver that turns the occlusion
//! graph into a paint order.

pub mod g2d;
pub mod g3d;
pub mod scene;
