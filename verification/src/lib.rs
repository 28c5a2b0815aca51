//! Core of a voxel-shape converter: axis-aligned boxes over an ordered
//! coordinate space, tight bounding boxes of vertex sets, a box-merge engine
//! that collapses touching boxes, and the string utilities used when scanning
//! source trees and naming the generated shapes.
//!
//! Coordinates are unsigned order keys: any strictly monotone encoding of the
//! renderer's coordinate scale (for instance the usual order-preserving
//! encoding of finite IEEE-754 values into `u32`). Every decision made here --
//! touching, merging, bounding -- depends only on the order of coordinates,
//! so the results transfer to whatever scale the keys encode. The
//! trigonometric vertex rotation itself works on machine floats and lives
//! with the I/O layers outside this crate.

pub mod geometry;
pub mod merging;
pub mod merge_laws;
pub mod text;
pub mod naming;
pub mod scan;
pub mod emit;
