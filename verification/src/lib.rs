//! A software rasterizer core, verified with Verus.
//!
//! Screen geometry is carried in a signed fixed-point format: every
//! coordinate and every depth value is an `i64` holding multiples of
//! `1 / SCALE` of a pixel (or of the unit depth range). All rasterization
//! decisions — bounding boxes, pixel enumeration, barycentric coverage and
//! the depth test — are exact integer arithmetic on this representation.

use vstd::prelude::*;

pub mod aabb;
pub mod scene;
pub mod triangle;

verus! {

/// Fixed-point units per pixel (and per unit of normalized depth).
pub const SCALE: i64 = 65536;

/// Magnitude bound on the fixed-point coordinates and depths the
/// rasterizer accepts; keeps every intermediate product inside `i128`.
pub const COORD_LIMIT: i64 = 0x8000_0000;

/// Largest viewport dimension, in pixels (`MAX_DIM * SCALE == COORD_LIMIT`).
pub const MAX_DIM: u32 = 32768;

/// Depth-buffer reset value: farther than any representable depth.
pub const DEPTH_INF: i64 = i64::MAX;

/// The single fill value written for a covered, depth-passing pixel.
pub const LIT_COLOR: u32 = u32::MAX;

} // verus!
