//! Rendering of triangle meshes as shaded glyph grids for a text terminal.
//!
//! All geometry is carried in fixed point: one unit of object space is
//! [`fixed::UNIT`] steps, depths likewise, and pixel coordinates are plain
//! integers.  Trigonometric values are supplied by the caller as fixed-point
//! cosine/sine pairs.

pub mod fixed;
pub mod geometry;
pub mod mesh;
pub mod shade;
pub mod raster;
pub mod control;
pub mod present;
pub mod gpu;
pub mod obj;
