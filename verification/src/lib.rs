//! The parts of a software renderer that work on whole numbers, with their
//! proofs: the spans that fill a triangle on the pixel grid, the pixels of a
//! line, what clipping against a plane leaves of a triangle, the surface
//! that keeps the nearest of what is drawn on it, face-vertex meshes, and
//! the STL file format.
//!
//! The library does no arithmetic on real numbers. Where a real number has
//! to be compared or found again, it is taken by its level or by its bits
//! (see `scale`); what has to be computed from real numbers is the caller's
//! to compute.

pub mod clipping;
pub mod coordinate_systems;
pub mod dd;
pub mod geometry;
pub mod grr;
pub mod model;
pub mod raster;
pub mod safety;
pub mod scale;
pub mod stl;
pub mod surface;
