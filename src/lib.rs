//! Discrete core of a CSG ray tracer: canonical set algebra over primitives,
//! clause membership and medium selection, the plain PPM image format, and the
//! scheduling of image rows over worker bands.

/// Clauses over primitives, composites, and the body of a scene
pub mod csg;
/// Frame bookkeeping of an animation
pub mod movie;
/// The plain-text PPM image format: writing and reading
pub mod ppm;
/// Rows of the image over worker bands, progress marks and image assembly
pub mod render;
/// Trees of set operations over primitives, and their canonical form
pub mod tree;
