//! Verified integer core of a progressive path tracer: the pixel buffer and
//! its output format, the tiled frame schedule, and the discrete decisions of
//! intersection, scattering and path termination.

pub mod camera;
pub mod material;
pub mod object;
pub mod picture;
pub mod ray;
pub mod render;
