//! Verified core of a path-tracing renderer: pixel and tile buffers, the
//! band scheduler's partition and reassembly, plain-text image output, and
//! the numeric parsing behind the invocation surface.

pub mod decimal;
pub mod image;
pub mod ppm;
pub mod renderers;
