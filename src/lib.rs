//! The verified core of a path tracer: axis-aligned boxes over order keys, a
//! bounding-volume hierarchy with its construction and nearest-hit query, the
//! recursive path-tracing estimator, and the row-major pixel buffer.

pub mod aabb;
pub mod axis;
pub mod bvh;
pub mod integrator;
pub mod interval;
pub mod key;
pub mod par_buffer;
