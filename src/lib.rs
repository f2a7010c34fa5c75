//! Verified core of a path tracer: the bounding volume hierarchy over scene
//! primitives, the reassembly of rows rendered by parallel workers, the
//! plain-text image output and the render settings.
pub mod bvh;
pub mod cli;
pub mod dispatch;
pub mod hit;
pub mod image;
pub mod numeral;
