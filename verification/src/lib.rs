//! A minimal verified ray-tracing renderer skeleton.
//!
//! Every scalar is a signed fixed-point number: an `i64` counting steps of
//! `1/65536`, so `SCALE` stands for `1.0`. On that scalar the crate builds
//! three-component vectors, spheres with an analytic ray intersection test,
//! a row-major framebuffer, a pinhole-camera render loop, and a binary PPM
//! encoder. The contracts pin each result down to an exact integer value.

pub mod fixed;
pub mod vec3;
pub mod geometry;
pub mod framebuffer;
pub mod ppm;
pub mod render;
