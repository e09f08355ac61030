//! A Monte Carlo path tracer over fixed-point arithmetic.
//!
//! All geometry and color values are carried as `i64` fixed-point numbers
//! with `fixed::ONE` (2^16) standing for the real number 1. Every operation
//! states its exact truncating-arithmetic result in its contract.

pub mod camera;
pub mod fixed;
pub mod hitable;
pub mod hitable_list;
pub mod material;
pub mod ppm;
pub mod ray;
pub mod render;
pub mod rng;
pub mod scenes;
pub mod sphere;
pub mod vec3;

pub use fixed::ONE;
pub use vec3::Vec3;
