//! A Monte-Carlo path tracer over spheres, in saturating fixed-point arithmetic.

pub mod fixed;
pub mod vec;
pub mod random;
pub mod ray;
pub mod hit;
pub mod material;
pub mod render;
pub mod camera;
pub mod color;
