//! A CPU-only software rasterizer: triangle scan conversion with depth
//! buffering, Bresenham-style line drawing, barycentric classification over
//! exact integer arithmetic, a programmable two-stage shader interface, and a
//! byte-exact image codec with raw and run-length-encoded pixel payloads.

pub mod barycentric;
pub mod bresenham;
pub mod codec;
pub mod error;
pub mod geometry;
pub mod mesh;
pub mod rasterization;
pub mod shader;
pub mod tga;
