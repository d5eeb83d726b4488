//! A small renderer: spheres traced with ambient, diffuse and specular light,
//! hard shadows and bounded reflections, drawn on a pixel canvas that can
//! also rasterise straight lines and be written out as a plain-text bitmap.
//!
//! All real quantities are fixed-point numbers (see [`fixed::Fixed`]), so
//! every result is an exact function of the inputs.

pub mod arith;
pub mod canvas;
pub mod color;
pub mod fixed;
pub mod laws;
pub mod light;
pub mod ppm;
pub mod raytracer;
pub mod razterization;
pub mod shape;
pub mod vector;
pub mod wide;
