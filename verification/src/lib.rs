//! Two-dimensional gradient ("Perlin") noise over a fixed grid of random
//! unit gradient vectors, evaluated in signed 16.16 fixed-point arithmetic.
//!
//! A [`field::PerlinNoise`] owns a square grid of unit vectors drawn at
//! construction time and a selectable smoothing kernel. Sampling a point
//! blends the dot products of the four surrounding gradients with the
//! displacement to the query point, weighted by the kernel.

pub mod field;
pub mod fixed;
pub mod grid;
pub mod kernel;

pub use field::PerlinNoise;
pub use fixed::ONE;
pub use grid::Gradient;
pub use kernel::SmoothFunction;
