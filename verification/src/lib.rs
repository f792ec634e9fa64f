//! Perspective warping of images, generic over the arithmetic of the samples.

pub mod algebra;
pub mod bytes;
pub mod calls;
pub mod fixed;
pub mod fixed_laws;
pub mod gpu;
pub mod image;
pub mod integers;
pub mod interpolation;
pub mod laws;
pub mod matrix;
pub mod matrix_laws;
pub mod outcome;
pub mod restore;
pub mod scalar;
pub mod steps;
pub mod warp;
