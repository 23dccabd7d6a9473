//! Fixed-point separable convolution kernels for image resampling.
//!
//! Filter weights are turned into integer coefficients with a derived number of
//! fractional bits, then applied along one axis of a pixel buffer with rounding
//! and saturation to the destination bit depth.

pub mod weight;
pub mod convolution;
pub mod optimisations;
pub mod horizontal;
pub mod vertical_u16;
pub mod vertical_u16_lanes;
