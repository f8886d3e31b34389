//! Simulated JPEG compression artifacts on RGBA rasters.
//!
//! The pipeline converts RGB to luma and chroma, subsamples the chroma planes
//! by two, runs every 8x8 block of each plane through a forward DCT, a
//! quantization step and the inverse DCT, then upsamples the chroma and
//! converts back to RGB with opaque alpha. It works in fixed point throughout:
//! plane samples carry 8 fractional bits and the DCT basis is scaled by
//! `2^13`, so every step is exact integer arithmetic with a stated result.

pub mod fixed;
pub mod dct;
pub mod quant;
pub mod plane;
pub mod chroma;
pub mod color;
pub mod pipeline;

pub use pipeline::{compress_jpeg, CompressError, RasterImage};
pub use quant::LEVEL_ONE;
