//! A color-quantization library: per-channel level tables, ordered and
//! error-diffusion dithering, popularity-based palette reduction, and a
//! bounded least-recently-used cache of quantized images.

pub mod algorithms;
pub mod image;
pub mod levels;
pub mod threshold;
pub mod average;
pub mod error_diffusion;
pub mod ordered;
pub mod popularity;
pub mod cache;
