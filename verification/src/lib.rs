//! Error-diffusion dithering of 8-bit rasters.
//!
//! The crate reduces a grayscale or color raster to a two-level palette
//! per channel (every sample ends up 0 or 255) while preserving perceived
//! tone, by propagating each pixel's quantization error to its not-yet-visited
//! neighbors (Floyd–Steinberg error diffusion).

pub mod quantizer;
pub mod raster;
pub mod engine;
