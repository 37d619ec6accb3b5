//! Verified core of a Mandelbrot escape-time renderer.
//!
//! The library covers the parts of the pipeline that are plain data
//! manipulation: parsing numeric pairs from command-line style strings,
//! partitioning a raster into horizontal bands, turning escape counts into
//! grayscale intensity bytes, reassembling band buffers into one flat
//! pixel buffer, and framing that buffer as a PNG through a trusted codec.
//! The floating-point orbit iteration itself lives outside the library.

pub mod codec;
pub mod parse;
pub mod render;
pub mod tiles;
