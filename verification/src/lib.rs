//! Verified core of an escape-time renderer for the Mandelbrot set.
//!
//! The library holds the integer logic of the renderer: parsing of
//! separator-joined argument pairs, the partition of an image into
//! horizontal bands for independent workers, and the shading of per-pixel
//! escape counts into grayscale bytes. The floating-point kernel that
//! maps pixels onto the complex plane and iterates `z = z*z + c` hands
//! its results to this library as plain values.

pub mod parse;
pub mod raster;
pub mod tiling;
