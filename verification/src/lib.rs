//! The discrete core of a still-image ray marcher: the scanline-parallel frame
//! driver, the bounded march along a ray, and the binary pixel-map encoding.
//!
//! Colours, positions and the distance field itself are the caller's: the
//! library is generic in the pixel and position types and is handed the
//! numerical work as closures.
pub mod frame;
pub mod march;
pub mod ppm;
