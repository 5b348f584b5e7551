//! Renders a rectangular region of the Mandelbrot set to an uncompressed
//! 24-bit bitmap: exact complex arithmetic over a generic scalar type, an
//! escape-time evaluator, and a byte-exact pixel grid encoder.
pub mod bitmap;
pub mod complex;
pub mod render;
pub mod scalar;
