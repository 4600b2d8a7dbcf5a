//! A renderer of the Mandelbrot set as a square grey-scale raster: the
//! escape-time search, the shading of its counts, and the raster they fill.
pub mod escape;
pub mod intensity;
pub mod picture;
pub mod raster;
