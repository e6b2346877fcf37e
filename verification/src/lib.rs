//! Evolves drawings made of a fixed number of straight line segments toward a
//! target raster image: the genotype and its operators, an exact anti-aliased
//! rasterizer, the error metric between two pixel buffers, and the steps of
//! the generational loop.

pub mod constants;
pub mod random;
pub mod fitness;
pub mod genotype;
pub mod evolution;
pub mod render;
pub mod wu;
pub mod engine;
