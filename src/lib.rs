//! Procedural test-pattern fillers for packed-RGB pixel canvases, with exact
//! integer geometry for the circle rasterizers, two colour-blend strategies and
//! a binary PPM encoder.

pub mod canvas;
pub mod circles;
pub mod color;
pub mod blend;
pub mod midpoint;
pub mod patterns;
pub mod ppm;
