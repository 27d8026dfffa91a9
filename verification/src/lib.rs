//! Geometry and interactive-editing engine for axis-aligned rectangular
//! regions of interest (ROIs) over a raster image.
//!
//! Coordinates are exact fixed-point numbers: an `i64` raw value stands for
//! `raw / UNIT` with `UNIT = 1_000_000`. Normalized box space maps `[0, 1]`
//! to raw `[0, UNIT]`; absolute display space counts pixels with the y axis
//! negated, so the top row of the image sits at `y = 0` and the bottom row
//! at `y = -height`.

pub mod config;
pub mod config_data;
pub mod controller;
pub mod fixed;
pub mod image_data;
pub mod json;
pub mod laws;
