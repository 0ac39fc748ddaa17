//! Escape-time rendering of the Mandelbrot set.
//!
//! Every numeric step is IEEE 754 binary64 arithmetic, carried out on bit
//! patterns in integer code: `double`, `rounding`, `arith` and `division`
//! hold the number format and its operations. On top of them `plane` maps
//! pixel indices into the complex plane and evaluates escape times,
//! `palette` builds the cyclic colour table, `region` checks the rectangle
//! to render and sizes the grid, `render` assembles the pixels into a
//! `grid`, and `raster` hands the grid over as an image buffer.

pub mod double;
pub mod rounding;
pub mod arith;
pub mod division;
pub mod plane;
pub mod palette;
pub mod grid;
pub mod region;
pub mod render;
pub mod raster;
