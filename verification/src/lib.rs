//! Escape-time rendering of the Mandelbrot set.
//!
//! The crate holds the parts of a renderer that do not depend on a number
//! system or on an image backend: the escape-time loop, the enumeration of
//! the pixel grid and the rule that turns an escape count into a shade. The
//! arithmetic on plane coordinates is handed in by the caller as functions.

pub mod escape;
pub mod grid;
pub mod shade;
pub mod raster;
