//! Escape-time rendering of the Mandelbrot set into a grayscale pixel buffer.
//!
//! The crate holds the parts of a renderer that do not depend on how points
//! of the complex plane are represented:
//!
//! - [`plane`]: the functions through which rendering sees the plane;
//! - [`orbit`]: the bounded iteration of an orbit until it escapes;
//! - [`shade`]: the brightness of a pixel, from the fate of its orbit;
//! - [`raster`]: the rendering of a row-major pixel buffer;
//! - [`bands`]: the division of an image into horizontal bands;
//! - [`schedule`]: the rendering of an image band by band, as independent
//!   jobs;
//! - [`viewport`]: the part of the plane that an image shows, and zooming.
//!
//! The arithmetic of the plane itself is handed in by the caller.

pub mod bands;
pub mod orbit;
pub mod plane;
pub mod raster;
pub mod schedule;
pub mod shade;
pub mod viewport;
