//! Escape-time rendering of the Mandelbrot set.
//!
//! A frame is rendered batch by batch: the pixels of a batch are mapped to
//! their offsets from the middle of the frame, their orbits are followed until
//! they leave the disc of divergence, and each pixel is painted with the
//! colour of its escape time.
//!
//! The crate works over integers and booleans. The real numbers are the
//! caller's: a function that places a batch of pixels in the plane and a
//! function that tests and moves a batch of orbits are handed to the renderer,
//! and the contracts say what is rendered in terms of what those two return.

pub mod color;
pub mod controls;
pub mod frame;
pub mod kernel;
pub mod paint;
pub mod render;
