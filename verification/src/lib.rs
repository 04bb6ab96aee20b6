//! Escape-time fractals on a pixel grid.
//!
//! The crate holds the parts of a fractal viewer that are exact: the
//! escape-time iteration, the colour table and its indexing, the filling of a
//! pixel buffer, and the state that pointer input drives. Arithmetic on the
//! complex plane is the caller's: every function that needs it takes it as a
//! closure, and states its result in terms of what that closure promises.

pub mod color;
pub mod mandelbrot;
pub mod input;
pub mod image;
