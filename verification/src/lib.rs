//! A small software rasterizer: it draws pixels, lines, triangles, sampled
//! plots and bitmap-font text into an in-memory RGBA pixel buffer.
//!
//! Every drawing operation is stated over a mathematical model of the buffer
//! (one colour per pixel) and over exact rational arithmetic, so that the set
//! of pixels an operation paints is pinned down by its contract.
pub mod bdf;
pub mod buffer;
pub mod interpolate;
pub mod line;
pub mod plot;
pub mod ratio;
pub mod text;
pub mod triangle;
pub mod typeset;

pub use buffer::{Buffer, HEIGHT, WIDTH};
pub use interpolate::interpolate;
pub use ratio::Ratio;
pub use text::{Font, FontError};
