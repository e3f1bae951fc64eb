//! A software rasterizer: a pixel grid with a drawing color, an even-odd
//! scanline polygon fill and an integer line stroker.

pub mod framebuffer;
pub mod geometry;
pub mod fill;
pub mod line;
pub mod laws;

pub use framebuffer::{Color, DrawError, Framebuffer};
pub use geometry::Point;
