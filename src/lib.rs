//! Sixel graphics encoding of color-indexed raster images.
pub mod decimal;
pub mod rle;
pub mod image;
pub mod control;

pub use decimal::push_decimal;
pub use image::Sixel;
pub use control::{SixelColor, ESC};
