//! Software rasterizer: a pixel buffer with its binary image file codec, and
//! line and triangle rasterizers that draw into it.
pub mod codec;
pub mod image;
pub mod line;
pub mod resample;
pub mod rle;
pub mod triangle;
