//! Images.

pub mod color;
pub mod image;
pub mod resize;
pub mod sample;
