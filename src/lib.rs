//! Locating card thumbnails in a character-list screenshot, and the integer
//! parts of the perceptual hash computed for each thumbnail.

pub mod color;
pub mod contours;
pub mod extractor;
pub mod geometry;
pub mod hasher;
pub mod raster;
