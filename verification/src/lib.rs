//! Escape-time fractal rendering support: a raster of pixel colors and a
//! plain-text image encoder, with the encoding pinned down byte for byte.
pub mod decimal;
pub mod raster;

pub use raster::Image24Bits;
pub use raster::PixelError;
