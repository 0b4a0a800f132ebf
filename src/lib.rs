//! Decoder for the "0.1M" tiled map archive: a background picture stored as a
//! grid of JPEG tiles, plus compressed collision/transparency masks.

pub mod cursor;
pub mod jpeg;
pub mod map;
pub mod mask;
pub mod new_map;
