//! Decoding of archive-indexed game assets: resource index and archives,
//! palettes, indexed bitmaps, and the texture atlas that packs their frames.

pub mod atlas;
pub mod error;
pub mod graphics;
pub mod packing;
pub mod resource;
pub mod table;
pub mod wire;
