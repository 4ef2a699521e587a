//! Blob detection on raster images: foreground classification, tiled
//! bit-parallel labelling, union-find stitching and size-ranked rendering.

pub mod raster;
pub mod classify;
pub mod bits;
pub mod conn;
pub mod tile;
pub mod union_find;
pub mod blob;
pub mod grid;
pub mod stitch;
pub mod assemble;
pub mod detect;
pub mod render;
pub mod filter;
pub mod laws;
pub mod types;
pub mod edge;
