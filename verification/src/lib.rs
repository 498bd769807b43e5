//! Texture-atlas assembly: packs rasterized glyph and icon bitmaps into one
//! single-channel canvas, keeping placement metadata for a downstream renderer.
//!
//! The crate is organised around the atlas lifecycle: a [`packer::RectPacker`]
//! hands out non-overlapping padded rectangles inside a fixed canvas, an
//! [`atlas::Atlas`] owns the pixel buffer and blits tiles into granted
//! rectangles while recording icon and font entries, [`codec`] turns decoded
//! image scanlines into the single-channel pixels the canvas holds, and
//! [`serialize`] renders the finished atlas as a textual artifact.

pub mod atlas;
pub mod codec;
pub mod error;
pub mod geom;
pub mod names;
pub mod packer;
pub mod serialize;
