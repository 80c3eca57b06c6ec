//! A tiled progressive renderer for 2D implicit curves.
//!
//! A pool of workers each owns an exclusive horizontal slice of a rectangular
//! domain. Every worker refines an adaptive sampling of a scalar field one
//! depth step per frame, fills a pixel buffer one scanline per tick, and talks
//! to the display side only through bounded non-blocking mailboxes. When the
//! target resolution changes, every accumulated sample is relocated into a
//! freshly sized grid instead of being recomputed.

pub mod buffer;
pub mod equart;
pub mod fixel;
pub mod grid;
pub mod partition;
pub mod pixel;
pub mod threads;
