//! A compact, scan-optimized bit index.
//!
//! The central type is [`bitmap::Bitmap`], a two-level hierarchical bitmap
//! that tracks membership of a densely numbered set of items and discovers
//! the set items without scanning the whole bit space linearly. A coarse
//! summary array keeps one bit per cache-line-sized block of the fine bit
//! array, so a scan can skip empty blocks wholesale.
//!
//! The `ethdev` module holds the port-identity helpers of the surrounding
//! device layer; the device calls themselves are I/O and live outside this
//! library.

pub mod bitmap;
pub mod laws;
pub mod ethdev;
