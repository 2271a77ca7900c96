//! The LZ4 frame format.
//!
//! An LZ4 file typically consists of a single frame: a header, a run
//! of length-prefixed blocks, a terminating zero length, and optional
//! checksums throughout.  The format is self-terminating, so frames
//! can be concatenated back to back.
use vstd::prelude::*;

pub mod compress;
pub mod decompress;
pub mod hash;
pub mod model;

pub use compress::{CompressionError, CompressionSettings};
pub use decompress::{decompress_frame, DecompressionError, LZ4FrameReader};

verus! {

/// The four magic bytes at the start of every LZ4 frame (little
/// endian).
pub const MAGIC: u32 = 0x184D2204;

/// The high bit of a block length: set when the payload is stored
/// uncompressed.
pub const INCOMPRESSIBLE: u32 = 0x80000000;

/// The lookback window dependent blocks may reach into.
pub const WINDOW_SIZE: usize = 65536;

} // verus!
