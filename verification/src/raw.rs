//! The raw LZ4 block format.
//!
//! Using this directly saves the overhead of framing, but loses the
//! frame format's checksums and its fallback mechanism for
//! incompressible data.
use vstd::prelude::*;

pub mod compress;
pub mod decompress;
pub mod model;

pub use compress::{compress2, compress_raw, count_matching_bytes, EncoderTable, U16Table, U32Table};
pub use decompress::{decompress_raw, DecodeError};

verus! {

} // verus!
