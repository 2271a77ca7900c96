//! An LZ4 compression codec: the raw block format (an LZ77-style
//! match-finder and its byte-stream decoder) and the framed container
//! that wraps blocks with checksums, dictionary support and a sliding
//! 64 KiB window across dependent blocks.
//!
//! The `raw` module holds the block codec, `header` the frame header,
//! `framed` the frame reader and writer, and `decompress` a small
//! legacy block-decoding interface.
use vstd::prelude::*;

pub mod decompress;
pub mod framed;
pub mod header;
pub mod raw;

verus! {

/// Appends all of `data` to `out`.
pub(crate) fn append_slice(out: &mut Vec<u8>, data: &[u8])
    ensures
        final(out)@ == old(out)@ + data@,
{
    proof {
        assert(out@ =~= old(out)@ + data@.subrange(0, 0));
    }
    let mut i: usize = 0;
    while i < data.len()
        invariant
            i <= data@.len(),
            out@ == old(out)@ + data@.subrange(0, i as int),
        decreases data@.len() - i,
    {
        out.push(data[i]);
        proof {
            assert(old(out)@ + data@.subrange(0, i + 1) =~= (old(out)@ + data@.subrange(
                0,
                i as int,
            )).push(data@[i as int]));
        }
        i = i + 1;
    }
    proof {
        assert(old(out)@ + data@.subrange(0, data@.len() as int) =~= old(out)@ + data@);
    }
}

} // verus!
