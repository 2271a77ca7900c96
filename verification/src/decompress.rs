//! A small legacy interface for decoding raw blocks.
//!
//! It differs from `raw::decompress_raw` in two ways: there is no
//! memory limit, and a block whose final sequence is cut off after
//! its literals simply ends the decode, any single leftover byte
//! ignored.  Offsets of zero are reported as invalid offsets.
use vstd::prelude::*;

use crate::raw::decompress::{copy_overlapping, read_lsic, DecodeError};
use crate::raw::model::{copy_match, lemma_lsic_read_bounds, lsic_read, nib_len};

verus! {

/// Errors of the legacy block decoder.
#[derive(Clone, Copy, Debug, Eq, PartialEq, Hash, Structural)]
pub enum Error {
    /// Expected more bytes, but found none.
    UnexpectedEnd,
    /// The offset for a deduplication is out of bounds.
    InvalidDeduplicationOffset,
}

/// What the legacy decoder makes of a block, from position `pos`:
/// like `raw::model::block_decode`, but with no memory limit, with
/// decoding ending cleanly whenever fewer than two bytes follow a
/// literal run, and with zero offsets folded into the invalid-offset
/// error.
pub open spec fn legacy_block_decode(
    input: Seq<u8>,
    pos: int,
    prefix: Seq<u8>,
    out: Seq<u8>,
) -> Result<Seq<u8>, Error>
    decreases input.len() - pos,
    via legacy_block_decode_decreases
{
    if pos < 0 || pos >= input.len() {
        Ok(out)
    } else {
        let token = input[pos];
        match nib_len(input, pos + 1, token >> 4) {
            None => Err(Error::UnexpectedEnd),
            Some((litlen, lpos)) => {
                if lpos + litlen > input.len() {
                    Err(Error::UnexpectedEnd)
                } else {
                    let out1 = out + input.subrange(lpos, lpos + litlen);
                    let mpos = lpos + litlen;
                    if mpos + 2 > input.len() {
                        Ok(out1)
                    } else {
                        let offset = input[mpos] as int + 256 * (input[mpos + 1] as int);
                        match nib_len(input, mpos + 2, token & 0xf) {
                            None => Err(Error::UnexpectedEnd),
                            Some((extra, mlpos)) => {
                                if offset == 0 || offset > out1.len() + prefix.len() {
                                    Err(Error::InvalidDeduplicationOffset)
                                } else {
                                    legacy_block_decode(
                                        input,
                                        mlpos,
                                        prefix,
                                        copy_match(prefix, out1, offset, 4 + extra),
                                    )
                                }
                            },
                        }
                    }
                }
            },
        }
    }
}

#[via_fn]
proof fn legacy_block_decode_decreases(input: Seq<u8>, pos: int, prefix: Seq<u8>, out: Seq<u8>) {
    lemma_lsic_read_bounds(input, pos + 1);
    if 0 <= pos < input.len() {
        let token = input[pos];
        match nib_len(input, pos + 1, token >> 4) {
            None => {},
            Some((litlen, lpos)) => {
                lemma_lsic_read_bounds(input, lpos + litlen + 2);
            },
        }
    }
}

/// Decompress an LZ4 block, appending the decoded bytes to `output`.
/// `prefix` provides lookback data that logically precedes `output`.
/// The result is exactly what `legacy_block_decode` says of the
/// input.
pub fn decompress_block(input: &[u8], prefix: &[u8], output: &mut Vec<u8>) -> (r: Result<
    (),
    Error,
>)
    requires
        input@.len() * 255 + 19 <= usize::MAX,
    ensures
        match r {
            Ok(()) => legacy_block_decode(input@, 0, prefix@, old(output)@) == Ok::<Seq<u8>, Error>(
                final(output)@,
            ),
            Err(e) => legacy_block_decode(input@, 0, prefix@, old(output)@) == Err::<
                Seq<u8>,
                Error,
            >(e),
        },
        old(output)@.is_prefix_of(final(output)@),
{
    let mut pos: usize = 0;
    proof {
        assert(output@ =~= output@.subrange(0, output@.len() as int));
    }
    loop
        invariant
            pos <= input@.len(),
            input@.len() * 255 + 19 <= usize::MAX,
            legacy_block_decode(input@, 0, prefix@, old(output)@) == legacy_block_decode(
                input@,
                pos as int,
                prefix@,
                output@,
            ),
            old(output)@.len() <= output@.len(),
            output@.subrange(0, old(output)@.len() as int) == old(output)@,
        decreases input@.len() - pos,
    {
        if pos >= input.len() {
            return Ok(());
        }
        let ghost p0 = pos as int;
        let ghost outp = output@;
        let token = input[pos];
        pos = pos + 1;

        // literal run
        let litlen: usize;
        if token >> 4 == 15 {
            match read_lsic(input, &mut pos) {
                Some(v) => {
                    litlen = 15 + v;
                },
                None => {
                    assert(legacy_block_decode(input@, p0, prefix@, outp) == Err::<Seq<u8>, Error>(
                        Error::UnexpectedEnd,
                    ));
                    return Err(Error::UnexpectedEnd);
                },
            }
        } else {
            litlen = (token >> 4) as usize;
        }
        let ghost lpos = pos as int;
        assert(nib_len(input@, p0 + 1, token >> 4) == Some((litlen as int, lpos)));
        if litlen > input.len() - pos {
            assert(legacy_block_decode(input@, p0, prefix@, outp) == Err::<Seq<u8>, Error>(
                Error::UnexpectedEnd,
            ));
            return Err(Error::UnexpectedEnd);
        }
        let mut j: usize = 0;
        while j < litlen
            invariant
                j <= litlen,
                lpos + litlen <= input@.len(),
                input@.len() <= usize::MAX,
                pos == lpos,
                output@ == outp + input@.subrange(lpos, lpos + j),
            decreases litlen - j,
        {
            output.push(input[pos + j]);
            proof {
                assert(outp + input@.subrange(lpos, lpos + j + 1) =~= (outp + input@.subrange(
                    lpos,
                    lpos + j,
                )).push(input@[lpos + j]));
            }
            j = j + 1;
        }
        pos = pos + litlen;
        let ghost out1 = outp + input@.subrange(lpos, lpos + litlen);
        assert(output@ == out1);
        assert(output@.subrange(0, old(output)@.len() as int) =~= outp.subrange(
            0,
            old(output)@.len() as int,
        ));

        // the match part of the sequence; a truncated one ends the block
        if input.len() - pos < 2 {
            assert(legacy_block_decode(input@, p0, prefix@, outp) == Ok::<Seq<u8>, Error>(out1));
            return Ok(());
        }
        let ghost mpos = pos as int;
        let offset: usize = input[pos] as usize + 256 * (input[pos + 1] as usize);
        pos = pos + 2;
        let extra: usize;
        if token & 0xf == 15 {
            match read_lsic(input, &mut pos) {
                Some(v) => {
                    extra = 15 + v;
                },
                None => {
                    assert(legacy_block_decode(input@, p0, prefix@, outp) == Err::<Seq<u8>, Error>(
                        Error::UnexpectedEnd,
                    ));
                    return Err(Error::UnexpectedEnd);
                },
            }
        } else {
            extra = (token & 0xf) as usize;
        }
        let match_len: usize = 4 + extra;
        assert(nib_len(input@, mpos + 2, token & 0xf) == Some((extra as int, pos as int)));
        let ghost pre_copy = output@;
        let r = copy_overlapping(offset, match_len, prefix, output);
        proof {
            assert(output@.subrange(0, old(output)@.len() as int) =~= pre_copy.subrange(
                0,
                old(output)@.len() as int,
            ));
        }
        match r {
            Ok(()) => {
                assert(legacy_block_decode(input@, p0, prefix@, outp) == legacy_block_decode(
                    input@,
                    pos as int,
                    prefix@,
                    output@,
                ));
            },
            Err(e) => {
                assert(e == DecodeError::ZeroDeduplicationOffset || e
                    == DecodeError::InvalidDeduplicationOffset);
                assert(legacy_block_decode(input@, p0, prefix@, outp) == Err::<Seq<u8>, Error>(
                    Error::InvalidDeduplicationOffset,
                ));
                return Err(Error::InvalidDeduplicationOffset);
            },
        }
    }
}

/// Decompress all of `input` as one raw block.
pub fn decompress(input: &[u8]) -> (r: Result<Vec<u8>, Error>)
    requires
        input@.len() * 255 + 19 <= usize::MAX,
    ensures
        match r {
            Ok(v) => legacy_block_decode(input@, 0, Seq::empty(), Seq::empty()) == Ok::<
                Seq<u8>,
                Error,
            >(v@),
            Err(e) => legacy_block_decode(input@, 0, Seq::empty(), Seq::empty()) == Err::<
                Seq<u8>,
                Error,
            >(e),
        },
{
    let mut vec: Vec<u8> = Vec::new();
    let empty: Vec<u8> = Vec::new();
    match decompress_block(input, empty.as_slice(), &mut vec) {
        Ok(()) => {
            proof {
                assert(empty@ =~= Seq::<u8>::empty());
            }
            Ok(vec)
        },
        Err(e) => {
            proof {
                assert(empty@ =~= Seq::<u8>::empty());
            }
            Err(e)
        },
    }
}

} // verus!
