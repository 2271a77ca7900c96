//! Decoding raw LZ4 blocks.
use vstd::prelude::*;

use crate::raw::model::{block_decode, copy_match, lsic_read, max_int, nib_len};
use crate::raw::model::{lemma_copy_match_prefix, lemma_copy_match_snoc};

verus! {

/// Errors when decoding a raw LZ4 block.
#[derive(Clone, Copy, Debug, Eq, PartialEq, Hash, Structural)]
pub enum DecodeError {
    /// The block stream ended in the middle of a sequence.
    UnexpectedEnd,
    /// A match copy would grow the output past the memory limit.
    MemoryLimitExceeded,
    /// A match offset of zero, which is always invalid.
    ZeroDeduplicationOffset,
    /// A match offset pointing before the prefix and output.
    InvalidDeduplicationOffset,
}

/// Reads the LSIC varint tail that a nibble value of 15 announces:
/// bytes are summed until one below 0xff terminates the run.
/// Returns the sum, advancing `pos` past the bytes read, or `None`
/// when the input ends first.
pub fn read_lsic(input: &[u8], pos: &mut usize) -> (r: Option<usize>)
    requires
        *old(pos) <= input@.len(),
        input@.len() * 255 + 15 <= usize::MAX,
    ensures
        *old(pos) <= *final(pos) <= input@.len(),
        match r {
            Some(v) => {
                &&& lsic_read(input@, *old(pos) as int) == Some(
                    (v as int, (*final(pos) - *old(pos)) as nat),
                )
                &&& v <= 255 * (*final(pos) - *old(pos))
                &&& *old(pos) < *final(pos)
            },
            None => lsic_read(input@, *old(pos) as int) is None,
        },
{
    let mut value: usize = 0;
    loop
        invariant
            *old(pos) <= *pos <= input@.len(),
            input@.len() * 255 + 15 <= usize::MAX,
            value <= 255 * (*pos - *old(pos)),
            lsic_read(input@, *old(pos) as int) == match lsic_read(input@, *pos as int) {
                Some(vc) => Some::<(int, nat)>(
                    (vc.0 + value, (vc.1 + (*pos - *old(pos))) as nat),
                ),
                None => None::<(int, nat)>,
            },
        decreases input@.len() - *pos,
    {
        if *pos >= input.len() {
            return None;
        }
        let more = input[*pos];
        *pos = *pos + 1;
        value = value + more as usize;
        if more != 0xff {
            return Some(value);
        }
    }
}

/// Appends `match_len` bytes read `offset` positions back, where
/// positions before the output fall into the tail of `prefix`.
/// Matches may overlap their own source; the bytes appended are
/// exactly `copy_match` of the model.
pub(crate) fn copy_overlapping(
    offset: usize,
    match_len: usize,
    prefix: &[u8],
    output: &mut Vec<u8>,
) -> (r: Result<(), DecodeError>)
    ensures
        old(output)@.is_prefix_of(final(output)@),
        match r {
            Ok(()) => {
                &&& 1 <= offset <= old(output)@.len() + prefix@.len()
                &&& final(output)@ == copy_match(
                    prefix@,
                    old(output)@,
                    offset as int,
                    match_len as int,
                )
                &&& final(output)@.len() == old(output)@.len() + match_len
            },
            Err(e) => {
                &&& final(output)@ == old(output)@
                &&& e == (if offset == 0 {
                    DecodeError::ZeroDeduplicationOffset
                } else {
                    DecodeError::InvalidDeduplicationOffset
                })
                &&& (offset == 0 || offset > old(output)@.len() + prefix@.len())
            },
        },
{
    proof {
        assert(output@ =~= output@.subrange(0, output@.len() as int));
    }
    if offset == 0 {
        return Err(DecodeError::ZeroDeduplicationOffset);
    }
    if offset > output.len() && offset - output.len() > prefix.len() {
        return Err(DecodeError::InvalidDeduplicationOffset);
    }
    let ghost out0 = output@;
    let mut i: usize = 0;
    while i < match_len
        invariant
            i <= match_len,
            1 <= offset <= out0.len() + prefix@.len(),
            output@ == copy_match(prefix@, out0, offset as int, i as int),
            output@.len() == out0.len() + i,
        decreases match_len - i,
    {
        proof {
            lemma_copy_match_snoc(prefix@, out0, offset as int, i as int);
        }
        let ol = output.len();
        let b: u8 = if offset <= ol {
            output[ol - offset]
        } else {
            prefix[prefix.len() - (offset - ol)]
        };
        output.push(b);
        i = i + 1;
    }
    proof {
        lemma_copy_match_prefix(prefix@, out0, offset as int, match_len as int);
    }
    Ok(())
}

/// Decompress a raw LZ4 block, appending the decoded bytes to
/// `output`.
///
/// `prefix` provides lookback data that logically precedes `output`;
/// a dictionary or a carryover window is passed this way.
/// `output_limit` bounds what match copies may grow the output to; a
/// run of literals may exceed it by at most `input.len()` bytes.
///
/// The result is exactly what the `block_decode` model says of the
/// input: the decoded bytes on success, and the model's error on
/// malformed input.
pub fn decompress_raw(
    input: &[u8],
    prefix: &[u8],
    output: &mut Vec<u8>,
    output_limit: usize,
) -> (r: Result<(), DecodeError>)
    requires
        input@.len() * 255 + 19 <= usize::MAX,
    ensures
        match r {
            Ok(()) => block_decode(
                input@,
                0,
                prefix@,
                old(output)@,
                output_limit as int,
            ) == Ok::<Seq<u8>, DecodeError>(final(output)@),
            Err(e) => block_decode(
                input@,
                0,
                prefix@,
                old(output)@,
                output_limit as int,
            ) == Err::<Seq<u8>, DecodeError>(e),
        },
        final(output)@.len() <= max_int(old(output)@.len() as int, output_limit as int)
            + input@.len(),
        old(output)@.is_prefix_of(final(output)@),
{
    let ghost limit = output_limit as int;
    let mut pos: usize = 0;
    proof {
        assert(output@ =~= output@.subrange(0, output@.len() as int));
    }
    loop
        invariant
            pos <= input@.len(),
            input@.len() * 255 + 19 <= usize::MAX,
            limit == output_limit as int,
            block_decode(input@, 0, prefix@, old(output)@, limit) == block_decode(
                input@,
                pos as int,
                prefix@,
                output@,
                limit,
            ),
            output@.len() <= max_int(old(output)@.len() as int, limit) + pos,
            old(output)@.len() <= output@.len(),
            output@.subrange(0, old(output)@.len() as int) == old(output)@,
        decreases input@.len() - pos,
    {
        if pos >= input.len() {
            return Ok(());
        }
        let ghost p0 = pos as int;
        let ghost outp = output@;
        let token = input[pos];
        pos = pos + 1;

        // literal run
        let litlen: usize;
        if token >> 4 == 15 {
            match read_lsic(input, &mut pos) {
                Some(v) => {
                    litlen = 15 + v;
                },
                None => {
                    assert(block_decode(input@, p0, prefix@, outp, limit) == Err::<
                        Seq<u8>,
                        DecodeError,
                    >(DecodeError::UnexpectedEnd));
                    return Err(DecodeError::UnexpectedEnd);
                },
            }
        } else {
            litlen = (token >> 4) as usize;
        }
        let ghost lpos = pos as int;
        assert(nib_len(input@, p0 + 1, token >> 4) == Some((litlen as int, lpos)));
        if litlen > input.len() - pos {
            assert(block_decode(input@, p0, prefix@, outp, limit) == Err::<
                Seq<u8>,
                DecodeError,
            >(DecodeError::UnexpectedEnd));
            return Err(DecodeError::UnexpectedEnd);
        }
        let mut j: usize = 0;
        while j < litlen
            invariant
                j <= litlen,
                lpos + litlen <= input@.len(),
                input@.len() <= usize::MAX,
                pos == lpos,
                output@ == outp + input@.subrange(lpos, lpos + j),
            decreases litlen - j,
        {
            output.push(input[pos + j]);
            proof {
                assert(outp + input@.subrange(lpos, lpos + j + 1) =~= (outp
                    + input@.subrange(lpos, lpos + j)).push(input@[lpos + j]));
            }
            j = j + 1;
        }
        pos = pos + litlen;
        let ghost out1 = outp + input@.subrange(lpos, lpos + litlen);
        assert(output@ == out1);
        assert(output@.subrange(0, old(output)@.len() as int) =~= outp.subrange(
            0,
            old(output)@.len() as int,
        ));

        // the match part of the sequence
        if input.len() - pos < 2 {
            if pos >= input.len() {
                assert(block_decode(input@, p0, prefix@, outp, limit) == Ok::<
                    Seq<u8>,
                    DecodeError,
                >(out1));
                return Ok(());
            }
            // a single leftover byte: it is read again as a token
            assert(block_decode(input@, p0, prefix@, outp, limit) == block_decode(
                input@,
                pos as int,
                prefix@,
                out1,
                limit,
            ));
        } else {
            let ghost mpos = pos as int;
            let offset: usize = input[pos] as usize + 256 * (input[pos + 1] as usize);
            pos = pos + 2;
            let extra: usize;
            if token & 0xf == 15 {
                match read_lsic(input, &mut pos) {
                    Some(v) => {
                        extra = 15 + v;
                    },
                    None => {
                        assert(block_decode(input@, p0, prefix@, outp, limit) == Err::<
                            Seq<u8>,
                            DecodeError,
                        >(DecodeError::UnexpectedEnd));
                        return Err(DecodeError::UnexpectedEnd);
                    },
                }
            } else {
                extra = (token & 0xf) as usize;
            }
            let match_len: usize = 4 + extra;
            assert(nib_len(input@, mpos + 2, token & 0xf) == Some(
                (extra as int, pos as int),
            ));
            if match_len > output_limit || output.len() > output_limit - match_len {
                assert(block_decode(input@, p0, prefix@, outp, limit) == Err::<
                    Seq<u8>,
                    DecodeError,
                >(DecodeError::MemoryLimitExceeded));
                return Err(DecodeError::MemoryLimitExceeded);
            }
            let ghost pre_copy = output@;
            let r = copy_overlapping(offset, match_len, prefix, output);
            proof {
                assert(output@.subrange(0, old(output)@.len() as int) =~= pre_copy.subrange(
                    0,
                    old(output)@.len() as int,
                ));
            }
            match r {
                Ok(()) => {
                    assert(block_decode(input@, p0, prefix@, outp, limit) == block_decode(
                        input@,
                        pos as int,
                        prefix@,
                        output@,
                        limit,
                    ));
                },
                Err(e) => {
                    assert(block_decode(input@, p0, prefix@, outp, limit) == Err::<
                        Seq<u8>,
                        DecodeError,
                    >(e));
                    return Err(e);
                },
            }
        }
    }
}

} // verus!
