//! Writing LZ4 frames.
use vstd::prelude::*;

use crate::append_slice;
use crate::framed::hash::{xxh32, xxh32_of};
use crate::framed::model::{
    frame_decode, le32_at, le32_bytes, le64_bytes, spec_block_count, spec_blocks,
    spec_parse_header, spec_prefix, spec_window_update, SpecHeader,
};
use crate::framed::model::{
    lemma_parse_header_extend, lemma_spec_blocks_step_chain, lemma_spec_blocks_terminal_chain,
};
use crate::header::BlockDescriptor;
use crate::raw::compress::{compress2, EncoderTable, U32Table};
use crate::raw::model::{block_decode, lemma_block_decode_limit_mono};

verus! {

/// Appends the four little-endian bytes of a 32-bit value.
pub(crate) fn write_u32_le(out: &mut Vec<u8>, v: u32)
    ensures
        final(out)@ == old(out)@ + le32_bytes(v),
{
    proof {
        assert(v & 0xff < 256 && (v >> 8) & 0xff < 256 && (v >> 16) & 0xff < 256 && (v >> 24)
            & 0xff < 256) by (bit_vector);
    }
    out.push((v & 0xff) as u8);
    out.push(((v >> 8) & 0xff) as u8);
    out.push(((v >> 16) & 0xff) as u8);
    out.push(((v >> 24) & 0xff) as u8);
    proof {
        assert(out@ =~= old(out)@ + le32_bytes(v));
    }
}

/// Appends the eight little-endian bytes of a 64-bit value.
pub(crate) fn write_u64_le(out: &mut Vec<u8>, v: u64)
    ensures
        final(out)@ == old(out)@ + le64_bytes(v),
{
    proof {
        assert(v & 0xffffffff < 0x100000000 && v >> 32 < 0x100000000) by (bit_vector);
    }
    let lo: u32 = (v & 0xffffffff) as u32;
    let hi: u32 = (v >> 32) as u32;
    write_u32_le(out, lo);
    write_u32_le(out, hi);
    proof {
        assert(old(out)@ + le32_bytes(lo) + le32_bytes(hi) =~= old(out)@ + le64_bytes(v));
    }
}

/// Encodes the chunk `in_buffer[window_offset..]` into a fresh block
/// buffer: nonempty, and decoding it against the bytes before the
/// chunk yields the chunk, within any block maxsize the chunk fits.
fn encode_chunk(
    in_buffer: &Vec<u8>,
    window_offset: usize,
    table: &mut U32Table,
    bs: usize,
) -> (scratch: Vec<u8>)
    requires
        old(table).wf(),
        old(table).hi() <= old(table).base() + window_offset as int,
        old(table).base() + in_buffer@.len() <= u32::MAX,
        window_offset < in_buffer@.len(),
        in_buffer@.len() + 130 <= usize::MAX,
        in_buffer@.len() - window_offset <= bs,
    ensures
        final(table).wf(),
        final(table).base() == old(table).base(),
        final(table).hi() <= old(table).base() + in_buffer@.len(),
        scratch@.len() >= 1,
        block_decode(
            scratch@,
            0,
            in_buffer@.subrange(0, window_offset as int),
            Seq::empty(),
            bs as int,
        ) == Ok::<Seq<u8>, crate::raw::decompress::DecodeError>(
            in_buffer@.subrange(window_offset as int, in_buffer@.len() as int),
        ),
{
    let mut scratch: Vec<u8> = Vec::new();
    compress2(in_buffer, window_offset, table, &mut scratch);
    proof {
        let pre = in_buffer@.subrange(0, window_offset as int);
        let chunk = in_buffer@.subrange(window_offset as int, in_buffer@.len() as int);
        let take = in_buffer@.len() - window_offset;
        assert(scratch@.subrange(0, scratch@.len() as int) =~= scratch@);
        assert(block_decode(scratch@, 0, pre, Seq::empty(), take as int) == Ok::<
            Seq<u8>,
            crate::raw::decompress::DecodeError,
        >(chunk));
        lemma_block_decode_limit_mono(scratch@, 0, pre, Seq::empty(), take as int, bs as int);
        assert(scratch@.len() >= 1) by {
            if scratch@.len() == 0 {
                assert(block_decode(scratch@, 0, pre, Seq::empty(), take as int) == Ok::<
                    Seq<u8>,
                    crate::raw::decompress::DecodeError,
                >(Seq::empty()));
            }
        }
    }
    scratch
}

/// Emits one block: its length word (high bit set when the scratch
/// encoding would not shrink the chunk, whose `take` bytes are then
/// stored raw), the payload, and its checksum when asked for.
/// Returns the length word.
fn emit_block(
    out: &mut Vec<u8>,
    scratch: &Vec<u8>,
    in_buffer: &Vec<u8>,
    window_offset: usize,
    take: usize,
    block_checksums: bool,
) -> (bl: u32)
    requires
        window_offset + take == in_buffer@.len(),
        1 <= take <= 4194304,
        scratch@.len() >= 1,
    ensures
        ({
            let payload = if scratch@.len() <= take {
                scratch@
            } else {
                in_buffer@.subrange(window_offset as int, in_buffer@.len() as int)
            };
            &&& final(out)@ == old(out)@ + (le32_bytes(bl) + payload + (if block_checksums {
                le32_bytes(xxh32_of(payload))
            } else {
                Seq::empty()
            }))
            &&& bl != 0
            &&& ((bl < 0x80000000) == (scratch@.len() <= take))
            &&& payload.len() == (if bl < 0x80000000 {
                bl as int
            } else {
                bl - 0x80000000
            })
        }),
{
    let bl: u32;
    if scratch.len() <= take {
        bl = scratch.len() as u32;
        write_u32_le(out, bl);
        append_slice(out, scratch.as_slice());
        if block_checksums {
            let c = xxh32(scratch.as_slice());
            write_u32_le(out, c);
        }
        proof {
            assert(out@ =~= old(out)@ + (le32_bytes(bl) + scratch@ + (if block_checksums {
                le32_bytes(xxh32_of(scratch@))
            } else {
                Seq::<u8>::empty()
            })));
        }
    } else {
        bl = (take as u32) + 0x80000000;
        let ibl: usize = in_buffer.len();
        write_u32_le(out, bl);
        append_slice(out, &in_buffer.as_slice()[window_offset..ibl]);
        if block_checksums {
            let c = xxh32(&in_buffer.as_slice()[window_offset..ibl]);
            write_u32_le(out, c);
        }
        proof {
            let payload = in_buffer@.subrange(window_offset as int, in_buffer@.len() as int);
            assert(bl >= 0x80000000 && bl - 0x80000000 == take as int) by {
                assert(take <= 4194304);
            }
            assert(out@ =~= old(out)@ + (le32_bytes(bl) + payload + (if block_checksums {
                le32_bytes(xxh32_of(payload))
            } else {
                Seq::<u8>::empty()
            })));
        }
    }
    bl
}

/// Errors when compressing an LZ4 frame.
#[derive(Clone, Copy, Debug, PartialEq, Eq, Structural)]
pub enum CompressionError {
    /// The configured block size is not one the format can express.
    InvalidBlockSize,
}

/// A builder-style struct that configures frame compression.
///
/// Create it using `Default::default()`.
pub struct CompressionSettings<'a> {
    independent_blocks: bool,
    block_checksums: bool,
    content_checksum: bool,
    block_size: usize,
    dictionary: Option<&'a [u8]>,
    dictionary_id: Option<u32>,
}

impl<'a> Default for CompressionSettings<'a> {
    fn default() -> (r: Self)
        ensures
            r.spec_independent_blocks() == true,
            r.spec_block_checksums() == false,
            r.spec_content_checksum() == true,
            r.spec_block_size() == 4194304,
            r.spec_dictionary() is None,
            r.spec_dictionary_id() is None,
    {
        CompressionSettings {
            independent_blocks: true,
            block_checksums: false,
            content_checksum: true,
            block_size: 4 * 1024 * 1024,
            dictionary: None,
            dictionary_id: None,
        }
    }
}

impl<'a> CompressionSettings<'a> {
    pub closed spec fn spec_independent_blocks(&self) -> bool {
        self.independent_blocks
    }

    pub closed spec fn spec_block_checksums(&self) -> bool {
        self.block_checksums
    }

    pub closed spec fn spec_content_checksum(&self) -> bool {
        self.content_checksum
    }

    pub closed spec fn spec_block_size(&self) -> int {
        self.block_size as int
    }

    pub closed spec fn spec_dictionary(&self) -> Option<Seq<u8>> {
        match self.dictionary {
            Some(d) => Some(d@),
            None => None,
        }
    }

    pub closed spec fn spec_dictionary_id(&self) -> Option<u32> {
        self.dictionary_id
    }

    /// In independent mode, blocks may not reference data from
    /// earlier blocks; dependent blocks compress slightly better but
    /// cannot be decoded from the middle.  Blocks are independent by
    /// default.
    pub fn independent_blocks(&mut self, v: bool) -> (r: &mut Self)
        ensures
            r.spec_independent_blocks() == v,
            r.spec_block_checksums() == old(self).spec_block_checksums(),
            r.spec_content_checksum() == old(self).spec_content_checksum(),
            r.spec_block_size() == old(self).spec_block_size(),
            r.spec_dictionary() == old(self).spec_dictionary(),
            r.spec_dictionary_id() == old(self).spec_dictionary_id(),
            *final(self) == *final(r),
    {
        self.independent_blocks = v;
        self
    }

    /// Block checksums detect corruption per block.  Disabled by
    /// default.
    pub fn block_checksums(&mut self, v: bool) -> (r: &mut Self)
        ensures
            r.spec_block_checksums() == v,
            r.spec_independent_blocks() == old(self).spec_independent_blocks(),
            r.spec_content_checksum() == old(self).spec_content_checksum(),
            r.spec_block_size() == old(self).spec_block_size(),
            r.spec_dictionary() == old(self).spec_dictionary(),
            r.spec_dictionary_id() == old(self).spec_dictionary_id(),
            *final(self) == *final(r),
    {
        self.block_checksums = v;
        self
    }

    /// The content checksum covers the whole frame's plaintext.
    /// Enabled by default.
    pub fn content_checksum(&mut self, v: bool) -> (r: &mut Self)
        ensures
            r.spec_content_checksum() == v,
            r.spec_independent_blocks() == old(self).spec_independent_blocks(),
            r.spec_block_checksums() == old(self).spec_block_checksums(),
            r.spec_block_size() == old(self).spec_block_size(),
            r.spec_dictionary() == old(self).spec_dictionary(),
            r.spec_dictionary_id() == old(self).spec_dictionary_id(),
            *final(self) == *final(r),
    {
        self.content_checksum = v;
        self
    }

    /// The only valid values are 4 MiB, 1 MiB, 256 KiB and 64 KiB;
    /// others are rejected when compressing.  The default is 4 MiB.
    pub fn block_size(&mut self, v: usize) -> (r: &mut Self)
        ensures
            r.spec_block_size() == v as int,
            r.spec_independent_blocks() == old(self).spec_independent_blocks(),
            r.spec_block_checksums() == old(self).spec_block_checksums(),
            r.spec_content_checksum() == old(self).spec_content_checksum(),
            r.spec_dictionary() == old(self).spec_dictionary(),
            r.spec_dictionary_id() == old(self).spec_dictionary_id(),
            *final(self) == *final(r),
    {
        self.block_size = v;
        self
    }

    /// A dictionary: a byte slice both sides share, which matches may
    /// reach into, and an application-specific id for it.  Only its
    /// trailing 64 KiB can matter.
    pub fn dictionary(&mut self, id: u32, dict: &'a [u8]) -> (r: &mut Self)
        ensures
            r.spec_dictionary() == Some(dict@),
            r.spec_dictionary_id() == Some(id),
            r.spec_independent_blocks() == old(self).spec_independent_blocks(),
            r.spec_block_checksums() == old(self).spec_block_checksums(),
            r.spec_content_checksum() == old(self).spec_content_checksum(),
            r.spec_block_size() == old(self).spec_block_size(),
            *final(self) == *final(r),
    {
        self.dictionary_id = Some(id);
        self.dictionary = Some(dict);
        self
    }

    /// The length of the configured dictionary, zero without one.
    /// Callers use it to check an input against the encoder's size
    /// limit before compressing.
    pub fn dictionary_size(&self) -> (r: usize)
        ensures
            r as int == self.spec_dict_or_empty().len(),
    {
        match self.dictionary {
            Some(d) => d.len(),
            None => 0,
        }
    }

    /// The dictionary bytes matches may reach into, or empty when
    /// none was configured.
    pub open spec fn spec_dict_or_empty(&self) -> Seq<u8> {
        match self.spec_dictionary() {
            Some(d) => d,
            None => Seq::empty(),
        }
    }

    /// Serializes the frame header these settings and `content_size`
    /// call for, with its checksum byte; the result parses back to
    /// exactly what was configured.
    #[verifier::rlimit(100)]
    fn write_header(&self, content_size: Option<u64>, bs: usize) -> (out: Vec<u8>)
        requires
            bs == 65536 || bs == 262144 || bs == 1048576 || bs == 4194304,
            bs as int == self.spec_block_size(),
        ensures
            out@.len() == 7 + (if content_size is Some {
                8int
            } else {
                0
            }) + (if self.spec_dictionary_id() is Some {
                4int
            } else {
                0
            }),
            spec_parse_header(out@) == Ok::<
                (SpecHeader, int),
                crate::framed::decompress::DecompressionError,
            >(
                (
                    SpecHeader {
                        independent: self.spec_independent_blocks(),
                        block_checksums: self.spec_block_checksums(),
                        content_checksum: self.spec_content_checksum(),
                        content_size: match content_size {
                            Some(v) => Some(v as int),
                            None => None::<int>,
                        },
                        dictionary_id: match self.spec_dictionary_id() {
                            Some(v) => Some(v as int),
                            None => None::<int>,
                        },
                        block_maxsize: bs as int,
                    },
                    out@.len() as int,
                ),
            ),
    {
        let bd = BlockDescriptor::new(bs).unwrap();
        let bd_byte: u8 = bd.0;

        // the flag byte: version one plus the feature bits
        let bi: u8 = if self.independent_blocks {
            0x20
        } else {
            0
        };
        let bb: u8 = if self.block_checksums {
            0x10
        } else {
            0
        };
        let bcs: u8 = if content_size.is_some() {
            0x08
        } else {
            0
        };
        let bcc: u8 = if self.content_checksum {
            0x04
        } else {
            0
        };
        let bdi: u8 = if self.dictionary_id.is_some() {
            0x01
        } else {
            0
        };
        let flag_byte: u8 = 0x40 + bi + bb + bcs + bcc + bdi;
        proof {
            let fb = flag_byte;
            assert((fb >> 6 == 1) && (fb & 0b10 == 0) && ((fb & 0x20 != 0) == (bi == 0x20)) && ((fb
                & 0x10 != 0) == (bb == 0x10)) && ((fb & 0x08 != 0) == (bcs == 0x08)) && ((fb & 0x04
                != 0) == (bcc == 0x04)) && ((fb & 0x01 != 0) == (bdi == 0x01))) by (bit_vector)
                requires
                    fb == 0x40 + bi + bb + bcs + bcc + bdi,
                    bi == 0x20 || bi == 0,
                    bb == 0x10 || bb == 0,
                    bcs == 0x08 || bcs == 0,
                    bcc == 0x04 || bcc == 0,
                    bdi == 0x01 || bdi == 0,
            ;
        }

        let mut out: Vec<u8> = Vec::new();
        write_u32_le(&mut out, 0x184D2204);
        proof {
            assert(out@ =~= le32_bytes(0x184D2204u32));
        }
        out.push(flag_byte);
        out.push(bd_byte);
        match content_size {
            Some(cs) => {
                write_u64_le(&mut out, cs);
            },
            None => {},
        }
        match self.dictionary_id {
            Some(id) => {
                write_u32_le(&mut out, id);
            },
            None => {},
        }
        let cpos: usize = out.len();
        let ghost pre_ck = out@;
        let hh = xxh32(&out.as_slice()[4..cpos]);
        proof {
            assert((hh >> 8) & 0xff < 256) by (bit_vector);
        }
        let ck: u8 = ((hh >> 8) & 0xff) as u8;
        out.push(ck);
        let ghost hd = out@;
        proof {
            assert(hd.len() == cpos + 1);
            assert(hd.subrange(0, 4) =~= le32_bytes(0x184D2204u32));
            crate::framed::model::lemma_le32_at_bytes(hd, 0, 0x184D2204u32);
            assert(le32_at(hd, 0) == 0x184D2204);
            assert(hd[4] == flag_byte);
            assert(hd[5] == bd_byte);
            if bs == 65536 {
                assert((0x40u8 & 0b10001111 == 0) && ((0x40u8 >> 4) & 0b111 == 4)) by (bit_vector);
            } else if bs == 262144 {
                assert((0x50u8 & 0b10001111 == 0) && ((0x50u8 >> 4) & 0b111 == 5)) by (bit_vector);
            } else if bs == 1048576 {
                assert((0x60u8 & 0b10001111 == 0) && ((0x60u8 >> 4) & 0b111 == 6)) by (bit_vector);
            } else {
                assert((0x70u8 & 0b10001111 == 0) && ((0x70u8 >> 4) & 0b111 == 7)) by (bit_vector);
            }
            assert(hd[5] & 0b10001111 == 0);
            assert(4 <= ((hd[5] >> 4) & 0b111) < 8);
            assert(crate::header::spec_block_maxsize((hd[5] >> 4) & 0b111) == bs);
            match content_size {
                Some(cs) => {
                    assert(hd.subrange(6, 14) =~= le64_bytes(cs));
                    crate::framed::model::lemma_le64_at_bytes(hd, 6, cs);
                },
                None => {},
            }
            match self.dictionary_id {
                Some(id) => {
                    let dpos: int = if content_size is Some {
                        14
                    } else {
                        6
                    };
                    assert(hd.subrange(dpos, dpos + 4) =~= le32_bytes(id));
                    crate::framed::model::lemma_le32_at_bytes(hd, dpos, id);
                },
                None => {},
            }
            assert(hd.subrange(4, cpos as int) =~= pre_ck.subrange(4, cpos as int));
            assert(hd[cpos as int] == ((xxh32_of(hd.subrange(4, cpos as int)) >> 8) & 0xff) as u8);
        }
        out
    }

    /// Compresses all of `input` into one complete frame under these
    /// settings: header, blocks (each stored uncompressed when
    /// compression would expand it), terminator and checksums.
    ///
    /// The contract is the frame round trip: decoding the returned
    /// bytes against this configuration's dictionary yields `input`
    /// exactly.  The only error is a block size the format cannot
    /// express, and it comes exactly then.
    #[verifier::rlimit(100)]
    #[verifier::spinoff_prover]
    pub fn compress_internal(&self, input: &[u8], content_size: Option<u64>) -> (r: Result<
        Vec<u8>,
        CompressionError,
    >)
        requires
            input@.len() + 130 <= usize::MAX,
            self.spec_dict_or_empty().len() + input@.len() + 70000 <= u32::MAX,
        ensures
            match r {
                Ok(out) => {
                    &&& frame_decode(out@, self.spec_dict_or_empty()) == Ok::<
                        Seq<u8>,
                        crate::framed::decompress::DecompressionError,
                    >(input@)
                    &&& (spec_parse_header(out@) matches Ok(hp) && hp.0 == SpecHeader {
                        independent: self.spec_independent_blocks(),
                        block_checksums: self.spec_block_checksums(),
                        content_checksum: self.spec_content_checksum(),
                        content_size: match content_size {
                            Some(v) => Some(v as int),
                            None => None::<int>,
                        },
                        dictionary_id: match self.spec_dictionary_id() {
                            Some(v) => Some(v as int),
                            None => None::<int>,
                        },
                        block_maxsize: self.spec_block_size(),
                    })
                    &&& out@.len() <= 27 + input@.len() + 8 * spec_block_count(
                        input@.len() as int,
                        self.spec_block_size(),
                    )
                },
                Err(e) => {
                    &&& e == CompressionError::InvalidBlockSize
                    &&& self.spec_block_size() != 65536
                    &&& self.spec_block_size() != 262144
                    &&& self.spec_block_size() != 1048576
                    &&& self.spec_block_size() != 4194304
                },
            },
            (r is Ok) == (self.spec_block_size() == 65536 || self.spec_block_size() == 262144
                || self.spec_block_size() == 1048576 || self.spec_block_size() == 4194304),
    {
        let bs: usize = self.block_size;
        if BlockDescriptor::new(bs).is_none() {
            return Err(CompressionError::InvalidBlockSize);
        }
        let mut out: Vec<u8> = self.write_header(content_size, bs);
        let hlen: usize = out.len();
        let ghost hd = out@;
        let ghost hdr = SpecHeader {
            independent: self.independent_blocks,
            block_checksums: self.block_checksums,
            content_checksum: self.content_checksum,
            content_size: match content_size {
                Some(v) => Some(v as int),
                None => None::<int>,
            },
            dictionary_id: match self.dictionary_id {
                Some(v) => Some(v as int),
                None => None::<int>,
            },
            block_maxsize: bs as int,
        };

        // the dictionary, and a hash table template seeded from it
        let empty_dict: Vec<u8> = Vec::new();
        let dict_slice: &[u8] = match self.dictionary {
            Some(d) => d,
            None => empty_dict.as_slice(),
        };
        let ghost dictv = dict_slice@;
        proof {
            assert(dictv =~= self.spec_dict_or_empty());
        }
        let mut template = U32Table::default();
        let mut o: usize = 0;
        while o + 8 <= dict_slice.len()
            invariant
                template.wf(),
                template.base() == 0,
                template.hi() <= o as int,
                o <= dictv.len(),
                dictv == dict_slice@,
                dictv.len() + 70000 <= u32::MAX,
            decreases dict_slice@.len() - o,
        {
            template.replace(dict_slice, o);
            o = o + 3;
        }

        let mut table = template.duplicate();
        let mut in_buffer: Vec<u8> = Vec::new();
        append_slice(&mut in_buffer, dict_slice);
        proof {
            assert(in_buffer@ =~= dictv);
        }
        let mut consumed: usize = 0;
        let ghost mut blocks: int = 0;
        let ghost win0: Option<Seq<u8>> = if hdr.independent {
            None
        } else {
            Some(Seq::empty())
        };
        let ghost mut wm: Option<Seq<u8>> = win0;
        let ghost mut hm: Seq<u8> = Seq::empty();
        proof {
            assert(spec_prefix(wm, dictv) == in_buffer@) by {
                if !hdr.independent {
                    assert(spec_prefix(wm, dictv) == dictv);
                }
            }
            assert forall|rest: Seq<u8>|
                spec_blocks(
                    #[trigger] (out@ + rest),
                    hlen as int,
                    hdr,
                    dictv,
                    win0,
                    Seq::empty(),
                ) == (match spec_blocks(out@ + rest, out@.len() as int, hdr, dictv, wm, hm) {
                    Ok(t) => Ok::<Seq<u8>, crate::framed::decompress::DecompressionError>(
                        input@.subrange(0, consumed as int) + t,
                    ),
                    Err(e) => Err::<Seq<u8>, crate::framed::decompress::DecompressionError>(e),
                }) by {
                let m = spec_blocks(out@ + rest, hlen as int, hdr, dictv, win0, Seq::empty());
                if m is Ok {
                    let t = m->Ok_0;
                    assert(input@.subrange(0, 0) + t =~= t);
                }
            }
        }

        // one block per loop turn
        while consumed < input.len()
            invariant
                consumed <= input@.len(),
                input@.len() + 130 <= usize::MAX,
                dictv.len() + input@.len() + 70000 <= u32::MAX,
                bs == 65536 || bs == 262144 || bs == 1048576 || bs == 4194304,
                hdr.block_maxsize == bs as int,
                hdr.independent == self.spec_independent_blocks(),
                hdr.block_checksums == self.spec_block_checksums(),
                hdr.content_checksum == self.spec_content_checksum(),
                win0 == (if hdr.independent {
                    None::<Seq<u8>>
                } else {
                    Some(Seq::<u8>::empty())
                }),
                dictv == dict_slice@,
                template.wf(),
                template.base() == 0,
                template.hi() <= dictv.len(),
                table.wf(),
                table.base() >= 0,
                table.hi() <= table.base() + in_buffer@.len(),
                table.base() + in_buffer@.len() == dictv.len() + (if hdr.independent {
                    0int
                } else {
                    consumed as int
                }),
                (wm is Some) == !hdr.independent,
                spec_prefix(wm, dictv) == in_buffer@,
                hm == (if hdr.content_checksum {
                    input@.subrange(0, consumed as int)
                } else {
                    Seq::<u8>::empty()
                }),
                hlen <= out@.len(),
                hlen <= 19,
                0 <= blocks <= spec_block_count(input@.len() as int, bs as int),
                consumed == blocks * bs || consumed == input@.len(),
                out@.len() <= hlen + consumed + 8 * blocks,
                out@.subrange(0, hlen as int) == hd,
                spec_parse_header(hd) == Ok::<
                    (SpecHeader, int),
                    crate::framed::decompress::DecompressionError,
                >((hdr, hlen as int)),
                forall|rest: Seq<u8>|
                    spec_blocks(
                        #[trigger] (out@ + rest),
                        hlen as int,
                        hdr,
                        dictv,
                        win0,
                        Seq::empty(),
                    ) == (match spec_blocks(out@ + rest, out@.len() as int, hdr, dictv, wm, hm) {
                        Ok(t) => Ok::<Seq<u8>, crate::framed::decompress::DecompressionError>(
                            input@.subrange(0, consumed as int) + t,
                        ),
                        Err(e) => Err::<Seq<u8>, crate::framed::decompress::DecompressionError>(e),
                    }),
            decreases input@.len() - consumed,
        {
            let window_offset = in_buffer.len();
            let remaining = input.len() - consumed;
            let take: usize = if bs < remaining {
                bs
            } else {
                remaining
            };
            append_slice(&mut in_buffer, &input[consumed..consumed + take]);
            let ghost pre_inb = in_buffer@.subrange(0, window_offset as int);
            let ghost chunk = input@.subrange(consumed as int, consumed + take);
            proof {
                assert(pre_inb =~= spec_prefix(wm, dictv));
                assert(in_buffer@.subrange(window_offset as int, in_buffer@.len() as int)
                    =~= chunk);
            }

            let ibl: usize = in_buffer.len();
            proof {
                assert(ibl == window_offset + take);
                assert(in_buffer@.len() + 130 <= usize::MAX);
            }
            let scratch: Vec<u8> = encode_chunk(&in_buffer, window_offset, &mut table, bs);
            proof {
                assert(in_buffer@.subrange(0, window_offset as int) == pre_inb);
                assert(block_decode(scratch@, 0, spec_prefix(wm, dictv), Seq::empty(), hdr.block_maxsize)
                    == Ok::<Seq<u8>, crate::raw::decompress::DecodeError>(chunk));
            }

            // emit the block: compressed when that does not expand it
            let ghost out_pre = out@;
            let bl: u32 = emit_block(
                &mut out,
                &scratch,
                &in_buffer,
                window_offset,
                take,
                self.block_checksums,
            );
            let ghost payload: Seq<u8> = if scratch@.len() <= take {
                scratch@
            } else {
                chunk
            };
            let ghost g = le32_bytes(bl) + payload + (if hdr.block_checksums {
                le32_bytes(xxh32_of(payload))
            } else {
                Seq::<u8>::empty()
            });
            proof {
                assert(in_buffer@.subrange(window_offset as int, in_buffer@.len() as int)
                    =~= chunk);
                assert(out@ == out_pre + g);
                if bl < 0x80000000 {
                    assert(payload.len() == bl as int);
                } else {
                    assert(payload == chunk);
                }
            }

            // step the continuation invariant over the block
            let ghost wm_old = wm;
            let ghost hm_old = hm;
            proof {
                wm = spec_window_update(wm_old, dictv, chunk);
                hm = if hdr.content_checksum {
                    hm_old + chunk
                } else {
                    hm_old
                };
                lemma_spec_blocks_step_chain(
                    out_pre,
                    g,
                    hlen as int,
                    hdr,
                    dictv,
                    win0,
                    wm_old,
                    hm_old,
                    input@.subrange(0, consumed as int),
                    bl,
                    payload,
                    chunk,
                );
                assert(out@ =~= out_pre + g);
                assert(input@.subrange(0, consumed as int) + chunk =~= input@.subrange(
                    0,
                    consumed + take,
                ));
                assert forall|rest: Seq<u8>|
                    spec_blocks(
                        #[trigger] (out@ + rest),
                        hlen as int,
                        hdr,
                        dictv,
                        win0,
                        Seq::empty(),
                    ) == (match spec_blocks(out@ + rest, out@.len() as int, hdr, dictv, wm, hm) {
                        Ok(t) => Ok::<Seq<u8>, crate::framed::decompress::DecompressionError>(
                            input@.subrange(0, consumed + take) + t,
                        ),
                        Err(e) => Err::<Seq<u8>, crate::framed::decompress::DecompressionError>(e),
                    }) by {
                    assert(out@ + rest =~= (out_pre + g) + rest);
                    assert(spec_blocks(
                        (out_pre + g) + rest,
                        hlen as int,
                        hdr,
                        dictv,
                        win0,
                        Seq::empty(),
                    ) == (match spec_blocks(
                        (out_pre + g) + rest,
                        (out_pre + g).len() as int,
                        hdr,
                        dictv,
                        wm,
                        hm,
                    ) {
                        Ok(t) => Ok::<Seq<u8>, crate::framed::decompress::DecompressionError>(
                            (input@.subrange(0, consumed as int) + chunk) + t,
                        ),
                        Err(e) => Err::<Seq<u8>, crate::framed::decompress::DecompressionError>(e),
                    }));
                }
            }
            proof {
                assert(consumed == blocks * bs) by {
                    assert(consumed < input@.len());
                }
                assert(blocks + 1 <= spec_block_count(input@.len() as int, bs as int)) by {
                    let n = input@.len() as int;
                    assert(blocks * bs <= n - 1);
                    vstd::arithmetic::div_mod::lemma_div_is_ordered(blocks * bs, n - 1, bs as int);
                    vstd::arithmetic::div_mod::lemma_div_by_multiple(blocks, bs as int);
                }
                assert(g.len() <= 8 + take) by {
                    assert(payload.len() <= take as int);
                }
                blocks = blocks + 1;
            }
            consumed = consumed + take;

            // reset or slide the encoder's view of earlier data
            if self.independent_blocks {
                in_buffer.clear();
                append_slice(&mut in_buffer, dict_slice);
                table = template.duplicate();
                proof {
                    assert(in_buffer@ =~= dictv);
                    assert(spec_prefix(wm, dictv) == in_buffer@);
                }
            } else {
                let ghost full = in_buffer@;
                if in_buffer.len() > 65536 {
                    let d = in_buffer.len() - 65536;
                    table.offset(d);
                    let mut nb: Vec<u8> = Vec::new();
                    append_slice(&mut nb, &in_buffer.as_slice()[d..in_buffer.len()]);
                    in_buffer = nb;
                    proof {
                        assert(in_buffer@ =~= full.subrange(d as int, full.len() as int));
                    }
                }
                proof {
                    assert(full =~= spec_prefix(wm_old, dictv) + chunk);
                    assert(chunk.len() >= 1);
                    crate::framed::model::lemma_window_slide(wm_old, dictv, chunk, in_buffer@);
                }
            }
            proof {
                assert(hm == (if hdr.content_checksum {
                    input@.subrange(0, consumed as int)
                } else {
                    Seq::<u8>::empty()
                })) by {
                    if hdr.content_checksum {
                        assert(input@.subrange(0, consumed - take) + chunk =~= input@.subrange(
                            0,
                            consumed as int,
                        ));
                    }
                }
                assert(out@.subrange(0, hlen as int) =~= hd);
            }
        }

        // terminator, then the content checksum over all plaintext
        let ghost pre_term = out@;
        write_u32_le(&mut out, 0);
        if self.content_checksum {
            let c = xxh32(input);
            write_u32_le(&mut out, c);
        }
        proof {
            assert(hm == (if hdr.content_checksum {
                input@
            } else {
                Seq::<u8>::empty()
            })) by {
                if hdr.content_checksum {
                    assert(input@.subrange(0, consumed as int) =~= input@);
                }
            }
            let t = le32_bytes(0u32) + (if hdr.content_checksum {
                le32_bytes(xxh32_of(hm))
            } else {
                Seq::<u8>::empty()
            });
            assert(out@ =~= pre_term + t);
            lemma_spec_blocks_terminal_chain(
                pre_term,
                hlen as int,
                hdr,
                dictv,
                win0,
                wm,
                hm,
                input@.subrange(0, consumed as int),
            );
            assert(input@.subrange(0, consumed as int) =~= input@);
            assert(out@.subrange(0, hlen as int) =~= hd);
            lemma_parse_header_extend(out@, hd);
            assert(frame_decode(out@, dictv) == Ok::<
                Seq<u8>,
                crate::framed::decompress::DecompressionError,
            >(input@));
        }
        Ok(out)
    }

    /// Sets or clears the dictionary id alone.  The LZ4 command line
    /// tool never writes one, even when a dictionary is used; this
    /// override exists for compatibility with it.
    pub fn dictionary_id_nonsense_override(&mut self, id: Option<u32>) -> (r: &mut Self)
        ensures
            r.spec_dictionary_id() == id,
            r.spec_independent_blocks() == old(self).spec_independent_blocks(),
            r.spec_block_checksums() == old(self).spec_block_checksums(),
            r.spec_content_checksum() == old(self).spec_content_checksum(),
            r.spec_block_size() == old(self).spec_block_size(),
            r.spec_dictionary() == old(self).spec_dictionary(),
            *final(self) == *final(r),
    {
        self.dictionary_id = id;
        self
    }
}

} // verus!
