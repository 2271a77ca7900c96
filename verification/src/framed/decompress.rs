//! Reading LZ4 frames.
use vstd::prelude::*;

use crate::append_slice;
use crate::framed::hash::{xxh32, xxh32_of};
use crate::framed::model::{
    frame_decode, le32_at, le64_at, spec_blocks, spec_parse_header, spec_prefix,
    spec_window_update, SpecHeader,
};
use crate::header::{BlockDescriptor, Flags, ParseError};
use crate::raw::decompress::decompress_raw;

verus! {

/// Errors when decompressing an LZ4 frame.
#[derive(Clone, Copy, Debug, PartialEq, Eq, Structural)]
pub enum DecompressionError {
    /// The input ended before the frame did.
    InputError,
    /// The raw block decoder rejected a block.
    CodecError(crate::raw::decompress::DecodeError),
    /// The fixed header bytes are invalid.
    HeaderParseError(ParseError),
    /// The frame does not start with the magic bytes.
    WrongMagic(u32),
    /// The header checksum byte does not match the header.
    HeaderChecksumFail,
    /// A block checksum does not match its block.
    BlockChecksumFail,
    /// The content checksum does not match the decoded plaintext.
    FrameChecksumFail,
    /// A block length too large to address in memory.
    BlockLengthOverflow,
    /// A block longer, or decoding to more data, than the header's
    /// block maxsize allows.
    BlockSizeOverflow,
}

/// Reads a 32-bit little-endian value.
pub(crate) fn read_u32_le(s: &[u8], pos: usize) -> (r: u32)
    requires
        pos + 4 <= s@.len(),
    ensures
        r as int == le32_at(s@, pos as int),
{
    (s[pos] as u32) + 0x100 * (s[pos + 1] as u32) + 0x10000 * (s[pos + 2] as u32) + 0x1000000 * (
    s[pos + 3] as u32)
}

/// Reads a 64-bit little-endian value.
pub(crate) fn read_u64_le(s: &[u8], pos: usize) -> (r: u64)
    requires
        pos + 8 <= s@.len(),
    ensures
        r as int == le64_at(s@, pos as int),
{
    let n: usize = s.len();
    proof {
        assert(pos + 4 <= n);
    }
    let lo = read_u32_le(s, pos);
    let hi = read_u32_le(s, pos + 4);
    (lo as u64) + 0x100000000 * (hi as u64)
}

/// The carryover window after a block: the trailing 64 KiB of the
/// window (seeded from the dictionary while empty) followed by the
/// block's plaintext.
fn slide_window(w0: &Vec<u8>, dictionary: &[u8], chunk: &Vec<u8>) -> (nw: Vec<u8>)
    ensures
        Some(nw@) == spec_window_update(Some(w0@), dictionary@, chunk@),
        nw@.len() <= 65536,
{
    let mut nw: Vec<u8> = Vec::new();
    if chunk.len() < 65536 {
        let w1: &[u8] = if w0.len() == 0 {
            dictionary
        } else {
            w0.as_slice()
        };
        let room: usize = 65536 - chunk.len();
        if w1.len() > room {
            append_slice(&mut nw, &w1[w1.len() - room..w1.len()]);
        } else {
            append_slice(&mut nw, w1);
        }
        append_slice(&mut nw, chunk.as_slice());
    } else {
        append_slice(&mut nw, &chunk.as_slice()[chunk.len() - 65536..chunk.len()]);
    }
    proof {
        let win0 = Some(w0@);
        assert(Some(nw@) == spec_window_update(win0, dictionary@, chunk@)) by {
            let w1s = spec_prefix(win0, dictionary@);
            if chunk@.len() < 65536 {
                let avail = w1s.len() + chunk@.len();
                if avail > 65536 {
                    assert(nw@ =~= w1s.subrange(avail - 65536, w1s.len() as int) + chunk@);
                } else {
                    assert(nw@ =~= w1s + chunk@);
                }
            } else {
                assert(nw@ =~= chunk@.subrange(chunk@.len() - 65536, chunk@.len() as int));
            }
        }
    }
    nw
}

/// Reads an LZ4 frame, block by block, from a byte buffer it owns.
pub struct LZ4FrameReader {
    input: Vec<u8>,
    pos: usize,
    flags: Flags,
    block_maxsize: usize,
    content_size: Option<u64>,
    dictionary_id: Option<u32>,
    hashed: Vec<u8>,
    carryover_window: Option<Vec<u8>>,
    finished: bool,
}

impl LZ4FrameReader {
    /// What the frame header said.
    pub closed spec fn spec_hdr(&self) -> SpecHeader {
        SpecHeader {
            independent: self.flags@ & 0b100000 != 0,
            block_checksums: self.flags@ & 0b10000 != 0,
            content_checksum: self.flags@ & 0b100 != 0,
            content_size: match self.content_size {
                Some(v) => Some(v as int),
                None => None,
            },
            dictionary_id: match self.dictionary_id {
                Some(v) => Some(v as int),
                None => None,
            },
            block_maxsize: self.block_maxsize as int,
        }
    }

    pub closed spec fn spec_input(&self) -> Seq<u8> {
        self.input@
    }

    pub closed spec fn spec_pos(&self) -> int {
        self.pos as int
    }

    pub closed spec fn spec_finished(&self) -> bool {
        self.finished
    }

    closed spec fn spec_window(&self) -> Option<Seq<u8>> {
        match self.carryover_window {
            Some(w) => Some(w@),
            None => None,
        }
    }

    pub closed spec fn wf(&self) -> bool {
        &&& self.pos <= self.input@.len()
        &&& self.input@.len() * 255 + 19 <= usize::MAX
        &&& (self.carryover_window is Some) == (self.flags@ & 0b100000 == 0)
        &&& (self.carryover_window matches Some(w) ==> w@.len() <= 65536)
        &&& 65536 <= self.block_maxsize <= 4194304
    }

    /// What decoding the rest of this frame yields, against `dict`:
    /// the plaintext still to come, or the first error.
    pub closed spec fn remaining(&self, dict: Seq<u8>) -> Result<Seq<u8>, DecompressionError> {
        if self.finished {
            Ok(Seq::empty())
        } else {
            spec_blocks(
                self.input@,
                self.pos as int,
                self.spec_hdr(),
                dict,
                self.spec_window(),
                self.hashed@,
            )
        }
    }

    /// Parses the frame header of `input` and returns a reader for
    /// its blocks, or exactly the error `spec_parse_header` gives.
    pub fn new(input: Vec<u8>) -> (r: Result<LZ4FrameReader, DecompressionError>)
        requires
            input@.len() * 255 + 19 <= usize::MAX,
        ensures
            match r {
                Ok(rd) => {
                    &&& rd.wf()
                    &&& !rd.spec_finished()
                    &&& spec_parse_header(input@) matches Ok(hp) && hp.0 == rd.spec_hdr()
                    &&& forall|dict: Seq<u8>| #[trigger]
                        rd.remaining(dict) == frame_decode(input@, dict)
                },
                Err(e) => spec_parse_header(input@) == Err::<
                    (SpecHeader, int),
                    DecompressionError,
                >(e),
            },
    {
        let n = input.len();
        if n < 4 {
            return Err(DecompressionError::InputError);
        }
        let magic = read_u32_le(input.as_slice(), 0);
        if magic != 0x184D2204 {
            return Err(DecompressionError::WrongMagic(magic));
        }
        if n < 5 {
            return Err(DecompressionError::InputError);
        }
        let fb = input[4];
        let flags = match Flags::parse(fb) {
            Ok(f) => f,
            Err(e) => {
                return Err(DecompressionError::HeaderParseError(e));
            },
        };
        if n < 6 {
            return Err(DecompressionError::InputError);
        }
        let bd_byte = input[5];
        let bd = match BlockDescriptor::parse(bd_byte) {
            Ok(b) => b,
            Err(e) => {
                return Err(DecompressionError::HeaderParseError(e));
            },
        };

        let content_size: Option<u64>;
        let dpos: usize;
        if flags.content_size() {
            proof {
                let fbits: u8 = flags@;
                assert(fbits & 0b1000 == fb & 0b1000) by (bit_vector)
                    requires
                        fbits == fb & 0b00111101,
                ;
            }
            if n < 14 {
                return Err(DecompressionError::InputError);
            }
            content_size = Some(read_u64_le(input.as_slice(), 6));
            dpos = 14;
        } else {
            proof {
                let fbits: u8 = flags@;
                assert(fbits & 0b1000 == fb & 0b1000) by (bit_vector)
                    requires
                        fbits == fb & 0b00111101,
                ;
            }
            content_size = None;
            dpos = 6;
        }

        let dictionary_id: Option<u32>;
        let cpos: usize;
        if flags.dictionary_id() {
            proof {
                let fbits: u8 = flags@;
                assert(fbits & 0b1 == fb & 0b1) by (bit_vector)
                    requires
                        fbits == fb & 0b00111101,
                ;
            }
            if n < dpos + 4 {
                return Err(DecompressionError::InputError);
            }
            dictionary_id = Some(read_u32_le(input.as_slice(), dpos));
            cpos = dpos + 4;
        } else {
            proof {
                let fbits: u8 = flags@;
                assert(fbits & 0b1 == fb & 0b1) by (bit_vector)
                    requires
                        fbits == fb & 0b00111101,
                ;
            }
            dictionary_id = None;
            cpos = dpos;
        }

        if n < cpos + 1 {
            return Err(DecompressionError::InputError);
        }
        let header_hash = xxh32(&input.as_slice()[4..cpos]);
        proof {
            assert(input@.subrange(4, cpos as int) == input@.subrange(4, cpos as int));
        }
        let expected: u8 = ((header_hash >> 8) & 0xff) as u8;
        if input[cpos] != expected {
            return Err(DecompressionError::HeaderChecksumFail);
        }

        let block_maxsize = match bd.block_maxsize() {
            Ok(m) => m,
            Err(e) => {
                return Err(DecompressionError::HeaderParseError(e));
            },
        };

        let independent = flags.independent_blocks();
        proof {
            let fbits: u8 = flags@;
            assert(fbits & 0b100000 == fb & 0b100000 && fbits & 0b10000 == fb & 0b10000 && fbits
                & 0b100 == fb & 0b100) by (bit_vector)
                requires
                    fbits == fb & 0b00111101,
            ;
        }
        let carryover_window: Option<Vec<u8>> = if independent {
            None
        } else {
            Some(Vec::new())
        };
        let rd = LZ4FrameReader {
            input,
            pos: cpos + 1,
            flags,
            block_maxsize,
            content_size,
            dictionary_id,
            hashed: Vec::new(),
            carryover_window,
            finished: false,
        };
        proof {
            assert(spec_parse_header(rd.input@) == Ok::<(SpecHeader, int), DecompressionError>(
                (rd.spec_hdr(), rd.pos as int),
            ));
            assert forall|dict: Seq<u8>| #[trigger]
                rd.remaining(dict) == frame_decode(rd.input@, dict) by {
                if !rd.spec_hdr().independent {
                    assert(rd.spec_window() == Some(Seq::<u8>::empty())) by {
                        assert(rd.carryover_window matches Some(w) && w@ =~= Seq::<u8>::empty());
                    }
                } else {
                    assert(rd.spec_window() is None);
                }
                assert(rd.hashed@ =~= Seq::<u8>::empty());
            }
        }
        Ok(rd)
    }

    /// The block maxsize the header named.
    pub fn block_size(&self) -> (r: usize)
        ensures
            r as int == self.spec_hdr().block_maxsize,
    {
        self.block_maxsize
    }

    /// The content size the header announced, if any.
    pub fn frame_size(&self) -> (r: Option<u64>)
        ensures
            match r {
                Some(v) => self.spec_hdr().content_size == Some(v as int),
                None => self.spec_hdr().content_size is None,
            },
    {
        self.content_size
    }

    /// The dictionary id the header announced, if any.
    pub fn dictionary_id(&self) -> (r: Option<u32>)
        ensures
            match r {
                Some(v) => self.spec_hdr().dictionary_id == Some(v as int),
                None => self.spec_hdr().dictionary_id is None,
            },
    {
        self.dictionary_id
    }

    /// Whether the frame's terminating marker has been read.
    pub fn is_finished(&self) -> (r: bool)
        ensures
            r == self.spec_finished(),
    {
        self.finished
    }

    /// Decodes one block into `output`, which must be passed empty.
    /// On success the block's plaintext is what `remaining` promised
    /// before the call, in front of what it promises after; on an
    /// error, `remaining` promised exactly that error.
    #[verifier::rlimit(100)]
    #[verifier::spinoff_prover]
    pub fn decode_block(&mut self, output: &mut Vec<u8>, dictionary: &[u8]) -> (r: Result<
        (),
        DecompressionError,
    >)
        requires
            old(self).wf(),
            old(output)@.len() == 0,
        ensures
            match r {
                Ok(()) => {
                    &&& final(self).wf()
                    &&& old(self).remaining(dictionary@) == (match final(self).remaining(
                        dictionary@,
                    ) {
                        Ok(t) => Ok::<Seq<u8>, DecompressionError>(final(output)@ + t),
                        Err(e) => Err::<Seq<u8>, DecompressionError>(e),
                    })
                    &&& final(self).spec_input() == old(self).spec_input()
                    &&& final(self).spec_hdr() == old(self).spec_hdr()
                    &&& (final(self).spec_finished() || final(self).spec_pos() > old(self).spec_pos())
                    &&& (old(self).spec_finished() ==> final(self).spec_finished()
                        && final(output)@.len() == 0)
                },
                Err(e) => old(self).remaining(dictionary@) == Err::<Seq<u8>, DecompressionError>(
                    e,
                ),
            },
    {
        if self.finished {
            proof {
                assert(output@ + Seq::<u8>::empty() =~= Seq::<u8>::empty());
            }
            return Ok(());
        }
        let ghost s0 = self.input@;
        let ghost p0 = self.pos as int;
        let ghost hdr = self.spec_hdr();
        let ghost win0 = self.spec_window();
        let ghost hashed0 = self.hashed@;

        if self.input.len() - self.pos < 4 {
            return Err(DecompressionError::InputError);
        }
        let bl = read_u32_le(self.input.as_slice(), self.pos);
        self.pos = self.pos + 4;

        if bl == 0 {
            if self.flags.content_checksum() {
                if self.input.len() - self.pos < 4 {
                    return Err(DecompressionError::InputError);
                }
                let cks = read_u32_le(self.input.as_slice(), self.pos);
                self.pos = self.pos + 4;
                let h = xxh32(self.hashed.as_slice());
                if cks != h {
                    return Err(DecompressionError::FrameChecksumFail);
                }
            }
            self.finished = true;
            proof {
                assert(output@ + Seq::<u8>::empty() =~= Seq::<u8>::empty());
            }
            return Ok(());
        }

        let is_compressed = bl & 0x80000000 == 0;
        let masked = bl & 0x7fffffff;
        proof {
            assert((bl & 0x80000000u32 == 0) == (bl < 0x80000000u32)) by (bit_vector);
            assert(bl < 0x80000000u32 ==> bl & 0x7fffffffu32 == bl) by (bit_vector);
            assert(bl >= 0x80000000u32 ==> bl & 0x7fffffffu32 == bl - 0x80000000u32)
                by (bit_vector);
        }
        let block_length = masked as usize;
        if block_length > self.block_maxsize {
            return Err(DecompressionError::BlockSizeOverflow);
        }
        if block_length > self.input.len() - self.pos {
            return Err(DecompressionError::InputError);
        }
        let payload_start = self.pos;
        self.pos = self.pos + block_length;
        let ghost payload = s0.subrange(p0 + 4, p0 + 4 + block_length as int);

        if self.flags.block_checksums() {
            if self.input.len() - self.pos < 4 {
                return Err(DecompressionError::InputError);
            }
            let cks = read_u32_le(self.input.as_slice(), self.pos);
            let h = xxh32(&self.input.as_slice()[payload_start..payload_start + block_length]);
            if cks != h {
                return Err(DecompressionError::BlockChecksumFail);
            }
            self.pos = self.pos + 4;
        }

        // decode against the right lookback prefix
        let r = {
            let inp = self.input.as_slice();
            let payload_slice = &inp[payload_start..payload_start + block_length];
            let pfx: &[u8] = match &self.carryover_window {
                Some(w) => if w.len() == 0 {
                    dictionary
                } else {
                    w.as_slice()
                },
                None => dictionary,
            };
            proof {
                assert(pfx@ == spec_prefix(win0, dictionary@));
                assert(payload_slice@ == payload);
            }
            if is_compressed {
                decompress_raw(payload_slice, pfx, output, self.block_maxsize)
            } else {
                append_slice(output, payload_slice);
                Ok(())
            }
        };
        match r {
            Ok(()) => {},
            Err(e) => {
                return Err(DecompressionError::CodecError(e));
            },
        }
        let ghost chunk = output@;

        if output.len() > self.block_maxsize {
            return Err(DecompressionError::BlockSizeOverflow);
        }

        // slide the carryover window
        let new_window: Option<Vec<u8>> = match &self.carryover_window {
            Some(w0) => Some(slide_window(w0, dictionary, output)),
            None => None,
        };
        self.carryover_window = new_window;

        if self.flags.content_checksum() {
            append_slice(&mut self.hashed, output.as_slice());
        }
        proof {
            assert(self.spec_window() == spec_window_update(win0, dictionary@, chunk));
            assert(self.hashed@ == (if hdr.content_checksum {
                hashed0 + chunk
            } else {
                hashed0
            }));
            assert(spec_blocks(s0, p0, hdr, dictionary@, win0, hashed0) == (match spec_blocks(
                s0,
                self.pos as int,
                hdr,
                dictionary@,
                self.spec_window(),
                self.hashed@,
            ) {
                Ok(t) => Ok::<Seq<u8>, DecompressionError>(chunk + t),
                Err(e) => Err::<Seq<u8>, DecompressionError>(e),
            }));
        }
        Ok(())
    }
}

/// Decompresses a whole frame, with no dictionary: the result is
/// exactly what the `frame_decode` model says of the bytes.
pub fn decompress_frame(input: Vec<u8>) -> (r: Result<Vec<u8>, DecompressionError>)
    requires
        input@.len() * 255 + 19 <= usize::MAX,
    ensures
        match r {
            Ok(v) => frame_decode(input@, Seq::empty()) == Ok::<Seq<u8>, DecompressionError>(v@),
            Err(e) => frame_decode(input@, Seq::empty()) == Err::<Seq<u8>, DecompressionError>(e),
        },
{
    let ghost inp = input@;
    let mut reader = match LZ4FrameReader::new(input) {
        Ok(r) => r,
        Err(e) => {
            return Err(e);
        },
    };
    let mut plaintext: Vec<u8> = Vec::new();
    let empty: Vec<u8> = Vec::new();
    proof {
        assert(empty@ =~= Seq::<u8>::empty());
        assert(reader.remaining(Seq::empty()) == frame_decode(inp, Seq::empty()));
        if frame_decode(inp, Seq::empty()) is Ok {
            let t0 = frame_decode(inp, Seq::empty())->Ok_0;
            assert(plaintext@ + t0 =~= t0);
        }
    }
    #[verifier::loop_isolation(false)]
    loop
        invariant
            reader.wf(),
            empty@ == Seq::<u8>::empty(),
            frame_decode(inp, Seq::empty()) == (match reader.remaining(Seq::empty()) {
                Ok(t) => Ok::<Seq<u8>, DecompressionError>(plaintext@ + t),
                Err(e) => Err::<Seq<u8>, DecompressionError>(e),
            }),
        decreases (if reader.spec_finished() {
            0int
        } else {
            1int
        }), reader.spec_input().len() - reader.spec_pos(),
    {
        if reader.is_finished() {
            proof {
                assert(plaintext@ + Seq::<u8>::empty() =~= plaintext@);
            }
            return Ok(plaintext);
        }
        let mut buf: Vec<u8> = Vec::new();
        match reader.decode_block(&mut buf, empty.as_slice()) {
            Ok(()) => {},
            Err(e) => {
                return Err(e);
            },
        }
        let ghost pre = plaintext@;
        append_slice(&mut plaintext, buf.as_slice());
        proof {
            if reader.remaining(Seq::empty()) is Ok {
                let t = reader.remaining(Seq::empty())->Ok_0;
                assert(pre + (buf@ + t) =~= (pre + buf@) + t);
            }
        }
    }
}

} // verus!
