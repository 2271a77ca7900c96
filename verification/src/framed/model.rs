//! A mathematical model of the LZ4 frame format: what the header
//! bytes mean, and what plaintext a run of length-prefixed blocks
//! stands for.  The frame reader is proved to return exactly what
//! this model says, and the frame writer to emit frames the model
//! maps back to its input.
use vstd::prelude::*;

use crate::framed::decompress::DecompressionError;
use crate::framed::hash::xxh32_of;
use crate::header::ParseError;
use crate::raw::model::block_decode;

verus! {

/// A 32-bit little-endian value at `pos`.
pub open spec fn le32_at(s: Seq<u8>, pos: int) -> int {
    s[pos] as int + 0x100 * (s[pos + 1] as int) + 0x10000 * (s[pos + 2] as int) + 0x1000000 * (s[pos
        + 3] as int)
}

/// A 64-bit little-endian value at `pos`.
pub open spec fn le64_at(s: Seq<u8>, pos: int) -> int {
    le32_at(s, pos) + 0x100000000 * le32_at(s, pos + 4)
}

/// What a parsed frame header says.
pub ghost struct SpecHeader {
    pub independent: bool,
    pub block_checksums: bool,
    pub content_checksum: bool,
    pub content_size: Option<int>,
    pub dictionary_id: Option<int>,
    pub block_maxsize: int,
}

/// Parsing the frame header: magic, flag byte, block descriptor,
/// optional content size and dictionary id, and the checksum byte,
/// which must equal the second byte of the xxHash of everything after
/// the magic.  Returns what the header says and the position after
/// it.
pub open spec fn spec_parse_header(s: Seq<u8>) -> Result<(SpecHeader, int), DecompressionError> {
    if s.len() < 4 {
        Err(DecompressionError::InputError)
    } else if le32_at(s, 0) != 0x184D2204 {
        Err(DecompressionError::WrongMagic(le32_at(s, 0) as u32))
    } else if s.len() < 5 {
        Err(DecompressionError::InputError)
    } else {
        let fb = s[4];
        if fb >> 6 != 1 {
            Err(DecompressionError::HeaderParseError(ParseError::UnsupportedVersion(fb >> 6)))
        } else if fb & 0b10 != 0 {
            Err(DecompressionError::HeaderParseError(ParseError::ReservedFlagBitsSet))
        } else if s.len() < 6 {
            Err(DecompressionError::InputError)
        } else {
            let bd = s[5];
            if bd & 0b10001111 != 0 {
                Err(DecompressionError::HeaderParseError(ParseError::ReservedBdBitsSet))
            } else {
                let has_cs = fb & 0b1000 != 0;
                let dpos: int = if has_cs {
                    14
                } else {
                    6
                };
                if s.len() < dpos {
                    Err(DecompressionError::InputError)
                } else {
                    let has_dict = fb & 0b1 != 0;
                    let cpos: int = dpos + (if has_dict {
                        4int
                    } else {
                        0
                    });
                    if s.len() < cpos + 1 {
                        Err(DecompressionError::InputError)
                    } else if s[cpos] != ((xxh32_of(s.subrange(4, cpos)) >> 8) & 0xff) as u8 {
                        Err(DecompressionError::HeaderChecksumFail)
                    } else {
                        let code = (bd >> 4) & 0b111;
                        if !(4 <= code < 8) {
                            Err(
                                DecompressionError::HeaderParseError(
                                    ParseError::UnimplementedBlocksize(code),
                                ),
                            )
                        } else {
                            Ok(
                                (
                                    SpecHeader {
                                        independent: fb & 0b100000 != 0,
                                        block_checksums: fb & 0b10000 != 0,
                                        content_checksum: fb & 0b100 != 0,
                                        content_size: if has_cs {
                                            Some(le64_at(s, 6))
                                        } else {
                                            None
                                        },
                                        dictionary_id: if has_dict {
                                            Some(le32_at(s, dpos))
                                        } else {
                                            None
                                        },
                                        block_maxsize: crate::header::spec_block_maxsize(
                                            code,
                                        ) as int,
                                    },
                                    cpos + 1,
                                ),
                            )
                        }
                    }
                }
            }
        }
    }
}

/// How many blocks a frame for `n` bytes of plaintext holds, at
/// `bs` bytes per block (none for empty input).
pub open spec fn spec_block_count(n: int, bs: int) -> int {
    if n <= 0 {
        0
    } else {
        (n - 1) / bs + 1
    }
}

/// The lookback prefix a block is decoded against: the window once it
/// holds anything, seeded from the dictionary when still empty; the
/// dictionary itself for independent blocks.
pub open spec fn spec_prefix(window: Option<Seq<u8>>, dict: Seq<u8>) -> Seq<u8> {
    match window {
        Some(w) => if w.len() == 0 {
            dict
        } else {
            w
        },
        None => dict,
    }
}

/// The carryover window after a block produced `chunk`: the trailing
/// 64 KiB of plaintext seen so far.
pub open spec fn spec_window_update(window: Option<Seq<u8>>, dict: Seq<u8>, chunk: Seq<u8>) -> Option<
    Seq<u8>,
> {
    match window {
        Some(w0) => {
            let w = if w0.len() == 0 {
                dict
            } else {
                w0
            };
            Some(
                if chunk.len() < 65536 {
                    let avail = w.len() + chunk.len();
                    (if avail > 65536 {
                        w.subrange(avail - 65536, w.len() as int)
                    } else {
                        w
                    }) + chunk
                } else {
                    chunk.subrange(chunk.len() - 65536, chunk.len() as int)
                },
            )
        },
        None => None,
    }
}

/// Decoding the run of blocks from position `pos`: each block is a
/// 32-bit length (high bit: stored uncompressed), its payload, and an
/// optional checksum; a zero length terminates the run, followed by
/// the content checksum when the header announces one.  Returns the
/// plaintext produced from `pos` on, or the first error.
pub open spec fn spec_blocks(
    s: Seq<u8>,
    pos: int,
    hdr: SpecHeader,
    dict: Seq<u8>,
    window: Option<Seq<u8>>,
    hashed: Seq<u8>,
) -> Result<Seq<u8>, DecompressionError>
    decreases s.len() - pos,
{
    if pos < 0 || pos + 4 > s.len() {
        Err(DecompressionError::InputError)
    } else {
        let bl = le32_at(s, pos);
        if bl == 0 {
            if hdr.content_checksum {
                if pos + 8 > s.len() {
                    Err(DecompressionError::InputError)
                } else if le32_at(s, pos + 4) != xxh32_of(hashed) as int {
                    Err(DecompressionError::FrameChecksumFail)
                } else {
                    Ok(Seq::empty())
                }
            } else {
                Ok(Seq::empty())
            }
        } else {
            let is_compressed = bl < 0x80000000;
            let len = if is_compressed {
                bl
            } else {
                bl - 0x80000000
            };
            if len > hdr.block_maxsize {
                Err(DecompressionError::BlockSizeOverflow)
            } else if len > s.len() - (pos + 4) {
                Err(DecompressionError::InputError)
            } else {
                let payload = s.subrange(pos + 4, pos + 4 + len);
                let cpos = pos + 4 + len;
                if hdr.block_checksums && cpos + 4 > s.len() {
                    Err(DecompressionError::InputError)
                } else if hdr.block_checksums && le32_at(s, cpos) != xxh32_of(payload) as int {
                    Err(DecompressionError::BlockChecksumFail)
                } else {
                    let npos = cpos + (if hdr.block_checksums {
                        4int
                    } else {
                        0
                    });
                    let pfx = spec_prefix(window, dict);
                    let chunk_r = if is_compressed {
                        block_decode(payload, 0, pfx, Seq::empty(), hdr.block_maxsize)
                    } else {
                        Ok(payload)
                    };
                    match chunk_r {
                        Err(e) => Err(DecompressionError::CodecError(e)),
                        Ok(chunk) => {
                            if chunk.len() > hdr.block_maxsize {
                                Err(DecompressionError::BlockSizeOverflow)
                            } else {
                                let w2 = spec_window_update(window, dict, chunk);
                                let h2 = if hdr.content_checksum {
                                    hashed + chunk
                                } else {
                                    hashed
                                };
                                match spec_blocks(s, npos, hdr, dict, w2, h2) {
                                    Ok(t) => Ok(chunk + t),
                                    Err(e) => Err(e),
                                }
                            }
                        },
                    }
                }
            }
        }
    }
}

/// The four little-endian bytes of a 32-bit value.
pub open spec fn le32_bytes(v: u32) -> Seq<u8> {
    seq![
        (v & 0xff) as u8,
        ((v >> 8) & 0xff) as u8,
        ((v >> 16) & 0xff) as u8,
        ((v >> 24) & 0xff) as u8,
    ]
}

/// The eight little-endian bytes of a 64-bit value.
pub open spec fn le64_bytes(v: u64) -> Seq<u8> {
    le32_bytes((v & 0xffffffff) as u32) + le32_bytes((v >> 32) as u32)
}

/// Written little-endian bytes read back as the value.
pub proof fn lemma_le32_at_bytes(s: Seq<u8>, pos: int, v: u32)
    requires
        0 <= pos,
        pos + 4 <= s.len(),
        s.subrange(pos, pos + 4) == le32_bytes(v),
    ensures
        le32_at(s, pos) == v as int,
{
    assert(s[pos] == s.subrange(pos, pos + 4)[0]);
    assert(s[pos + 1] == s.subrange(pos, pos + 4)[1]);
    assert(s[pos + 2] == s.subrange(pos, pos + 4)[2]);
    assert(s[pos + 3] == s.subrange(pos, pos + 4)[3]);
    assert(v & 0xff < 256 && (v >> 8) & 0xff < 256 && (v >> 16) & 0xff < 256 && (v >> 24) & 0xff
        < 256) by (bit_vector);
    assert((v & 0xff) + 0x100 * ((v >> 8) & 0xff) + 0x10000 * ((v >> 16) & 0xff) + 0x1000000 * ((v
        >> 24) & 0xff) == v) by (bit_vector);
}

/// Written little-endian bytes read back as the value.
pub proof fn lemma_le64_at_bytes(s: Seq<u8>, pos: int, v: u64)
    requires
        0 <= pos,
        pos + 8 <= s.len(),
        s.subrange(pos, pos + 8) == le64_bytes(v),
    ensures
        le64_at(s, pos) == v as int,
{
    assert(v & 0xffffffff < 0x100000000 && v >> 32 < 0x100000000) by (bit_vector);
    let lo = (v & 0xffffffff) as u32;
    let hi = (v >> 32) as u32;
    assert(le64_bytes(v) == le32_bytes(lo) + le32_bytes(hi));
    assert(s.subrange(pos, pos + 4) =~= le32_bytes(lo)) by {
        assert forall|i: int| 0 <= i < 4 implies s.subrange(pos, pos + 4)[i] == le32_bytes(lo)[i]
            by {
            assert(s.subrange(pos, pos + 8)[i] == le64_bytes(v)[i]);
        }
    }
    assert(s.subrange(pos + 4, pos + 8) =~= le32_bytes(hi)) by {
        assert forall|i: int| 0 <= i < 4 implies s.subrange(pos + 4, pos + 8)[i] == le32_bytes(
            hi,
        )[i] by {
            assert(s.subrange(pos, pos + 8)[4 + i] == le64_bytes(v)[4 + i]);
        }
    }
    lemma_le32_at_bytes(s, pos, lo);
    lemma_le32_at_bytes(s, pos + 4, hi);
    assert((v & 0xffffffff) + 0x100000000 * (v >> 32) == v) by (bit_vector);
}

/// Parsing a frame header looks only at the header's own bytes: any
/// longer input with the same front parses the same.
pub proof fn lemma_parse_header_extend(s: Seq<u8>, h: Seq<u8>)
    requires
        spec_parse_header(h) matches Ok(hp) && hp.1 == h.len(),
        h.len() <= s.len(),
        s.subrange(0, h.len() as int) == h,
    ensures
        spec_parse_header(s) == spec_parse_header(h),
{
    assert forall|i: int| 0 <= i < h.len() implies s[i] == h[i] by {
        assert(s.subrange(0, h.len() as int)[i] == s[i]);
    }
    let fb = h[4];
    let has_cs = fb & 0b1000 != 0;
    let dpos: int = if has_cs {
        14
    } else {
        6
    };
    let has_dict = fb & 0b1 != 0;
    let cpos: int = dpos + (if has_dict {
        4int
    } else {
        0
    });
    assert(h.len() == cpos + 1);
    assert(s.subrange(4, cpos) =~= h.subrange(4, cpos));
    if has_cs {
        assert(le64_at(s, 6) == le64_at(h, 6));
    }
    if has_dict {
        assert(le32_at(s, dpos) == le32_at(h, dpos));
    }
}

/// One emitted block steps the block decoder: its plaintext lands in
/// front, and decoding continues after it with the window slid and
/// the plaintext hashed.
#[verifier::rlimit(100)]
#[verifier::spinoff_prover]
pub proof fn lemma_spec_blocks_step(
    s: Seq<u8>,
    pos: int,
    hdr: SpecHeader,
    dict: Seq<u8>,
    window: Option<Seq<u8>>,
    hashed: Seq<u8>,
    bl: u32,
    payload: Seq<u8>,
    chunk: Seq<u8>,
)
    requires
        0 <= pos,
        bl != 0,
        ({
            let g = le32_bytes(bl) + payload + (if hdr.block_checksums {
                le32_bytes(xxh32_of(payload))
            } else {
                Seq::empty()
            });
            &&& pos + g.len() <= s.len()
            &&& s.subrange(pos, pos + g.len() as int) == g
        }),
        payload.len() == (if bl < 0x80000000 {
            bl as int
        } else {
            bl - 0x80000000
        }),
        payload.len() <= hdr.block_maxsize,
        bl < 0x80000000 ==> block_decode(
            payload,
            0,
            spec_prefix(window, dict),
            Seq::empty(),
            hdr.block_maxsize,
        ) == Ok::<Seq<u8>, crate::raw::decompress::DecodeError>(chunk),
        bl >= 0x80000000 ==> chunk == payload,
        chunk.len() <= hdr.block_maxsize,
    ensures
        ({
            let g = le32_bytes(bl) + payload + (if hdr.block_checksums {
                le32_bytes(xxh32_of(payload))
            } else {
                Seq::empty()
            });
            spec_blocks(s, pos, hdr, dict, window, hashed) == (match spec_blocks(
                s,
                pos + g.len() as int,
                hdr,
                dict,
                spec_window_update(window, dict, chunk),
                if hdr.content_checksum {
                    hashed + chunk
                } else {
                    hashed
                },
            ) {
                Ok(t) => Ok::<Seq<u8>, DecompressionError>(chunk + t),
                Err(e) => Err::<Seq<u8>, DecompressionError>(e),
            })
        }),
{
    let cks = if hdr.block_checksums {
        le32_bytes(xxh32_of(payload))
    } else {
        Seq::empty()
    };
    let g = le32_bytes(bl) + payload + cks;
    assert(s.subrange(pos, pos + 4) =~= le32_bytes(bl)) by {
        assert forall|i: int| 0 <= i < 4 implies s.subrange(pos, pos + 4)[i] == le32_bytes(bl)[i]
            by {
            assert(s.subrange(pos, pos + g.len() as int)[i] == g[i]);
        }
    }
    lemma_le32_at_bytes(s, pos, bl);
    assert(le32_at(s, pos) == bl as int);
    let len: int = if bl < 0x80000000 {
        bl as int
    } else {
        bl - 0x80000000
    };
    assert(s.subrange(pos + 4, pos + 4 + len) =~= payload) by {
        assert forall|i: int| 0 <= i < len implies s.subrange(pos + 4, pos + 4 + len)[i]
            == payload[i] by {
            assert(s.subrange(pos, pos + g.len() as int)[4 + i] == g[4 + i]);
        }
    }
    let cpos = pos + 4 + len;
    if hdr.block_checksums {
        assert(s.subrange(cpos, cpos + 4) =~= le32_bytes(xxh32_of(payload))) by {
            assert forall|i: int| 0 <= i < 4 implies s.subrange(cpos, cpos + 4)[i] == cks[i] by {
                assert(s.subrange(pos, pos + g.len() as int)[4 + len + i] == g[4 + len + i]);
            }
        }
        lemma_le32_at_bytes(s, cpos, xxh32_of(payload));
    }
}

/// A terminating zero length, with a matching content checksum where
/// one is expected, ends the block run with nothing more produced.
pub proof fn lemma_spec_blocks_terminal(
    s: Seq<u8>,
    pos: int,
    hdr: SpecHeader,
    dict: Seq<u8>,
    window: Option<Seq<u8>>,
    hashed: Seq<u8>,
)
    requires
        0 <= pos,
        pos + 4 <= s.len(),
        s.subrange(pos, pos + 4) == le32_bytes(0u32),
        hdr.content_checksum ==> pos + 8 <= s.len() && s.subrange(pos + 4, pos + 8) == le32_bytes(
            xxh32_of(hashed),
        ),
    ensures
        spec_blocks(s, pos, hdr, dict, window, hashed) == Ok::<Seq<u8>, DecompressionError>(
            Seq::empty(),
        ),
{
    lemma_le32_at_bytes(s, pos, 0);
    if hdr.content_checksum {
        lemma_le32_at_bytes(s, pos + 4, xxh32_of(hashed));
    }
}

/// The decoder rejects a tampered header checksum: change the
/// checksum byte of any frame whose header parses, leave every other
/// byte alone, and parsing fails with exactly the checksum error —
/// never by misreading the header.
pub proof fn lemma_header_checksum_tamper(s: Seq<u8>, t: Seq<u8>)
    requires
        spec_parse_header(s) is Ok,
        t.len() == s.len(),
        ({
            let cpos = spec_parse_header(s)->Ok_0.1 - 1;
            &&& t[cpos] != s[cpos]
            &&& forall|i: int| 0 <= i < s.len() && i != cpos ==> t[i] == s[i]
        }),
    ensures
        spec_parse_header(t) == Err::<(SpecHeader, int), DecompressionError>(
            DecompressionError::HeaderChecksumFail,
        ),
{
    let cpos = spec_parse_header(s)->Ok_0.1 - 1;
    assert(le32_at(t, 0) == le32_at(s, 0));
    assert(t[4] == s[4]);
    assert(t[5] == s[5]);
    assert(t.subrange(4, cpos) =~= s.subrange(4, cpos));
}

/// Steps the writer's running invariant over one emitted block: if
/// decoding every extension of `f` from the end of the header lands
/// at its end with `prod` produced, the same holds of `f` extended by
/// the block, with its plaintext appended, the window slid and the
/// plaintext hashed.
#[verifier::rlimit(100)]
pub proof fn lemma_spec_blocks_step_chain(
    f: Seq<u8>,
    g: Seq<u8>,
    hlen: int,
    hdr: SpecHeader,
    dict: Seq<u8>,
    win0: Option<Seq<u8>>,
    wm: Option<Seq<u8>>,
    hm: Seq<u8>,
    prod: Seq<u8>,
    bl: u32,
    payload: Seq<u8>,
    chunk: Seq<u8>,
)
    requires
        0 <= hlen <= f.len(),
        bl != 0,
        g == le32_bytes(bl) + payload + (if hdr.block_checksums {
            le32_bytes(xxh32_of(payload))
        } else {
            Seq::<u8>::empty()
        }),
        payload.len() == (if bl < 0x80000000 {
            bl as int
        } else {
            bl - 0x80000000
        }),
        payload.len() <= hdr.block_maxsize,
        bl < 0x80000000 ==> block_decode(
            payload,
            0,
            spec_prefix(wm, dict),
            Seq::empty(),
            hdr.block_maxsize,
        ) == Ok::<Seq<u8>, crate::raw::decompress::DecodeError>(chunk),
        bl >= 0x80000000 ==> chunk == payload,
        chunk.len() <= hdr.block_maxsize,
        forall|rest: Seq<u8>|
            spec_blocks(#[trigger] (f + rest), hlen, hdr, dict, win0, Seq::empty()) == (
            match spec_blocks(f + rest, f.len() as int, hdr, dict, wm, hm) {
                Ok(t) => Ok::<Seq<u8>, DecompressionError>(prod + t),
                Err(e) => Err::<Seq<u8>, DecompressionError>(e),
            }),
    ensures
        forall|rest: Seq<u8>|
            spec_blocks(#[trigger] ((f + g) + rest), hlen, hdr, dict, win0, Seq::empty()) == (
            match spec_blocks(
                (f + g) + rest,
                (f + g).len() as int,
                hdr,
                dict,
                spec_window_update(wm, dict, chunk),
                if hdr.content_checksum {
                    hm + chunk
                } else {
                    hm
                },
            ) {
                Ok(t) => Ok::<Seq<u8>, DecompressionError>((prod + chunk) + t),
                Err(e) => Err::<Seq<u8>, DecompressionError>(e),
            }),
{
    let wm2 = spec_window_update(wm, dict, chunk);
    let hm2 = if hdr.content_checksum {
        hm + chunk
    } else {
        hm
    };
    assert forall|rest: Seq<u8>|
        spec_blocks(#[trigger] ((f + g) + rest), hlen, hdr, dict, win0, Seq::empty()) == (
        match spec_blocks((f + g) + rest, (f + g).len() as int, hdr, dict, wm2, hm2) {
            Ok(t) => Ok::<Seq<u8>, DecompressionError>((prod + chunk) + t),
            Err(e) => Err::<Seq<u8>, DecompressionError>(e),
        }) by {
        assert(f + (g + rest) =~= (f + g) + rest);
        assert(spec_blocks(f + (g + rest), hlen, hdr, dict, win0, Seq::empty()) == (
        match spec_blocks(f + (g + rest), f.len() as int, hdr, dict, wm, hm) {
            Ok(t) => Ok::<Seq<u8>, DecompressionError>(prod + t),
            Err(e) => Err::<Seq<u8>, DecompressionError>(e),
        }));
        assert(((f + g) + rest).subrange(f.len() as int, f.len() + g.len() as int) =~= g);
        lemma_spec_blocks_step((f + g) + rest, f.len() as int, hdr, dict, wm, hm, bl, payload, chunk);
        let inner = spec_blocks((f + g) + rest, (f + g).len() as int, hdr, dict, wm2, hm2);
        if inner is Ok {
            let t = inner->Ok_0;
            assert(prod + (chunk + t) =~= (prod + chunk) + t);
        }
    }
}

/// Ends the writer's running invariant: the terminating zero length,
/// with the content checksum where one is expected, makes the whole
/// run of emitted blocks decode to `prod`.
pub proof fn lemma_spec_blocks_terminal_chain(
    f: Seq<u8>,
    hlen: int,
    hdr: SpecHeader,
    dict: Seq<u8>,
    win0: Option<Seq<u8>>,
    wm: Option<Seq<u8>>,
    hm: Seq<u8>,
    prod: Seq<u8>,
)
    requires
        0 <= hlen <= f.len(),
        forall|rest: Seq<u8>|
            spec_blocks(#[trigger] (f + rest), hlen, hdr, dict, win0, Seq::empty()) == (
            match spec_blocks(f + rest, f.len() as int, hdr, dict, wm, hm) {
                Ok(t) => Ok::<Seq<u8>, DecompressionError>(prod + t),
                Err(e) => Err::<Seq<u8>, DecompressionError>(e),
            }),
    ensures
        ({
            let t = le32_bytes(0u32) + (if hdr.content_checksum {
                le32_bytes(xxh32_of(hm))
            } else {
                Seq::empty()
            });
            spec_blocks(f + t, hlen, hdr, dict, win0, Seq::empty()) == Ok::<
                Seq<u8>,
                DecompressionError,
            >(prod)
        }),
{
    let t = le32_bytes(0u32) + (if hdr.content_checksum {
        le32_bytes(xxh32_of(hm))
    } else {
        Seq::empty()
    });
    assert(spec_blocks(f + t, hlen, hdr, dict, win0, Seq::empty()) == (match spec_blocks(
        f + t,
        f.len() as int,
        hdr,
        dict,
        wm,
        hm,
    ) {
        Ok(tt) => Ok::<Seq<u8>, DecompressionError>(prod + tt),
        Err(e) => Err::<Seq<u8>, DecompressionError>(e),
    }));
    assert((f + t).subrange(f.len() as int, f.len() + 4int) =~= le32_bytes(0u32));
    if hdr.content_checksum {
        assert((f + t).subrange(f.len() + 4int, f.len() + 8int) =~= le32_bytes(xxh32_of(hm)));
    }
    lemma_spec_blocks_terminal(f + t, f.len() as int, hdr, dict, wm, hm);
    assert(prod + Seq::<u8>::empty() =~= prod);
}

/// Sliding the writer's buffer keeps it equal to the model's window:
/// after a block, the window is the trailing 64 KiB of the old prefix
/// plus the chunk, which is how the writer trims its buffer.
pub proof fn lemma_window_slide(
    wm_old: Option<Seq<u8>>,
    dict: Seq<u8>,
    chunk: Seq<u8>,
    nb: Seq<u8>,
)
    requires
        wm_old is Some,
        chunk.len() >= 1,
        ({
            let full = spec_prefix(wm_old, dict) + chunk;
            nb == (if full.len() > 65536 {
                full.subrange(full.len() - 65536, full.len() as int)
            } else {
                full
            })
        }),
    ensures
        spec_prefix(spec_window_update(wm_old, dict, chunk), dict) == nb,
        spec_window_update(wm_old, dict, chunk) is Some,
{
    let w1 = spec_prefix(wm_old, dict);
    let full = w1 + chunk;
    let w2 = spec_window_update(wm_old, dict, chunk)->0;
    if chunk.len() < 65536 {
        let avail = w1.len() + chunk.len();
        if avail > 65536 {
            assert(w2 =~= nb);
        } else {
            assert(w2 =~= nb);
        }
    } else {
        assert(w2 =~= nb);
    }
    assert(w2.len() >= 1);
}

/// Decoding a whole frame against a dictionary: the header, then the
/// blocks, starting with an empty window (dependent frames) or none
/// (independent frames).
pub open spec fn frame_decode(s: Seq<u8>, dict: Seq<u8>) -> Result<Seq<u8>, DecompressionError> {
    match spec_parse_header(s) {
        Err(e) => Err(e),
        Ok((hdr, hpos)) => spec_blocks(
            s,
            hpos,
            hdr,
            dict,
            if hdr.independent {
                None
            } else {
                Some(Seq::empty())
            },
            Seq::empty(),
        ),
    }
}

} // verus!
