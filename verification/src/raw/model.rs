//! A mathematical model of the raw LZ4 block format.
//!
//! `block_decode` says, over sequences, what decoding a block means:
//! which byte sequences are well-formed, what plaintext they stand
//! for, and which error a malformed block produces.  The executable
//! decoder is proved to return exactly what this model says, and the
//! executable encoder is proved to emit blocks that this model maps
//! back to the encoder's input.
use vstd::prelude::*;

use crate::raw::decompress::DecodeError;

verus! {

/// The larger of two integers.
pub open spec fn max_int(a: int, b: int) -> int {
    if a >= b {
        a
    } else {
        b
    }
}

/// Reading an LSIC varint tail at position `pos`: bytes are summed,
/// 0xff means "continue", anything else terminates.  Returns the sum
/// and the number of bytes consumed, or `None` when the input ends
/// before a terminating byte.
pub open spec fn lsic_read(s: Seq<u8>, pos: int) -> Option<(int, nat)>
    decreases s.len() - pos,
{
    if pos < 0 || pos >= s.len() {
        None
    } else if s[pos] == 0xff {
        match lsic_read(s, pos + 1) {
            Some(vc) => Some((vc.0 + 0xff, (vc.1 + 1) as nat)),
            None => None,
        }
    } else {
        Some((s[pos] as int, 1nat))
    }
}

pub proof fn lemma_lsic_read_bounds(s: Seq<u8>, pos: int)
    ensures
        lsic_read(s, pos) matches Some(vc) ==> {
            &&& 1 <= vc.1
            &&& pos >= 0
            &&& pos + vc.1 <= s.len()
            &&& 0 <= vc.0 <= 255 * vc.1
        },
    decreases s.len() - pos,
{
    if 0 <= pos < s.len() && s[pos] == 0xff {
        lemma_lsic_read_bounds(s, pos + 1);
    }
}

/// The bytes a match copy appends: each next byte is read `offset`
/// positions back, where positions before the output fall into the
/// tail of `prefix`.  Because the output grows while copying, a match
/// may overlap its own source.
pub open spec fn copy_match(prefix: Seq<u8>, out: Seq<u8>, offset: int, len: int) -> Seq<u8>
    decreases len,
{
    if len <= 0 {
        out
    } else {
        let src = out.len() - offset;
        let b = if src >= 0 {
            out[src]
        } else {
            prefix[prefix.len() + src]
        };
        copy_match(prefix, out.push(b), offset, len - 1)
    }
}

pub proof fn lemma_copy_match_len(prefix: Seq<u8>, out: Seq<u8>, offset: int, len: int)
    requires
        len >= 0,
    ensures
        copy_match(prefix, out, offset, len).len() == out.len() + len,
    decreases len,
{
    if len > 0 {
        let src = out.len() - offset;
        let b = if src >= 0 {
            out[src]
        } else {
            prefix[prefix.len() + src]
        };
        lemma_copy_match_len(prefix, out.push(b), offset, len - 1);
    }
}

/// Peeling one byte off the back of a match copy: the copy of
/// `len + 1` bytes is the copy of `len` bytes followed by the byte
/// `offset` positions from its end.
pub proof fn lemma_copy_match_snoc(prefix: Seq<u8>, out: Seq<u8>, offset: int, len: int)
    requires
        len >= 0,
    ensures
        copy_match(prefix, out, offset, len + 1) == {
            let cur = copy_match(prefix, out, offset, len);
            let src = cur.len() - offset;
            cur.push(
                if src >= 0 {
                    cur[src]
                } else {
                    prefix[prefix.len() + src]
                },
            )
        },
    decreases len,
{
    lemma_copy_match_len(prefix, out, offset, len);
    if len == 0 {
        let src = out.len() - offset;
        let b = if src >= 0 {
            out[src]
        } else {
            prefix[prefix.len() + src]
        };
        assert(copy_match(prefix, out.push(b), offset, 0) == out.push(b));
    } else {
        let src = out.len() - offset;
        let b = if src >= 0 {
            out[src]
        } else {
            prefix[prefix.len() + src]
        };
        lemma_copy_match_snoc(prefix, out.push(b), offset, len - 1);
        lemma_copy_match_len(prefix, out.push(b), offset, len - 1);
        assert(copy_match(prefix, out, offset, len + 1) == copy_match(
            prefix,
            out.push(b),
            offset,
            len,
        ));
        let cur = copy_match(prefix, out.push(b), offset, len - 1);
        assert(cur == copy_match(prefix, out, offset, len));
    }
}

/// Bytes already in the output are unchanged by a match copy.
pub proof fn lemma_copy_match_prefix(prefix: Seq<u8>, out: Seq<u8>, offset: int, len: int)
    requires
        len >= 0,
    ensures
        out.is_prefix_of(copy_match(prefix, out, offset, len)),
    decreases len,
{
    if len == 0 {
        assert(out =~= copy_match(prefix, out, offset, 0).subrange(0, out.len() as int));
    } else {
        let src = out.len() - offset;
        let b = if src >= 0 {
            out[src]
        } else {
            prefix[prefix.len() + src]
        };
        lemma_copy_match_prefix(prefix, out.push(b), offset, len - 1);
        lemma_copy_match_len(prefix, out.push(b), offset, len - 1);
        let full = copy_match(prefix, out, offset, len);
        assert(out.push(b).is_prefix_of(full));
        assert(out =~= full.subrange(0, out.len() as int)) by {
            assert(out.push(b) =~= full.subrange(0, out.len() + 1int));
        }
    }
}

/// The length a token nibble announces, starting at `pos`: the nibble
/// itself, or 15 plus an LSIC tail.  Returns the length and the
/// position after it, or `None` when the input ends inside the tail.
pub open spec fn nib_len(input: Seq<u8>, pos: int, nibble: u8) -> Option<(int, int)> {
    if nibble == 15 {
        match lsic_read(input, pos) {
            Some(vc) => Some((15 + vc.0, pos + vc.1)),
            None => None,
        }
    } else {
        Some((nibble as int, pos))
    }
}

/// Decoding a raw block from position `pos`.  `prefix` is lookback
/// data that logically precedes the output, `out` the output built so
/// far, `limit` the memory limit that match copies may not push the
/// output past.  Returns the final output, or the error the decoder
/// reports.
pub open spec fn block_decode(
    input: Seq<u8>,
    pos: int,
    prefix: Seq<u8>,
    out: Seq<u8>,
    limit: int,
) -> Result<Seq<u8>, DecodeError>
    decreases input.len() - pos,
    via block_decode_decreases
{
    if pos < 0 || pos >= input.len() {
        Ok(out)
    } else {
        let token = input[pos];
        match nib_len(input, pos + 1, token >> 4) {
            None => Err(DecodeError::UnexpectedEnd),
            Some((litlen, lpos)) => {
                if lpos + litlen > input.len() {
                    Err(DecodeError::UnexpectedEnd)
                } else {
                    let out1 = out + input.subrange(lpos, lpos + litlen);
                    let mpos = lpos + litlen;
                    if mpos + 2 > input.len() {
                        if mpos >= input.len() {
                            Ok(out1)
                        } else {
                            // a single leftover byte is read again as a token
                            block_decode(input, mpos, prefix, out1, limit)
                        }
                    } else {
                        let offset = input[mpos] as int + 256 * (input[mpos + 1] as int);
                        match nib_len(input, mpos + 2, token & 0xf) {
                            None => Err(DecodeError::UnexpectedEnd),
                            Some((extra, mlpos)) => {
                                let mlen = 4 + extra;
                                if out1.len() + mlen > limit {
                                    Err(DecodeError::MemoryLimitExceeded)
                                } else if offset == 0 {
                                    Err(DecodeError::ZeroDeduplicationOffset)
                                } else if offset > out1.len() + prefix.len() {
                                    Err(DecodeError::InvalidDeduplicationOffset)
                                } else {
                                    block_decode(
                                        input,
                                        mlpos,
                                        prefix,
                                        copy_match(prefix, out1, offset, mlen),
                                        limit,
                                    )
                                }
                            },
                        }
                    }
                }
            },
        }
    }
}

/// The LSIC tail for a remainder: full 0xff bytes while 255 or more
/// is left, then one terminating byte.
pub open spec fn lsic_ff(rem: int) -> Seq<u8>
    decreases rem,
{
    if rem >= 255 {
        seq![0xffu8] + lsic_ff(rem - 255)
    } else {
        seq![rem as u8]
    }
}

/// The byte encoding of a length value beyond its token nibble: empty
/// below 15, else the LSIC tail of the excess.
pub open spec fn lsic_tail_spec(v: int) -> Seq<u8> {
    if v < 15 {
        Seq::empty()
    } else {
        lsic_ff(v - 15)
    }
}

/// The token packing a literal length (high nibble) and a match
/// length beyond four (low nibble), each saturating at 15.
pub open spec fn token_of(litlen: int, extra: int) -> u8 {
    (16 * (if litlen < 15 {
        litlen
    } else {
        15
    }) + (if extra < 15 {
        extra
    } else {
        15
    })) as u8
}

/// The byte encoding of one full sequence: token, extended literal
/// length, literals, little-endian offset, extended match length.
pub open spec fn group_encode(lit: Seq<u8>, offset: u16, extra: int) -> Seq<u8> {
    seq![token_of(lit.len() as int, extra)] + lsic_tail_spec(lit.len() as int) + lit + seq![
        (offset % 256) as u8,
        (offset / 256) as u8,
    ] + lsic_tail_spec(extra)
}

/// The byte encoding of a final, literal-only sequence.
pub open spec fn tail_encode(lit: Seq<u8>) -> Seq<u8> {
    seq![token_of(lit.len() as int, 0)] + lsic_tail_spec(lit.len() as int) + lit
}

/// An LSIC tail is never longer than the value it encodes, plus one.
pub proof fn lemma_lsic_ff_len(rem: int)
    requires
        rem >= 0,
    ensures
        lsic_ff(rem).len() <= rem + 1,
    decreases rem,
{
    if rem >= 255 {
        lemma_lsic_ff_len(rem - 255);
    }
}

/// One emitted sequence takes at most two bytes per literal plus the
/// extra match length plus a constant.
pub proof fn lemma_group_encode_len(lit: Seq<u8>, offset: u16, extra: int)
    requires
        extra >= 0,
    ensures
        group_encode(lit, offset, extra).len() <= 2 * lit.len() + extra + 3,
{
    if lit.len() >= 15 {
        lemma_lsic_ff_len(lit.len() - 15);
    }
    if extra >= 15 {
        lemma_lsic_ff_len(extra - 15);
    }
}

/// A final, literal-only sequence takes at most two bytes per literal
/// plus one.
pub proof fn lemma_tail_encode_len(lit: Seq<u8>)
    ensures
        tail_encode(lit).len() <= 2 * lit.len() + 1,
{
    if lit.len() >= 15 {
        lemma_lsic_ff_len(lit.len() - 15);
    }
}

/// An emitted LSIC tail reads back as the value it was made from.
pub proof fn lemma_lsic_ff_read(s: Seq<u8>, pos: int, rem: int)
    requires
        0 <= rem,
        0 <= pos,
        pos + lsic_ff(rem).len() <= s.len(),
        s.subrange(pos, pos + lsic_ff(rem).len() as int) == lsic_ff(rem),
    ensures
        lsic_read(s, pos) == Some((rem, lsic_ff(rem).len() as nat)),
    decreases rem,
{
    let f = lsic_ff(rem);
    assert(s[pos] == f[0]);
    if rem >= 255 {
        assert(f[0] == 0xff);
        let f1 = lsic_ff(rem - 255);
        assert(s.subrange(pos + 1, pos + 1 + f1.len() as int) =~= f.subrange(1, f.len() as int));
        assert(f.subrange(1, f.len() as int) =~= f1);
        lemma_lsic_ff_read(s, pos + 1, rem - 255);
    } else {
        assert(f[0] == rem as u8);
        assert(rem as u8 != 0xff);
    }
}

/// A nibble together with its emitted tail reads back as the length
/// value it was made from.
pub proof fn lemma_nib_read(s: Seq<u8>, pos: int, value: int, nib: u8)
    requires
        0 <= value,
        nib as int == (if value < 15 {
            value
        } else {
            15
        }),
        0 <= pos,
        pos + lsic_tail_spec(value).len() <= s.len(),
        s.subrange(pos, pos + lsic_tail_spec(value).len() as int) == lsic_tail_spec(value),
    ensures
        nib_len(s, pos, nib) == Some((value, pos + lsic_tail_spec(value).len())),
{
    if value < 15 {
    } else {
        lemma_lsic_ff_read(s, pos, value - 15);
    }
}

/// The nibbles of a packed token.
pub proof fn lemma_token_nibbles(a: u8, b: u8)
    requires
        a < 16,
        b < 16,
    ensures
        (((16 * a + b) as u8) >> 4) == a,
        (((16 * a + b) as u8) & 0xf) == b,
{
    assert((((16 * a + b) as u8) >> 4) == a && (((16 * a + b) as u8) & 0xf) == b) by (bit_vector)
        requires
            a < 16,
            b < 16,
    ;
}

/// A match copy reproduces the bytes of the stream it was found in:
/// when prefix and output together equal the stream up to the match,
/// and the stream repeats itself `offset` back over the match range,
/// copying extends them to the stream past the match.
pub proof fn lemma_copy_match_matches(
    inp: Seq<u8>,
    s: int,
    offset: int,
    len: int,
    prefix: Seq<u8>,
    out: Seq<u8>,
)
    requires
        0 <= len,
        1 <= offset <= s,
        s + len <= inp.len(),
        prefix + out == inp.subrange(0, s),
        forall|j: int| s <= j < s + len ==> #[trigger] inp[j] == inp[j - offset],
    ensures
        prefix + copy_match(prefix, out, offset, len) == inp.subrange(0, s + len),
    decreases len,
{
    if len == 0 {
    } else {
        let src = out.len() - offset;
        let b = if src >= 0 {
            out[src]
        } else {
            prefix[prefix.len() + src]
        };
        assert((prefix + out).len() == prefix.len() + out.len());
        assert(inp.subrange(0, s).len() == s);
        assert(prefix.len() + out.len() == s);
        assert(b == inp[s - offset]) by {
            if src >= 0 {
                assert(out[src] == (prefix + out)[prefix.len() + src]);
            } else {
                assert(prefix[prefix.len() + src] == (prefix + out)[prefix.len() + src]);
            }
        }
        assert(inp[s] == inp[s - offset]);
        assert(b == inp[s]);
        assert(prefix + out.push(b) =~= inp.subrange(0, s + 1));
        lemma_copy_match_matches(inp, s + 1, offset, len - 1, prefix, out.push(b));
        assert(copy_match(prefix, out, offset, len) == copy_match(
            prefix,
            out.push(b),
            offset,
            len - 1,
        ));
    }
}

/// Decoding steps over one emitted sequence: from its start, the
/// decoder appends the literals and the match copy and continues
/// right after it.
pub proof fn lemma_decode_group(
    c: Seq<u8>,
    pos: int,
    prefix: Seq<u8>,
    out: Seq<u8>,
    limit: int,
    lit: Seq<u8>,
    offset: u16,
    extra: int,
)
    requires
        extra >= 0,
        0 <= pos,
        pos + group_encode(lit, offset, extra).len() <= c.len(),
        c.subrange(pos, pos + group_encode(lit, offset, extra).len() as int) == group_encode(
            lit,
            offset,
            extra,
        ),
        1 <= offset,
        offset <= out.len() + lit.len() + prefix.len(),
        out.len() + lit.len() + 4 + extra <= limit,
    ensures
        block_decode(c, pos, prefix, out, limit) == block_decode(
            c,
            pos + group_encode(lit, offset, extra).len() as int,
            prefix,
            copy_match(prefix, out + lit, offset as int, 4 + extra),
            limit,
        ),
{
    let g = group_encode(lit, offset, extra);
    let ll = lit.len() as int;
    let t1 = lsic_tail_spec(ll);
    let t2 = lsic_tail_spec(extra);
    let a: u8 = if ll < 15 {
        ll as u8
    } else {
        15
    };
    let b: u8 = if extra < 15 {
        extra as u8
    } else {
        15
    };
    let token = token_of(ll, extra);
    assert(c[pos] == g[0]);
    assert(g[0] == token);
    lemma_token_nibbles(a, b);
    assert(token >> 4 == a && token & 0xf == b);

    // the literal length
    assert(c.subrange(pos + 1, pos + 1 + t1.len() as int) =~= g.subrange(1, 1 + t1.len() as int));
    assert(g.subrange(1, 1 + t1.len() as int) =~= t1);
    lemma_nib_read(c, pos + 1, ll, a);
    let lpos = pos + 1 + t1.len() as int;
    assert(nib_len(c, pos + 1, token >> 4) == Some((ll, lpos)));

    // the literals themselves
    assert(c.subrange(lpos, lpos + ll) =~= g.subrange(
        1 + t1.len() as int,
        1 + t1.len() as int + ll,
    ));
    assert(g.subrange(1 + t1.len() as int, 1 + t1.len() as int + ll) =~= lit);
    let out1 = out + lit;
    assert(out + c.subrange(lpos, lpos + ll) == out1);

    // the offset bytes
    let mpos = lpos + ll;
    assert(c[mpos] == g[1 + t1.len() as int + ll]);
    assert(c[mpos + 1] == g[2 + t1.len() as int + ll]);
    assert(g[1 + t1.len() as int + ll] == (offset % 256) as u8);
    assert(g[2 + t1.len() as int + ll] == (offset / 256) as u8);
    assert(c[mpos] as int + 256 * (c[mpos + 1] as int) == offset as int) by {
        assert(offset as int == 256 * (offset as int / 256) + offset as int % 256) by {
            vstd::arithmetic::div_mod::lemma_fundamental_div_mod(offset as int, 256);
        }
    }

    // the match length
    assert(c.subrange(mpos + 2, mpos + 2 + t2.len() as int) =~= g.subrange(
        3 + t1.len() as int + ll,
        3 + t1.len() as int + ll + t2.len() as int,
    ));
    assert(g.subrange(3 + t1.len() as int + ll, 3 + t1.len() as int + ll + t2.len() as int)
        =~= t2);
    lemma_nib_read(c, mpos + 2, extra, b);
    let mlpos = mpos + 2 + t2.len() as int;
    assert(nib_len(c, mpos + 2, token & 0xf) == Some((extra, mlpos)));
    assert(mlpos == pos + g.len() as int);
}

/// Decoding a final, literal-only sequence that ends the block: the
/// decoder appends the literals and terminates cleanly.
pub proof fn lemma_decode_tail(
    c: Seq<u8>,
    pos: int,
    prefix: Seq<u8>,
    out: Seq<u8>,
    limit: int,
    lit: Seq<u8>,
)
    requires
        0 <= pos,
        pos + tail_encode(lit).len() == c.len(),
        c.subrange(pos, c.len() as int) == tail_encode(lit),
    ensures
        block_decode(c, pos, prefix, out, limit) == Ok::<Seq<u8>, DecodeError>(out + lit),
{
    let g = tail_encode(lit);
    let ll = lit.len() as int;
    let t1 = lsic_tail_spec(ll);
    let a: u8 = if ll < 15 {
        ll as u8
    } else {
        15
    };
    let token = token_of(ll, 0);
    assert(c[pos] == g[0]);
    assert(g[0] == token);
    lemma_token_nibbles(a, 0);
    assert(token >> 4 == a);
    assert(c.subrange(pos + 1, pos + 1 + t1.len() as int) =~= g.subrange(1, 1 + t1.len() as int));
    assert(g.subrange(1, 1 + t1.len() as int) =~= t1);
    lemma_nib_read(c, pos + 1, ll, a);
    let lpos = pos + 1 + t1.len() as int;
    assert(nib_len(c, pos + 1, token >> 4) == Some((ll, lpos)));
    assert(c.subrange(lpos, lpos + ll) =~= g.subrange(
        1 + t1.len() as int,
        1 + t1.len() as int + ll,
    ));
    assert(g.subrange(1 + t1.len() as int, 1 + t1.len() as int + ll) =~= lit);
    assert(lpos + ll == c.len());
}

/// Steps the encoder's running invariant over one emitted sequence:
/// if decoding every extension of `e` from scratch lands at its end
/// with `produced` built, then the same holds of `e + g` with the
/// group's literals and match copy appended.
pub proof fn lemma_decode_group_chain(
    e: Seq<u8>,
    pfx: Seq<u8>,
    lim: int,
    produced: Seq<u8>,
    lit: Seq<u8>,
    offset: u16,
    extra: int,
)
    requires
        extra >= 0,
        1 <= offset,
        offset <= produced.len() + lit.len() + pfx.len(),
        produced.len() + lit.len() + 4 + extra <= lim,
        forall|rest: Seq<u8>|
            block_decode(#[trigger] (e + rest), 0, pfx, Seq::empty(), lim) == block_decode(
                e + rest,
                e.len() as int,
                pfx,
                produced,
                lim,
            ),
    ensures
        ({
            let g = group_encode(lit, offset, extra);
            let produced_new = copy_match(pfx, produced + lit, offset as int, 4 + extra);
            forall|rest: Seq<u8>|
                block_decode(#[trigger] ((e + g) + rest), 0, pfx, Seq::empty(), lim)
                    == block_decode((e + g) + rest, (e + g).len() as int, pfx, produced_new, lim)
        }),
{
    let g = group_encode(lit, offset, extra);
    let produced_new = copy_match(pfx, produced + lit, offset as int, 4 + extra);
    assert forall|rest: Seq<u8>|
        block_decode(#[trigger] ((e + g) + rest), 0, pfx, Seq::empty(), lim) == block_decode(
            (e + g) + rest,
            (e + g).len() as int,
            pfx,
            produced_new,
            lim,
        ) by {
        assert(e + (g + rest) =~= (e + g) + rest);
        assert(block_decode(e + (g + rest), 0, pfx, Seq::empty(), lim) == block_decode(
            e + (g + rest),
            e.len() as int,
            pfx,
            produced,
            lim,
        ));
        assert(((e + g) + rest).subrange(e.len() as int, e.len() + g.len() as int) =~= g);
        lemma_decode_group((e + g) + rest, e.len() as int, pfx, produced, lim, lit, offset, extra);
    }
}

/// Ends the encoder's running invariant: appending a final,
/// literal-only sequence makes the whole emitted block decode to
/// `produced` plus those literals.
pub proof fn lemma_decode_tail_chain(
    e: Seq<u8>,
    pfx: Seq<u8>,
    lim: int,
    produced: Seq<u8>,
    lit: Seq<u8>,
)
    requires
        forall|rest: Seq<u8>|
            block_decode(#[trigger] (e + rest), 0, pfx, Seq::empty(), lim) == block_decode(
                e + rest,
                e.len() as int,
                pfx,
                produced,
                lim,
            ),
    ensures
        block_decode(e + tail_encode(lit), 0, pfx, Seq::empty(), lim) == Ok::<
            Seq<u8>,
            DecodeError,
        >(produced + lit),
{
    let t = tail_encode(lit);
    assert(block_decode(e + t, 0, pfx, Seq::empty(), lim) == block_decode(
        e + t,
        e.len() as int,
        pfx,
        produced,
        lim,
    ));
    assert((e + t).subrange(e.len() as int, (e + t).len() as int) =~= t);
    lemma_decode_tail(e + t, e.len() as int, pfx, produced, lim, lit);
}

/// The whole proof step for one accepted match of the encoder: with a
/// verified match of `matching` bytes at `c0` against `candidate`,
/// extended `bt` bytes backwards, emitting the corresponding sequence
/// advances the running invariant, with the plaintext up to the match
/// end decoded.
#[verifier::rlimit(100)]
pub proof fn lemma_encoder_accept(
    inp: Seq<u8>,
    init: int,
    lit_start: int,
    candidate: int,
    c0: int,
    matching: int,
    bt: int,
    e: Seq<u8>,
)
    requires
        0 <= init <= lit_start <= c0,
        0 <= candidate < c0,
        c0 - candidate <= 0xffff,
        4 <= matching,
        c0 + matching + 5 <= inp.len(),
        0 <= bt <= c0 - lit_start,
        bt <= candidate,
        forall|j: int|
            c0 - bt <= j < c0 + matching ==> #[trigger] inp[j] == inp[j - (c0 - candidate)],
        forall|rest: Seq<u8>|
            block_decode(#[trigger] (e + rest), 0, inp.subrange(0, init), Seq::empty(), inp.len() - init)
                == block_decode(
                e + rest,
                e.len() as int,
                inp.subrange(0, init),
                inp.subrange(init, lit_start),
                inp.len() - init,
            ),
    ensures
        ({
            let offset = (c0 - candidate) as u16;
            let extra = matching - 4 + bt;
            let lit = inp.subrange(lit_start, c0 - bt);
            let g = group_encode(lit, offset, extra);
            forall|rest: Seq<u8>|
                block_decode(
                    #[trigger] ((e + g) + rest),
                    0,
                    inp.subrange(0, init),
                    Seq::empty(),
                    inp.len() - init,
                ) == block_decode(
                    (e + g) + rest,
                    (e + g).len() as int,
                    inp.subrange(0, init),
                    inp.subrange(init, c0 + matching),
                    inp.len() - init,
                )
        }),
{
    let pfx = inp.subrange(0, init);
    let lim = inp.len() - init;
    let produced = inp.subrange(init, lit_start);
    let offset = (c0 - candidate) as u16;
    let extra = matching - 4 + bt;
    let lit = inp.subrange(lit_start, c0 - bt);
    let mstart = c0 - bt;
    let mlen = 4 + extra;
    assert(pfx + (produced + lit) =~= inp.subrange(0, mstart));
    lemma_copy_match_matches(inp, mstart, c0 - candidate, mlen, pfx, produced + lit);
    assert(pfx + inp.subrange(init, c0 + matching) =~= inp.subrange(0, c0 + matching));
    lemma_seq_cancel_front(
        pfx,
        copy_match(pfx, produced + lit, c0 - candidate, mlen),
        inp.subrange(init, c0 + matching),
    );
    lemma_decode_group_chain(e, pfx, lim, produced, lit, offset, extra);
}

/// Equal sequences with an equal front part have equal tails.
pub proof fn lemma_seq_cancel_front(a: Seq<u8>, x: Seq<u8>, y: Seq<u8>)
    requires
        a + x == a + y,
    ensures
        x == y,
{
    assert((a + x).len() == a.len() + x.len());
    assert((a + y).len() == a.len() + y.len());
    assert(x.len() == y.len());
    assert(x =~= y) by {
        assert forall|i: int| 0 <= i < x.len() implies x[i] == y[i] by {
            assert((a + x)[a.len() + i] == x[i]);
            assert((a + y)[a.len() + i] == y[i]);
        }
    }
}

/// A block that decodes within some memory limit decodes to the same
/// bytes under any larger limit.
pub proof fn lemma_block_decode_limit_mono(
    input: Seq<u8>,
    pos: int,
    prefix: Seq<u8>,
    out: Seq<u8>,
    l1: int,
    l2: int,
)
    requires
        block_decode(input, pos, prefix, out, l1) is Ok,
        l1 <= l2,
    ensures
        block_decode(input, pos, prefix, out, l2) == block_decode(input, pos, prefix, out, l1),
    decreases input.len() - pos,
{
    if pos < 0 || pos >= input.len() {
    } else {
        lemma_lsic_read_bounds(input, pos + 1);
        let token = input[pos];
        match nib_len(input, pos + 1, token >> 4) {
            None => {},
            Some((litlen, lpos)) => {
                lemma_lsic_read_bounds(input, lpos + litlen + 2);
                if lpos + litlen > input.len() {
                } else {
                    let out1 = out + input.subrange(lpos, lpos + litlen);
                    let mpos = lpos + litlen;
                    if mpos + 2 > input.len() {
                        if mpos < input.len() {
                            lemma_block_decode_limit_mono(input, mpos, prefix, out1, l1, l2);
                        }
                    } else {
                        let offset = input[mpos] as int + 256 * (input[mpos + 1] as int);
                        match nib_len(input, mpos + 2, token & 0xf) {
                            None => {},
                            Some((extra, mlpos)) => {
                                let mlen = 4 + extra;
                                if out1.len() + mlen <= l1 && offset != 0 && offset <= out1.len()
                                    + prefix.len() {
                                    lemma_block_decode_limit_mono(
                                        input,
                                        mlpos,
                                        prefix,
                                        copy_match(prefix, out1, offset, mlen),
                                        l1,
                                        l2,
                                    );
                                }
                            },
                        }
                    }
                }
            },
        }
    }
}

#[via_fn]
proof fn block_decode_decreases(
    input: Seq<u8>,
    pos: int,
    prefix: Seq<u8>,
    out: Seq<u8>,
    limit: int,
) {
    lemma_lsic_read_bounds(input, pos + 1);
    if 0 <= pos < input.len() {
        let token = input[pos];
        match nib_len(input, pos + 1, token >> 4) {
            None => {},
            Some((litlen, lpos)) => {
                lemma_lsic_read_bounds(input, lpos + litlen + 2);
            },
        }
    }
}

} // verus!
