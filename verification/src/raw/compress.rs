//! Encoding raw LZ4 blocks.
//!
//! The encoder scans its input with a hash table of prior positions,
//! emitting sequences of literals and back-references.  Its contract
//! is the round trip itself: the block it emits is mapped back to the
//! input by the `block_decode` model, which the executable decoder is
//! proved to implement.  The hash table is only a heuristic — every
//! candidate it returns is verified byte for byte — so nothing about
//! its contents needs to be trusted or even stated.
use vstd::prelude::*;

use crate::raw::decompress::DecodeError;
use crate::raw::model::{block_decode, group_encode, lsic_ff, lsic_tail_spec, tail_encode, token_of};
use crate::raw::model::{lemma_decode_tail_chain, lemma_encoder_accept};
use crate::raw::model::{lemma_group_encode_len, lemma_tail_encode_len};

verus! {

/// A hash table mapping prefixes of the input to the positions where
/// they were last seen.  `base()` is the shift applied to stored
/// positions so that a sliding window can expire old entries without
/// rewriting them; `hi()` bounds every stored absolute position, so
/// that `replace` can promise a candidate at or before the cursor.
pub trait EncoderTable: Sized {
    spec fn wf(&self) -> bool;

    spec fn base(&self) -> int;

    spec fn hi(&self) -> int;

    /// The stored slot values, as logical (base-shifted) integers.
    spec fn slots(&self) -> Seq<int>;

    /// The slot that `replace` swaps for the bytes at `pos`.
    spec fn slot_index(input: Seq<u8>, pos: int) -> int;

    spec fn payload_limit() -> int;

    /// The largest input length (plus base offset) the table's entry
    /// width can address.
    fn payload_size_limit() -> (r: usize)
        ensures
            r as int == Self::payload_limit(),
    ;

    /// Stores `offset` (shifted by the base) in the slot the hash of
    /// the bytes at `offset` picks, returning the position the slot
    /// held before, saturated to zero when it predates the base.
    fn replace(&mut self, input: &[u8], offset: usize) -> (prior: usize)
        requires
            old(self).wf(),
            offset + 4 <= input@.len(),
            old(self).hi() <= old(self).base() + offset as int,
            old(self).base() + offset as int <= Self::payload_limit(),
        ensures
            final(self).wf(),
            final(self).base() == old(self).base(),
            final(self).hi() == old(self).base() + offset as int,
            prior <= offset,
            0 <= Self::slot_index(input@, offset as int) < old(self).slots().len(),
            final(self).slots() == old(self).slots().update(
                Self::slot_index(input@, offset as int),
                old(self).base() + offset as int,
            ),
            prior as int == ({
                let prev = old(self).slots()[Self::slot_index(input@, offset as int)];
                if prev > old(self).base() {
                    prev - old(self).base()
                } else {
                    0
                }
            }),
    ;

    /// Advances the base by `delta` without touching any slot:
    /// entries that predate the new base then read back as unset.
    fn offset(&mut self, delta: usize)
        requires
            old(self).wf(),
            old(self).base() + delta as int <= Self::payload_limit(),
        ensures
            final(self).wf(),
            final(self).base() == old(self).base() + delta as int,
            final(self).hi() == old(self).hi(),
            final(self).slots() == old(self).slots(),
    ;
}

/// The wide table's hash formula: eight input bytes read
/// little-endian (zero near the end, where no match may start
/// anyway), shifted, multiplied wrapping, and shifted down to twelve
/// bits.
pub open spec fn spec_hash_u32(s: Seq<u8>, pos: int) -> u64 {
    let v: u64 = if pos + 8 <= s.len() {
        (s[pos] as u64) | ((s[pos + 1] as u64) << 8) | ((s[pos + 2] as u64) << 16) | ((s[pos
            + 3] as u64) << 24) | ((s[pos + 4] as u64) << 32) | ((s[pos + 5] as u64) << 40) | ((s[pos
            + 6] as u64) << 48) | ((s[pos + 7] as u64) << 56)
    } else {
        0
    };
    (v << 24).wrapping_mul(889523592379) >> 52
}

/// The hash of the narrow table: four input bytes read little-endian,
/// multiplied wrapping, and shifted down to thirteen bits.
pub open spec fn spec_hash_u16(s: Seq<u8>, pos: int) -> u32 {
    let v: u32 = (s[pos] as u32) | ((s[pos + 1] as u32) << 8) | ((s[pos + 2] as u32) << 16) | ((s[pos
        + 3] as u32) << 24);
    v.wrapping_mul(2654435761) >> 19
}

/// The weak, fast hash for the wide table, computing exactly
/// `spec_hash_u32`.
pub fn hash_for_u32(input: &[u8], pos: usize) -> (h: usize)
    requires
        pos <= input@.len(),
    ensures
        h < 4096,
        h as u64 == spec_hash_u32(input@, pos as int),
{
    let v: u64 = if input.len() - pos >= 8 {
        (input[pos] as u64) | ((input[pos + 1] as u64) << 8) | ((input[pos + 2] as u64) << 16) | (
        (input[pos + 3] as u64) << 24) | ((input[pos + 4] as u64) << 32) | ((input[pos
            + 5] as u64) << 40) | ((input[pos + 6] as u64) << 48) | ((input[pos + 7] as u64) << 56)
    } else {
        0
    };
    let x: u64 = (v << 24).wrapping_mul(889523592379);
    proof {
        assert((x >> 52) < 4096) by (bit_vector);
    }
    (x >> 52) as usize
}

/// The four-byte hash for the narrow table, computing exactly
/// `spec_hash_u16`.
pub fn hash_for_u16(input: &[u8], pos: usize) -> (h: usize)
    requires
        pos + 4 <= input@.len(),
    ensures
        h < 8192,
        h as u32 == spec_hash_u16(input@, pos as int),
{
    let v: u32 = (input[pos] as u32) | ((input[pos + 1] as u32) << 8) | ((input[pos
        + 2] as u32) << 16) | ((input[pos + 3] as u32) << 24);
    let x: u32 = v.wrapping_mul(2654435761);
    proof {
        assert((x >> 19) < 8192) by (bit_vector);
    }
    (x >> 19) as usize
}

/// The wide table: 4096 slots of 32-bit positions, for inputs up to
/// 4 GiB.
pub struct U32Table {
    dict: Vec<u32>,
    base: usize,
    top: Ghost<int>,
}

impl U32Table {
    /// A copy to encode a block with, leaving the original — a
    /// dictionary-seeded template — untouched.
    pub fn duplicate(&self) -> (t: Self)
        requires
            self.wf(),
        ensures
            t.wf(),
            t.base() == self.base(),
            t.hi() == self.hi(),
            t.slots() == self.slots(),
    {
        let mut d: Vec<u32> = Vec::new();
        let mut i: usize = 0;
        while i < self.dict.len()
            invariant
                i <= self.dict@.len(),
                d@ == self.dict@.subrange(0, i as int),
            decreases self.dict@.len() - i,
        {
            d.push(self.dict[i]);
            proof {
                assert(d@ =~= self.dict@.subrange(0, i + 1));
            }
            i = i + 1;
        }
        proof {
            assert(d@ =~= self.dict@);
        }
        U32Table { dict: d, base: self.base, top: Ghost(self.top@) }
    }
}

impl Default for U32Table {
    fn default() -> (r: Self)
        ensures
            r.wf(),
            r.base() == 0,
            r.hi() == 0,
    {
        let mut d: Vec<u32> = Vec::new();
        while d.len() < 4096
            invariant
                forall|i: int| 0 <= i < d@.len() ==> d@[i] == 0,
                d@.len() <= 4096,
            decreases 4096 - d@.len(),
        {
            d.push(0);
        }
        U32Table { dict: d, base: 0, top: Ghost(0int) }
    }
}

impl EncoderTable for U32Table {
    closed spec fn wf(&self) -> bool {
        &&& self.dict@.len() == 4096
        &&& 0 <= self.top@ <= u32::MAX
        &&& forall|i: int| 0 <= i < 4096 ==> self.dict@[i] as int <= self.top@
    }

    closed spec fn base(&self) -> int {
        self.base as int
    }

    closed spec fn hi(&self) -> int {
        self.top@
    }

    closed spec fn slots(&self) -> Seq<int> {
        self.dict@.map_values(|x: u32| x as int)
    }

    open spec fn slot_index(input: Seq<u8>, pos: int) -> int {
        spec_hash_u32(input, pos) as int
    }

    open spec fn payload_limit() -> int {
        u32::MAX as int
    }

    fn payload_size_limit() -> (r: usize) {
        u32::MAX as usize
    }

    fn replace(&mut self, input: &[u8], offset: usize) -> (prior: usize) {
        let o: usize = offset + self.base;
        let h: usize = hash_for_u32(input, offset);
        let ghost pre = self.dict@;
        let value: u32 = self.dict[h];
        self.dict.set(h, o as u32);
        proof {
            self.top@ = o as int;
            assert(self.dict@.map_values(|x: u32| x as int) =~= pre.map_values(
                |x: u32| x as int,
            ).update(h as int, o as int));
        }
        if value as usize > self.base {
            value as usize - self.base
        } else {
            0
        }
    }

    fn offset(&mut self, delta: usize) {
        self.base = self.base + delta;
    }
}

/// The narrow table: 8192 slots of 16-bit positions, for inputs up to
/// 64 KiB.
pub struct U16Table {
    dict: Vec<u16>,
    base: usize,
    top: Ghost<int>,
}

impl Default for U16Table {
    fn default() -> (r: Self)
        ensures
            r.wf(),
            r.base() == 0,
            r.hi() == 0,
    {
        let mut d: Vec<u16> = Vec::new();
        while d.len() < 8192
            invariant
                forall|i: int| 0 <= i < d@.len() ==> d@[i] == 0,
                d@.len() <= 8192,
            decreases 8192 - d@.len(),
        {
            d.push(0);
        }
        U16Table { dict: d, base: 0, top: Ghost(0int) }
    }
}

impl EncoderTable for U16Table {
    closed spec fn wf(&self) -> bool {
        &&& self.dict@.len() == 8192
        &&& 0 <= self.top@ <= u16::MAX
        &&& forall|i: int| 0 <= i < 8192 ==> self.dict@[i] as int <= self.top@
    }

    closed spec fn base(&self) -> int {
        self.base as int
    }

    closed spec fn hi(&self) -> int {
        self.top@
    }

    closed spec fn slots(&self) -> Seq<int> {
        self.dict@.map_values(|x: u16| x as int)
    }

    open spec fn slot_index(input: Seq<u8>, pos: int) -> int {
        spec_hash_u16(input, pos) as int
    }

    open spec fn payload_limit() -> int {
        u16::MAX as int
    }

    fn payload_size_limit() -> (r: usize) {
        u16::MAX as usize
    }

    fn replace(&mut self, input: &[u8], offset: usize) -> (prior: usize) {
        let o: usize = offset + self.base;
        let h: usize = hash_for_u16(input, offset);
        let ghost pre = self.dict@;
        let value: u16 = self.dict[h];
        self.dict.set(h, o as u16);
        proof {
            self.top@ = o as int;
            assert(self.dict@.map_values(|x: u16| x as int) =~= pre.map_values(
                |x: u16| x as int,
            ).update(h as int, o as int));
        }
        if value as usize > self.base {
            value as usize - self.base
        } else {
            0
        }
    }

    fn offset(&mut self, delta: usize) {
        self.base = self.base + delta;
    }
}

/// Counts how many leading bytes two slices share.
pub fn count_matching_bytes(a: &[u8], b: &[u8]) -> (r: usize)
    ensures
        r <= a@.len(),
        r <= b@.len(),
        forall|i: int| 0 <= i < r ==> a@[i] == b@[i],
        r < a@.len() && r < b@.len() ==> a@[r as int] != b@[r as int],
{
    let n: usize = if a.len() < b.len() {
        a.len()
    } else {
        b.len()
    };
    let mut i: usize = 0;
    while i < n
        invariant
            i <= n,
            n <= a@.len(),
            n <= b@.len(),
            n == a@.len() || n == b@.len(),
            forall|j: int| 0 <= j < i ==> a@[j] == b@[j],
        decreases n - i,
    {
        if a[i] != b[i] {
            return i;
        }
        i = i + 1;
    }
    i
}

/// Packs a length into a token nibble, saturating at 15.
pub fn write_lsic_head(token: &mut u8, shift: usize, value: usize)
    requires
        shift == 4 || shift == 0,
        shift == 4 ==> *old(token) == 0,
        shift == 0 ==> *old(token) % 16 == 0,
    ensures
        shift == 4 ==> *final(token) as int == 16 * (if value < 15 {
            value as int
        } else {
            15
        }),
        shift == 0 ==> *final(token) as int == *old(token) as int + (if value < 15 {
            value as int
        } else {
            15
        }),
{
    let m: u8 = if value < 15 {
        value as u8
    } else {
        15
    };
    let t0: u8 = *token;
    *token = t0 | (m << shift);
    proof {
        if shift == 4 {
            assert(t0 == 0 && m < 16 ==> (t0 | (m << 4usize)) == 16 * m) by (bit_vector);
        } else {
            assert(t0 % 16 == 0 && m < 16 ==> (t0 | (m << 0usize)) == t0 + m) by (bit_vector);
        }
    }
}

/// Emits the LSIC tail of a length: nothing below 15, else 0xff bytes
/// and a final residue byte.
pub fn write_lsic_tail(out: &mut Vec<u8>, value: usize)
    ensures
        final(out)@ == old(out)@ + lsic_tail_spec(value as int),
{
    if value < 15 {
        proof {
            assert(old(out)@ + lsic_tail_spec(value as int) =~= old(out)@);
        }
        return;
    }
    let mut rem: usize = value - 15;
    while rem >= 255
        invariant
            out@ + lsic_ff(rem as int) == old(out)@ + lsic_ff((value - 15) as int),
            value >= 15,
        decreases rem,
    {
        let ghost pre = out@;
        out.push(0xff);
        rem = rem - 255;
        proof {
            assert(pre.push(0xffu8) + lsic_ff(rem as int) =~= pre + (seq![0xffu8] + lsic_ff(
                rem as int,
            )));
        }
    }
    let ghost pre = out@;
    out.push(rem as u8);
    proof {
        assert(lsic_ff(rem as int) == seq![rem as u8]);
        assert(pre.push(rem as u8) =~= pre + seq![rem as u8]);
        assert(out@ =~= old(out)@ + lsic_tail_spec(value as int));
    }
}

/// Emits one full sequence: token, extended literal length, the
/// literals `input[lit_start..lit_end]`, the offset, the extended
/// match length.
pub fn write_group(
    out: &mut Vec<u8>,
    input: &[u8],
    lit_start: usize,
    lit_end: usize,
    offset: u16,
    extra: usize,
)
    requires
        lit_start <= lit_end <= input@.len(),
    ensures
        final(out)@ == old(out)@ + group_encode(
            input@.subrange(lit_start as int, lit_end as int),
            offset,
            extra as int,
        ),
{
    let ghost lit = input@.subrange(lit_start as int, lit_end as int);
    let literal_len: usize = lit_end - lit_start;
    let mut token: u8 = 0;
    write_lsic_head(&mut token, 4, literal_len);
    write_lsic_head(&mut token, 0, extra);
    proof {
        assert(token == token_of(lit.len() as int, extra as int));
    }
    let ghost o0 = out@;
    out.push(token);
    write_lsic_tail(out, literal_len);
    let ghost o1 = out@;
    proof {
        assert(o1 =~= o0 + (seq![token_of(lit.len() as int, extra as int)] + lsic_tail_spec(
            lit.len() as int,
        )));
    }
    let mut j: usize = lit_start;
    while j < lit_end
        invariant
            lit_start <= j <= lit_end <= input@.len(),
            out@ == o1 + input@.subrange(lit_start as int, j as int),
        decreases lit_end - j,
    {
        out.push(input[j]);
        proof {
            assert(o1 + input@.subrange(lit_start as int, j + 1) =~= (o1 + input@.subrange(
                lit_start as int,
                j as int,
            )).push(input@[j as int]));
        }
        j = j + 1;
    }
    let ghost o2 = out@;
    out.push((offset % 256) as u8);
    out.push((offset / 256) as u8);
    write_lsic_tail(out, extra);
    proof {
        assert(out@ =~= o2 + (seq![(offset % 256) as u8, (offset / 256) as u8] + lsic_tail_spec(
            extra as int,
        )));
        assert(out@ =~= old(out)@ + group_encode(lit, offset, extra as int));
    }
}

/// Emits a final, literal-only sequence covering
/// `input[lit_start..]`.
fn write_literal_tail(out: &mut Vec<u8>, input: &[u8], lit_start: usize)
    requires
        lit_start <= input@.len(),
    ensures
        final(out)@ == old(out)@ + tail_encode(
            input@.subrange(lit_start as int, input@.len() as int),
        ),
{
    let ghost lit = input@.subrange(lit_start as int, input@.len() as int);
    let literal_len: usize = input.len() - lit_start;
    let mut token: u8 = 0;
    write_lsic_head(&mut token, 4, literal_len);
    proof {
        assert(token == token_of(lit.len() as int, 0));
    }
    let ghost o0 = out@;
    out.push(token);
    write_lsic_tail(out, literal_len);
    let ghost o1 = out@;
    proof {
        assert(o1 =~= o0 + (seq![token_of(lit.len() as int, 0)] + lsic_tail_spec(
            lit.len() as int,
        )));
    }
    let mut j: usize = lit_start;
    while j < input.len()
        invariant
            lit_start <= j <= input@.len(),
            out@ == o1 + input@.subrange(lit_start as int, j as int),
        decreases input@.len() - j,
    {
        out.push(input[j]);
        proof {
            assert(o1 + input@.subrange(lit_start as int, j + 1) =~= (o1 + input@.subrange(
                lit_start as int,
                j as int,
            )).push(input@[j as int]));
        }
        j = j + 1;
    }
    proof {
        assert(out@ =~= old(out)@ + tail_encode(lit));
    }
}

/// Compresses `input[init_cursor..]` into one raw block, appending
/// the block's bytes to `out`.  Bytes before `init_cursor` are
/// lookback data — a dictionary or the window of earlier blocks — and
/// matches may reach into them.
///
/// The contract is the round trip: decoding the emitted bytes with
/// `input[..init_cursor]` as the prefix yields `input[init_cursor..]`
/// exactly.
#[verifier::rlimit(100)]
#[verifier::spinoff_prover]
pub fn compress2<T: EncoderTable>(
    input: &[u8],
    init_cursor: usize,
    table: &mut T,
    out: &mut Vec<u8>,
)
    requires
        old(table).wf(),
        old(table).hi() <= old(table).base() + init_cursor as int,
        old(table).base() + input@.len() <= T::payload_limit(),
        init_cursor <= input@.len(),
        input@.len() + 130 <= usize::MAX,
    ensures
        final(table).wf(),
        final(table).base() == old(table).base(),
        final(table).hi() <= old(table).base() + input@.len(),
        final(out)@.len() >= old(out)@.len(),
        final(out)@.len() <= old(out)@.len() + 2 * (input@.len() - init_cursor as int) + 2,
        final(out)@.subrange(0, old(out)@.len() as int) == old(out)@,
        init_cursor < input@.len() && input@.len() - init_cursor < 12 ==> final(out)@.subrange(
            old(out)@.len() as int,
            final(out)@.len() as int,
        ) == tail_encode(input@.subrange(init_cursor as int, input@.len() as int)),
        init_cursor < input@.len() ==> exists|k: int, e1: Seq<u8>|
            {
                &&& init_cursor <= k
                &&& k + 5 <= input@.len() || k == init_cursor as int
                &&& #[trigger] (e1 + tail_encode(input@.subrange(k, input@.len() as int)))
                    == final(out)@.subrange(old(out)@.len() as int, final(out)@.len() as int)
            },
        block_decode(
            final(out)@.subrange(old(out)@.len() as int, final(out)@.len() as int),
            0,
            input@.subrange(0, init_cursor as int),
            Seq::empty(),
            input@.len() - init_cursor as int,
        ) == Ok::<Seq<u8>, DecodeError>(
            input@.subrange(init_cursor as int, input@.len() as int),
        ),
{
    let ghost base0 = old(table).base();
    let ghost out0 = old(out)@;
    let ghost pfx = input@.subrange(0, init_cursor as int);
    let ghost lim = input@.len() - init_cursor as int;

    if init_cursor >= input.len() {
        proof {
            assert(out@.len() == out0.len());
            let e = out@.subrange(out0.len() as int, out@.len() as int);
            assert(e =~= Seq::<u8>::empty());
            assert(block_decode(e, 0, pfx, Seq::empty(), lim) == Ok::<Seq<u8>, DecodeError>(
                Seq::<u8>::empty(),
            ));
            assert(input@.subrange(init_cursor as int, input@.len() as int) =~= Seq::<
                u8,
            >::empty());
            assert(out@.subrange(0, out0.len() as int) =~= out0);
        }
        return;
    }

    let mut cursor: usize = init_cursor;
    let mut literal_start: usize = init_cursor;
    let mut step_counter: usize = 64;
    let mut step: usize = 1;
    proof {
        assert(out@.subrange(out0.len() as int, out@.len() as int) =~= Seq::<u8>::empty());
        assert(input@.subrange(init_cursor as int, init_cursor as int) =~= Seq::<u8>::empty());
        assert(out@.subrange(0, out0.len() as int) =~= out0);
    }
    loop
        invariant
            init_cursor <= literal_start <= cursor <= input@.len(),
            input@.len() + 130 <= usize::MAX,
            table.wf(),
            table.base() == base0,
            table.hi() <= base0 + cursor as int,
            base0 + input@.len() <= T::payload_limit(),
            base0 == old(table).base(),
            1 <= step,
            64 <= step_counter <= 64 + cursor,
            out@.len() >= out0.len(),
            out@.len() <= out0.len() + 2 * (literal_start - init_cursor as int),
            input@.len() - init_cursor < 12 ==> literal_start == init_cursor && out@.len()
                == out0.len(),
            literal_start + 5 <= input@.len() || literal_start == init_cursor,
            out@.subrange(0, out0.len() as int) == out0,
            out0 == old(out)@,
            pfx == input@.subrange(0, init_cursor as int),
            lim == input@.len() - init_cursor as int,
            forall|rest: Seq<u8>|
                block_decode(
                    #[trigger] (out@.subrange(out0.len() as int, out@.len() as int) + rest),
                    0,
                    pfx,
                    Seq::empty(),
                    lim,
                ) == block_decode(
                    out@.subrange(out0.len() as int, out@.len() as int) + rest,
                    out@.len() - out0.len(),
                    pfx,
                    input@.subrange(init_cursor as int, literal_start as int),
                    lim,
                ),
        decreases input@.len() - cursor,
    {
        let ghost e_old = out@.subrange(out0.len() as int, out@.len() as int);
        let ghost produced = input@.subrange(init_cursor as int, literal_start as int);

        if input.len() - cursor < 12 {
            // closing literal-only sequence
            let ghost lit = input@.subrange(literal_start as int, input@.len() as int);
            write_literal_tail(out, input, literal_start);
            proof {
                let t = tail_encode(lit);
                assert(out@.subrange(out0.len() as int, out@.len() as int) =~= e_old + t);
                lemma_decode_tail_chain(e_old, pfx, lim, produced, lit);
                assert(produced + lit =~= input@.subrange(init_cursor as int, input@.len() as int));
                assert(out@.subrange(0, out0.len() as int) =~= out0);
                lemma_tail_encode_len(lit);
                if input@.len() - init_cursor < 12 {
                    assert(e_old =~= Seq::<u8>::empty());
                    assert(e_old + t =~= t);
                }
                assert(e_old + tail_encode(
                    input@.subrange(literal_start as int, input@.len() as int),
                ) == out@.subrange(out0.len() as int, out@.len() as int));
            }
            return;
        }

        let candidate: usize = table.replace(input, cursor);

        let mut matched: bool = false;
        let mut matching: usize = 0;
        if cursor != init_cursor && candidate < cursor && cursor - candidate <= 0xffff {
            let m = count_matching_bytes(
                &input[cursor..input.len() - 5],
                &input[candidate..input.len()],
            );
            if m >= 4 {
                matched = true;
                matching = m;
            }
        }

        if matched {
            let ghost c0 = cursor as int;
            let offset_us: usize = cursor - candidate;
            let offset: u16 = offset_us as u16;

            // extend the match backwards over already-pending literals
            let max_backtrack: usize = cursor - literal_start;
            let mut bt: usize = 0;
            while bt < max_backtrack && bt < candidate && input[cursor - 1 - bt] == input[candidate
                - 1 - bt]
                invariant
                    bt <= max_backtrack,
                    bt <= candidate,
                    max_backtrack <= cursor <= input@.len(),
                    candidate < cursor,
                    input@.len() <= usize::MAX,
                    forall|j: int|
                        cursor - bt <= j < cursor ==> #[trigger] input@[j] == input@[j - (cursor
                            - candidate)],
                decreases max_backtrack - bt,
            {
                bt = bt + 1;
            }
            let mstart: usize = cursor - bt;
            let extra: usize = (matching - 4) + bt;
            cursor = cursor + matching;
            // an extra insertion two bytes back, as the reference
            // encoder's hot loop does
            table.replace(input, cursor - 2);

            let ghost lit = input@.subrange(literal_start as int, mstart as int);
            write_group(out, input, literal_start, mstart, offset, extra);

            proof {
                let mlen = 4 + extra as int;
                let g = group_encode(lit, offset, extra as int);
                assert(offset as int == offset_us as int);
                // the stream repeats itself `offset` back over the match
                assert(forall|j: int|
                    mstart <= j < mstart + mlen ==> #[trigger] input@[j] == input@[j
                        - offset_us]) by {
                    assert forall|j: int| mstart <= j < mstart + mlen implies #[trigger] input@[j]
                        == input@[j - offset_us] by {
                        if j >= c0 {
                            let i = j - c0;
                            let a = input@.subrange(c0, input@.len() - 5);
                            let b = input@.subrange(candidate as int, input@.len() as int);
                            assert(a[i] == b[i]);
                            assert(a[i] == input@[c0 + i]);
                            assert(b[i] == input@[candidate + i]);
                        }
                    }
                }
                lemma_encoder_accept(
                    input@,
                    init_cursor as int,
                    literal_start as int,
                    candidate as int,
                    c0,
                    matching as int,
                    bt as int,
                    e_old,
                );
                assert(out@.subrange(out0.len() as int, out@.len() as int) =~= e_old + g);
                assert(out@.subrange(0, out0.len() as int) =~= out0);
                lemma_group_encode_len(lit, offset, extra as int);
            }
            literal_start = cursor;
            step_counter = 64;
            step = 1;
        } else {
            // no match: advance, skipping faster over stubborn data
            let remaining: usize = input.len() - cursor;
            if step < remaining {
                cursor = cursor + step;
            } else {
                cursor = input.len();
            }
            step = step_counter >> 6;
            proof {
                assert(step_counter >> 6usize >= 1) by (bit_vector)
                    requires
                        64 <= step_counter,
                ;
            }
            // the first byte of a fresh literal run does not count,
            // mirroring the reference encoder's unrolled loop
            if literal_start + 1 != cursor {
                step_counter = step_counter + 1;
            }
        }
    }
}

/// Compresses a byte slice into one raw LZ4 block, choosing the table
/// width by input size.  Decoding the returned block yields `input`
/// exactly.
pub fn compress_raw(input: &[u8]) -> (r: Vec<u8>)
    requires
        input@.len() + 130 <= usize::MAX,
        input@.len() <= u32::MAX,
    ensures
        block_decode(r@, 0, Seq::empty(), Seq::empty(), input@.len() as int) == Ok::<
            Seq<u8>,
            DecodeError,
        >(input@),
        r@.len() <= 2 * input@.len() + 2,
        0 < input@.len() < 12 ==> r@ == tail_encode(input@),
{
    let mut out: Vec<u8> = Vec::new();
    if input.len() <= 0xffff {
        let mut table = U16Table::default();
        compress2(input, 0, &mut table, &mut out);
    } else {
        let mut table = U32Table::default();
        compress2(input, 0, &mut table, &mut out);
    }
    proof {
        assert(out@.subrange(0, out@.len() as int) =~= out@);
        assert(input@.subrange(0, 0) =~= Seq::<u8>::empty());
        assert(input@.subrange(0, input@.len() as int) =~= input@);
    }
    out
}

} // verus!
