//! The raw block codec: decoding scenarios and encode/decode round
//! trips.
use lz_fear::decompress::decompress;
use lz_fear::raw::{compress2, compress_raw, decompress_raw, DecodeError, U16Table, U32Table};

fn decompress_all(input: &[u8]) -> Result<Vec<u8>, DecodeError> {
    let mut vec = Vec::new();
    decompress_raw(input, &[], &mut vec, usize::MAX)?;
    Ok(vec)
}

#[test]
fn decompress_aaaaaaaaaaa_lots_of_aaaaaaaaa() {
    assert_eq!(decompress_all(&[0x11, b'a', 1, 0]).unwrap(), b"aaaaaa");
}

#[test]
fn decompress_multiple_repeated_blocks() {
    assert_eq!(
        decompress_all(&[0x11, b'a', 1, 0, 0x22, b'b', b'c', 2, 0]).unwrap(),
        b"aaaaaabcbcbcbc"
    );
}

#[test]
fn decompress_all_literal() {
    assert_eq!(decompress_all(&[0x30, b'a', b'4', b'9']).unwrap(), b"a49");
}

#[test]
fn decompress_offset_oob() {
    decompress_all(&[0x10, b'a', 2, 0]).unwrap_err();
    decompress_all(&[0x40, b'a', 1, 0]).unwrap_err();
}

#[test]
fn invalid_offset_error_kind() {
    assert_eq!(
        decompress_all(&[0x10, b'a', 2, 0]).unwrap_err(),
        DecodeError::InvalidDeduplicationOffset
    );
}

#[test]
fn zero_offset_error_kind() {
    assert_eq!(
        decompress_all(&[0x10, b'a', 0, 0]).unwrap_err(),
        DecodeError::ZeroDeduplicationOffset
    );
}

#[test]
fn truncated_varint_error_kind() {
    assert_eq!(
        decompress_all(&[0xf0]).unwrap_err(),
        DecodeError::UnexpectedEnd
    );
}

#[test]
fn memory_limit_enforced() {
    // a 6-byte repetition with a limit of 4 is refused, and the
    // output never grows past limit + input length
    let input = [0x11u8, b'a', 1, 0];
    let mut out = Vec::new();
    assert_eq!(
        decompress_raw(&input, &[], &mut out, 4),
        Err(DecodeError::MemoryLimitExceeded)
    );
    assert!(out.len() <= 4 + input.len());
}

fn compress(input: &[u8]) -> Vec<u8> {
    let mut buf = Vec::new();
    if input.len() <= 0xFFFF {
        let mut table = U16Table::default();
        compress2(input, 0, &mut table, &mut buf);
    } else {
        let mut table = U32Table::default();
        compress2(input, 0, &mut table, &mut buf);
    }
    buf
}

/// Test that the compressed string decompresses to the original string.
fn inverse(s: &str) {
    let compressed = compress(s.as_bytes());
    let decompressed = decompress(&compressed).unwrap();
    assert_eq!(decompressed, s.as_bytes());
}

#[test]
fn shakespear() {
    inverse("to live or not to live");
    inverse("Love is a wonderful terrible thing");
    inverse("There is nothing either good or bad, but thinking makes it so.");
    inverse("I burn, I pine, I perish.");
}

#[test]
fn save_the_pandas() {
    inverse("To cute to die! Save the red panda!");
    inverse("You are 60% water. Save 60% of yourself!");
    inverse("Save water, it doesn't grow on trees.");
    inverse("The panda bear has an amazing black-and-white fur.");
    inverse("The average panda eats as much as 9 to 14 kg of bamboo shoots a day.");
    inverse("The Empress Dowager Bo was buried with a panda skull in her vault");
}

#[test]
fn not_compressible() {
    inverse("as6yhol.;jrew5tyuikbfewedfyjltre22459ba");
    inverse("jhflkdjshaf9p8u89ybkvjsdbfkhvg4ut08yfrr");
}

#[test]
fn short() {
    inverse("ahhd");
    inverse("ahd");
    inverse("x-29");
    inverse("x");
    inverse("k");
    inverse(".");
    inverse("ajsdh");
}

#[test]
fn empty_string() {
    inverse("");
}

#[test]
fn nulls() {
    inverse("\0\0\0\0\0\0\0\0\0\0\0\0\0");
}

#[test]
fn compression_works() {
    let s = "The Read trait allows for reading bytes from a source. Implementors of the Read trait are called 'readers'. Readers are defined by one required method, read().";

    inverse(s);

    assert!(compress(s.as_bytes()).len() < s.len());
}

#[test]
fn big_compression() {
    let mut s = Vec::with_capacity(80_000000);

    for n in 0..80_000000 {
        s.push((n as u8).wrapping_mul(0xA).wrapping_add(33) ^ 0xA2);
    }

    assert_eq!(&decompress(&compress(&s)).unwrap(), &s);
}

#[test]
fn short_input_is_a_literal_tail_block() {
    // inputs below the twelve-byte guard become one literal-only
    // sequence: token with the literal count, then the bytes
    assert_eq!(compress_raw(b"a49"), vec![0x30, b'a', b'4', b'9']);
    assert_eq!(
        compress_raw(b"aaaaaa"),
        vec![0x60, b'a', b'a', b'a', b'a', b'a', b'a']
    );
}

#[test]
fn compress_raw_round_trips() {
    let cases: [&[u8]; 5] = [
        b"",
        b"aaaaaaaaaaaaaaaaaaaaaaaaa",
        b"abcabcabcabcabcabcabcabcabcabc123",
        b"x",
        b"the quick brown fox jumps over the lazy dog, twice: \
          the quick brown fox jumps over the lazy dog",
    ];
    for case in cases {
        let block = compress_raw(case);
        assert_eq!(decompress_all(&block).unwrap(), case);
    }
}

#[test]
fn decode_with_prefix_lookback() {
    // a match reaching entirely into the prefix
    let prefix = b"hello ";
    let mut out = Vec::new();
    // token 0x04: no literals, match of 8 bytes at offset 6
    decompress_raw(&[0x04, 6, 0], prefix, &mut out, usize::MAX).unwrap();
    assert_eq!(out, b"hello he");
}
