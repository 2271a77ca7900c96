//! The framed format: round trips over every settings combination,
//! header validation, and tampering.
use std::hash::Hasher;

use lz_fear::framed::{
    decompress_frame, CompressionError, CompressionSettings, DecompressionError, LZ4FrameReader,
};

fn sample_input(len: usize) -> Vec<u8> {
    let mut v = Vec::with_capacity(len);
    for n in 0..len {
        // repetitive enough to compress, with some structure
        let b = if n % 7 == 0 { 0x61 } else { (n % 251) as u8 };
        v.push(b);
    }
    v
}

fn decode_with_dict(frame: Vec<u8>, dict: &[u8]) -> Result<Vec<u8>, DecompressionError> {
    let mut reader = LZ4FrameReader::new(frame)?;
    let mut plaintext = Vec::new();
    while !reader.is_finished() {
        let mut buf = Vec::new();
        reader.decode_block(&mut buf, dict)?;
        plaintext.extend_from_slice(&buf);
    }
    Ok(plaintext)
}

#[test]
fn frame_round_trip_all_settings() {
    let input = sample_input(200_000);
    let dict_data: &[u8] = &[1, 3, 3, 7, 9, 2, 6, 5, 1, 3, 3, 7];

    for bits in 0..32u32 {
        let mut settings = CompressionSettings::default();
        settings.block_size(65536);
        settings.independent_blocks(bits & 1 != 0);
        settings.block_checksums(bits & 2 != 0);
        settings.content_checksum(bits & 4 != 0);
        let with_size = bits & 8 != 0;
        let with_dict = bits & 16 != 0;
        if with_dict {
            settings.dictionary(42, dict_data);
        }

        let content_size = if with_size { Some(input.len() as u64) } else { None };
        let frame = settings.compress_internal(&input, content_size).unwrap();

        let decoded = if with_dict {
            decode_with_dict(frame, dict_data).unwrap()
        } else {
            decompress_frame(frame).unwrap()
        };
        assert_eq!(decoded, input, "failed at settings bits {}", bits);
    }
}

#[test]
fn frame_round_trip_all_block_sizes() {
    let input = sample_input(300_000);
    for bs in [65536usize, 262144, 1048576, 4194304] {
        let mut settings = CompressionSettings::default();
        settings.block_size(bs);
        settings.independent_blocks(false);
        let frame = settings.compress_internal(&input, None).unwrap();
        assert_eq!(decompress_frame(frame).unwrap(), input);
    }
}

#[test]
fn invalid_block_size_rejected() {
    let settings_result = {
        let mut settings = CompressionSettings::default();
        settings.block_size(12345);
        settings.compress_internal(b"hello", None)
    };
    assert_eq!(settings_result.unwrap_err(), CompressionError::InvalidBlockSize);
}

#[test]
fn header_reports_sizes_and_ids() {
    let mut settings = CompressionSettings::default();
    settings.block_size(65536);
    settings.dictionary(77, &[1, 2, 3, 4]);
    let frame = settings
        .compress_internal(b"some plaintext to carry around", Some(30))
        .unwrap();
    let reader = LZ4FrameReader::new(frame).unwrap();
    assert_eq!(reader.block_size(), 65536);
    assert_eq!(reader.frame_size(), Some(30));
    assert_eq!(reader.dictionary_id(), Some(77));
}

#[test]
fn wrong_magic_rejected() {
    let err = decompress_frame(vec![0x00, 0x22, 0x4D, 0x18, 0x64, 0x40, 0x00]).unwrap_err();
    assert!(matches!(err, DecompressionError::WrongMagic(_)));
}

#[test]
fn truncated_header_rejected() {
    let err = decompress_frame(vec![0x04, 0x22]).unwrap_err();
    assert_eq!(err, DecompressionError::InputError);
}

#[test]
fn tampered_header_checksum_rejected() {
    let settings = CompressionSettings::default();
    let mut frame = settings.compress_internal(b"payload payload payload", None).unwrap();
    // byte 6 is the header checksum of a plain header
    frame[6] = frame[6].wrapping_add(1);
    assert_eq!(
        decompress_frame(frame).unwrap_err(),
        DecompressionError::HeaderChecksumFail
    );
}

#[test]
fn tampered_block_checksum_rejected() {
    let mut settings = CompressionSettings::default();
    settings.block_checksums(true);
    settings.content_checksum(false);
    let mut frame = settings.compress_internal(b"payload payload payload", None).unwrap();
    // the block checksum is the last four bytes before the terminator
    let i = frame.len() - 5;
    frame[i] = frame[i].wrapping_add(1);
    assert_eq!(
        decompress_frame(frame).unwrap_err(),
        DecompressionError::BlockChecksumFail
    );
}

#[test]
fn tampered_content_checksum_rejected() {
    let mut settings = CompressionSettings::default();
    settings.content_checksum(true);
    let mut frame = settings.compress_internal(b"payload payload payload", None).unwrap();
    let i = frame.len() - 1;
    frame[i] = frame[i].wrapping_add(1);
    assert_eq!(
        decompress_frame(frame).unwrap_err(),
        DecompressionError::FrameChecksumFail
    );
}

#[test]
fn tampered_block_length_rejected() {
    let mut settings = CompressionSettings::default();
    settings.content_checksum(false);
    let mut frame = settings.compress_internal(b"payload payload payload", None).unwrap();
    // the block length prefix directly follows the 7-byte header
    frame[7] = frame[7].wrapping_add(100);
    decompress_frame(frame).unwrap_err();
}

fn plain_frame(input: &[u8]) -> Vec<u8> {
    let mut settings = CompressionSettings::default();
    settings.content_checksum(false);
    settings.compress_internal(input, None).unwrap()
}

#[test]
fn unsupported_version_rejected() {
    let mut frame = plain_frame(b"abc");
    frame[4] &= 0x3f;
    assert_eq!(
        decompress_frame(frame).unwrap_err(),
        DecompressionError::HeaderParseError(lz_fear::header::ParseError::UnsupportedVersion(0))
    );
}

#[test]
fn reserved_flag_bits_rejected() {
    let mut frame = plain_frame(b"abc");
    frame[4] |= 0b10;
    assert_eq!(
        decompress_frame(frame).unwrap_err(),
        DecompressionError::HeaderParseError(lz_fear::header::ParseError::ReservedFlagBitsSet)
    );
}

#[test]
fn reserved_bd_bits_rejected() {
    let mut frame = plain_frame(b"abc");
    frame[5] |= 0b1;
    assert_eq!(
        decompress_frame(frame).unwrap_err(),
        DecompressionError::HeaderParseError(lz_fear::header::ParseError::ReservedBdBitsSet)
    );
}

#[test]
fn unimplemented_blocksize_rejected() {
    let mut frame = plain_frame(b"abc");
    // a reserved maxsize code, with the header checksum recomputed so
    // that the size check itself is reached
    frame[5] = 0x30;
    let mut hasher = twox_hash::XxHash32::with_seed(0);
    hasher.write(&frame[4..6]);
    frame[6] = (hasher.finish() >> 8) as u8;
    assert_eq!(
        decompress_frame(frame).unwrap_err(),
        DecompressionError::HeaderParseError(lz_fear::header::ParseError::UnimplementedBlocksize(3))
    );
}

#[test]
fn oversized_block_rejected() {
    let mut settings = CompressionSettings::default();
    settings.content_checksum(false);
    settings.block_size(65536);
    let mut frame = settings.compress_internal(b"abc", None).unwrap();
    // a block length above the announced 64 KiB maxsize
    frame[7] = 0;
    frame[8] = 0;
    frame[9] = 0x10;
    frame[10] = 0;
    assert_eq!(
        decompress_frame(frame).unwrap_err(),
        DecompressionError::BlockSizeOverflow
    );
}

#[test]
fn corrupt_payload_reported_as_codec_error() {
    // a run of repeated bytes is stored compressed; a token that
    // announces more literals than the block holds must then fail
    // inside the codec
    let mut frame = plain_frame(b"aaaaaaaaaaaaaaaaaaaaaaaaaaaaaaaa");
    frame[11] = 0xf0;
    assert_eq!(
        decompress_frame(frame).unwrap_err(),
        DecompressionError::CodecError(lz_fear::raw::DecodeError::UnexpectedEnd)
    );
}

#[test]
fn zeros_through_independent_blocks() {
    // a large all-zero input through the framed encoder with
    // independent 4 MiB blocks decodes back byte-equal
    let input = vec![0u8; 100 * 1024 * 1024];
    let mut settings = CompressionSettings::default();
    settings.independent_blocks(true);
    settings.block_size(4 * 1024 * 1024);
    settings.content_checksum(false);
    let frame = settings.compress_internal(&input, None).unwrap();
    // each 4 MiB of zeros becomes a tiny compressed block
    assert!(frame.len() < 1024 * 1024);
    assert_eq!(decompress_frame(frame).unwrap(), input);
}

#[test]
fn structured_data_round_trips_with_checksum() {
    // a large pseudo-random but structured byte sequence round-trips
    // with the content checksum on
    let mut input = Vec::with_capacity(80_000_000);
    for n in 0..80_000_000usize {
        input.push(((n as u8).wrapping_mul(10).wrapping_add(33)) ^ 0xA2);
    }
    let mut settings = CompressionSettings::default();
    settings.content_checksum(true);
    settings.independent_blocks(false);
    let frame = settings.compress_internal(&input, None).unwrap();
    assert_eq!(decompress_frame(frame).unwrap(), input);
}

#[test]
fn dependent_blocks_reach_across_block_boundaries() {
    // dependent mode with a 64 KiB block size: later blocks match
    // into the carryover window
    let pattern: Vec<u8> = (0..1000u32).flat_map(|n| n.to_le_bytes()).collect();
    let mut input = Vec::new();
    for _ in 0..50 {
        input.extend_from_slice(&pattern);
    }
    let mut settings = CompressionSettings::default();
    settings.independent_blocks(false);
    settings.block_size(65536);
    let frame = settings.compress_internal(&input, None).unwrap();
    assert_eq!(decompress_frame(frame).unwrap(), input);
}
