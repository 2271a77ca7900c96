//! Interoperability with the reference LZ4 implementation, in both
//! directions, on the raw block format.
use lz_fear::raw::{compress_raw, decompress_raw};

fn decompress_all(input: &[u8]) -> Vec<u8> {
    let mut vec = Vec::new();
    decompress_raw(input, &[], &mut vec, usize::MAX).unwrap();
    vec
}

fn cases() -> Vec<Vec<u8>> {
    let mut structured = Vec::new();
    for n in 0..50_000usize {
        structured.push(((n as u8).wrapping_mul(10).wrapping_add(33)) ^ 0xA2);
    }
    vec![
        b"".to_vec(),
        b"a".to_vec(),
        b"aaaaaaaaaaaaaaaaaaaaaaaaaaaaa".to_vec(),
        b"the quick brown fox jumps over the lazy dog".repeat(20),
        b"as6yhol.;jrew5tyuikbfewedfyjltre22459ba".to_vec(),
        vec![0u8; 100_000],
        structured,
    ]
}

#[test]
fn we_decode_reference_blocks() {
    for case in cases() {
        let reference = lz4::block::compress(&case, None, false).unwrap();
        assert_eq!(decompress_all(&reference), case);
    }
}

#[test]
fn reference_decodes_our_blocks() {
    for case in cases() {
        let ours = compress_raw(&case);
        if case.is_empty() {
            // the reference refuses a zero-sized target buffer; an
            // empty input makes an empty block
            assert!(ours.is_empty());
            continue;
        }
        let decoded = lz4::block::decompress(&ours, Some(case.len() as i32)).unwrap();
        assert_eq!(decoded, case);
    }
}
