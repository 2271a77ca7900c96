//! The legacy block-decoding interface.
use lz_fear::decompress::decompress;

#[test]
fn aaaaaaaaaaa_lots_of_aaaaaaaaa() {
    assert_eq!(decompress(&[0x11, b'a', 1, 0]).unwrap(), b"aaaaaa");
}

#[test]
fn multiple_repeated_blocks() {
    assert_eq!(
        decompress(&[0x11, b'a', 1, 0, 0x22, b'b', b'c', 2, 0]).unwrap(),
        b"aaaaaabcbcbcbc"
    );
}

#[test]
fn all_literal() {
    assert_eq!(decompress(&[0x30, b'a', b'4', b'9']).unwrap(), b"a49");
}

#[test]
fn offset_oob() {
    decompress(&[0x10, b'a', 2, 0]).unwrap_err();
    decompress(&[0x40, b'a', 1, 0]).unwrap_err();
}

#[test]
fn offset_oob_error_kind() {
    assert_eq!(
        decompress(&[0x10, b'a', 2, 0]).unwrap_err(),
        lz_fear::decompress::Error::InvalidDeduplicationOffset
    );
}

#[test]
fn truncated_literals_error() {
    assert_eq!(
        decompress(&[0x40, b'a']).unwrap_err(),
        lz_fear::decompress::Error::UnexpectedEnd
    );
}
