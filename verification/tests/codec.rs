use conflict_scanner::codec::{decode_utf16le, read_u32};
use conflict_scanner::erf::ErfError;

fn utf16le_bytes(s: &str) -> Vec<u8> {
    let mut v = Vec::new();
    for u in s.encode_utf16() {
        v.extend_from_slice(&u.to_le_bytes());
    }
    v
}

#[test]
fn read_u32_little_endian() {
    assert_eq!(read_u32(&[0x78, 0x56, 0x34, 0x12]), 0x1234_5678);
}

#[test]
fn read_u32_zero_and_max() {
    assert_eq!(read_u32(&[0, 0, 0, 0]), 0);
    assert_eq!(read_u32(&[0xFF, 0xFF, 0xFF, 0xFF]), u32::MAX);
}

#[test]
fn decode_plain_ascii() {
    let bytes = utf16le_bytes("Test");
    assert_eq!(decode_utf16le(&bytes).unwrap(), "Test");
}

#[test]
fn decode_empty() {
    assert_eq!(decode_utf16le(&[]).unwrap(), "");
}

#[test]
fn decode_trims_trailing_nuls() {
    let bytes = utf16le_bytes("ab\0\0\0");
    assert_eq!(decode_utf16le(&bytes).unwrap(), "ab");
}

#[test]
fn decode_keeps_embedded_nul() {
    let bytes = utf16le_bytes("a\0b");
    assert_eq!(decode_utf16le(&bytes).unwrap(), "a\0b");
}

#[test]
fn decode_all_nuls_gives_empty() {
    let bytes = vec![0u8; 8];
    assert_eq!(decode_utf16le(&bytes).unwrap(), "");
}

#[test]
fn decode_surrogate_pair() {
    // U+1D11E (musical symbol G clef) encodes as the pair D834 DD1E.
    let bytes = utf16le_bytes("\u{1D11E}");
    assert_eq!(bytes, vec![0x34, 0xD8, 0x1E, 0xDD]);
    assert_eq!(decode_utf16le(&bytes).unwrap(), "\u{1D11E}");
}

#[test]
fn decode_lone_high_surrogate_replaced() {
    let bytes = vec![0x34, 0xD8];
    assert_eq!(decode_utf16le(&bytes).unwrap(), "\u{FFFD}");
}

#[test]
fn decode_lone_low_surrogate_replaced() {
    let bytes = vec![0x1E, 0xDD];
    assert_eq!(decode_utf16le(&bytes).unwrap(), "\u{FFFD}");
}

#[test]
fn decode_high_surrogate_before_ordinary_char() {
    // The high surrogate becomes U+FFFD and the following unit is kept.
    let mut bytes = vec![0x34, 0xD8];
    bytes.extend_from_slice(&utf16le_bytes("A"));
    assert_eq!(decode_utf16le(&bytes).unwrap(), "\u{FFFD}A");
}

#[test]
fn decode_odd_length_rejected() {
    let r = decode_utf16le(&[0x41, 0x00, 0x42]);
    assert!(matches!(r, Err(ErfError::InvalidStringEncoding)));
}

#[test]
fn decode_non_ascii_bmp_char() {
    let bytes = utf16le_bytes("caf\u{E9}");
    assert_eq!(decode_utf16le(&bytes).unwrap(), "caf\u{E9}");
}
