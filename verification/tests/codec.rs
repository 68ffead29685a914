//! Text codec and byte-order behavior.

use lupdate_core::codec::{parse_dec_u32, parse_dec_u64, parse_hex, push_dec_u32, push_dec_u64,
    push_hex};
use lupdate_core::order::{bytes_eq, lex_cmp, Cmp};

#[test]
fn codec_decimal_encodes() {
    let mut out: Vec<u8> = Vec::new();
    push_dec_u32(&mut out, 0);
    out.push(b',');
    push_dec_u64(&mut out, 1234567890123);
    assert_eq!(out, b"0,1234567890123".to_vec());
}

#[test]
fn codec_decimal_round_trip() {
    let mut out: Vec<u8> = Vec::new();
    push_dec_u32(&mut out, 4294967295);
    let (v, j) = parse_dec_u32(out.as_slice(), 0).unwrap();
    assert_eq!(v, 4294967295);
    assert_eq!(j, out.len());
}

#[test]
fn codec_decimal_overflow_fails() {
    assert!(parse_dec_u32(b"4294967296", 0).is_none());
    assert!(parse_dec_u64(b"99999999999999999999999", 0).is_none());
    assert!(parse_dec_u32(b"x1", 0).is_none());
}

#[test]
fn codec_decimal_stops_at_nondigit() {
    let (v, j) = parse_dec_u32(b"00123,rest", 0).unwrap();
    assert_eq!(v, 123);
    assert_eq!(j, 5);
}

#[test]
fn codec_hex_round_trip() {
    let bytes: Vec<u8> = (0u8..16u8).map(|i| i * 17).collect();
    let mut out: Vec<u8> = Vec::new();
    push_hex(&mut out, bytes.as_slice());
    assert_eq!(out.len(), 32);
    let (back, j) = parse_hex(out.as_slice(), 0, 16).unwrap();
    assert_eq!(back, bytes);
    assert_eq!(j, 32);
}

#[test]
fn codec_hex_is_canonical_lowercase() {
    let (v, _) = parse_hex(b"00ff", 0, 2).unwrap();
    assert_eq!(v, vec![0u8, 255u8]);
    // only the canonical lowercase form is accepted
    assert!(parse_hex(b"00FF", 0, 2).is_none());
    assert!(parse_hex(b"0g", 0, 1).is_none());
    assert!(parse_hex(b"0", 0, 1).is_none());
}

#[test]
fn order_lex_compare() {
    assert!(matches!(lex_cmp(b"a", b"b"), Cmp::Lt));
    assert!(matches!(lex_cmp(b"b", b"a"), Cmp::Gt));
    assert!(matches!(lex_cmp(b"abc", b"abc"), Cmp::Eq));
    assert!(matches!(lex_cmp(b"ab", b"abc"), Cmp::Lt));
    assert!(matches!(lex_cmp(b"abd", b"abc"), Cmp::Gt));
    assert!(matches!(lex_cmp(b"", b"", ), Cmp::Eq));
    assert!(matches!(lex_cmp(b"", b"a"), Cmp::Lt));
    assert!(bytes_eq(b"xyz", b"xyz"));
    assert!(!bytes_eq(b"xyz", b"xy"));
}
