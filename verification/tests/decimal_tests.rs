use bit_torrust::decimal::{parse_i64, parse_usize, push_decimal, push_signed_decimal};
use bit_torrust::endian::push_be_u32;
use bit_torrust::text::{ascii_text, bytes_equal, decimal_text, str_equal, text_of};
use bit_torrust::torrent::percent_encode;

#[test]
fn numbers_are_written_in_decimal() {
    let mut out = b"x".to_vec();
    push_decimal(&mut out, 0);
    push_decimal(&mut out, 9);
    push_decimal(&mut out, 10);
    push_decimal(&mut out, u64::MAX);
    assert_eq!(out, b"x091018446744073709551615".to_vec());
    let mut out = Vec::new();
    push_signed_decimal(&mut out, -1);
    push_signed_decimal(&mut out, 0);
    push_signed_decimal(&mut out, i64::MIN);
    push_signed_decimal(&mut out, i64::MAX);
    assert_eq!(out, b"-10-92233720368547758089223372036854775807".to_vec());
    assert_eq!(decimal_text(6881), "6881");
}

#[test]
fn lengths_are_read_from_decimal() {
    assert_eq!(parse_usize(b"0"), Some(0));
    assert_eq!(parse_usize(b"+17"), Some(17));
    assert_eq!(parse_usize(b"0042"), Some(42));
    assert_eq!(parse_usize(b""), None);
    assert_eq!(parse_usize(b"+"), None);
    assert_eq!(parse_usize(b"-1"), None);
    assert_eq!(parse_usize(b"1 "), None);
    assert_eq!(parse_usize(b"1_0"), None);
    assert_eq!(parse_usize(usize::MAX.to_string().as_bytes()), Some(usize::MAX));
    assert_eq!(parse_usize(b"340282366920938463463374607431768211456"), None);
    assert_eq!(parse_usize(b"18446744073709551616"), None);
}

#[test]
fn integers_are_read_from_decimal() {
    assert_eq!(parse_i64(b"-42"), Some(-42));
    assert_eq!(parse_i64(b"+42"), Some(42));
    assert_eq!(parse_i64(b"-0"), Some(0));
    assert_eq!(parse_i64(b"-"), None);
    assert_eq!(parse_i64(b"+-1"), None);
    assert_eq!(parse_i64(b"9223372036854775807"), Some(i64::MAX));
    assert_eq!(parse_i64(b"9223372036854775808"), None);
    assert_eq!(parse_i64(b"-9223372036854775808"), Some(i64::MIN));
    assert_eq!(parse_i64(b"-9223372036854775809"), None);
    assert_eq!(parse_i64(b"-18446744073709551616"), None);
}

#[test]
fn big_endian_bytes() {
    let mut out = Vec::new();
    push_be_u32(&mut out, 0x01020304);
    push_be_u32(&mut out, 0);
    push_be_u32(&mut out, u32::MAX);
    assert_eq!(out, vec![1, 2, 3, 4, 0, 0, 0, 0, 255, 255, 255, 255]);
}

#[test]
fn text_and_bytes() {
    assert_eq!(text_of("h\u{e9}".as_bytes()), Some("h\u{e9}".to_string()));
    assert_eq!(text_of(&[0xc3]), None);
    assert_eq!(ascii_text(b"abc"), "abc");
    assert!(str_equal("pieces", "pieces"));
    assert!(!str_equal("pieces", "piecez"));
    assert!(!str_equal("pieces", "piece"));
    assert!(bytes_equal(b"", b""));
    assert!(!bytes_equal(b"a", b"b"));
}

#[test]
fn bytes_are_written_for_a_url() {
    assert_eq!(percent_encode(&[]), "");
    assert_eq!(percent_encode(&[0x00, 0x0f, 0xa0, 0xff]), "%00%0f%a0%ff");
}
