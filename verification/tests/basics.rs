use tiny_rust::bytes::{
    bytes_eq, copy_to, extract_angle_addr, find_crlf, find_dot_terminator, find_line_end, make_cstr, next_token,
    skip_spaces, starts_with, trim_end,
};
use tiny_rust::hash::{fnv1a_hash, fnv1a_update, hash_line, FNV_OFFSET};
use tiny_rust::numfmt::{
    format_hex, format_hex64, format_hex_u32, format_i32, format_u32, format_u64, parse_hex64, parse_u16, parse_u32,
    parse_u32_from_slice, parse_u64,
};
use tiny_rust::wasm::{add, fib};

#[test]
fn bytes_copy_to_respects_capacity() {
    let mut d = b"ab".to_vec();
    copy_to(&mut d, 5, b"cdefg");
    assert_eq!(d, b"abcde".to_vec());
    copy_to(&mut d, 5, b"x");
    assert_eq!(d, b"abcde".to_vec());
    let mut e = Vec::new();
    copy_to(&mut e, 10, b"hi");
    assert_eq!(e, b"hi".to_vec());
}

#[test]
fn bytes_scanners() {
    assert!(bytes_eq(b"abc", b"abc"));
    assert!(!bytes_eq(b"abc", b"abd"));
    assert!(starts_with(b"PRODUCE x", b"PRODUCE"));
    assert!(!starts_with(b"PRO", b"PRODUCE"));
    assert_eq!(trim_end(b"quit\r\n  "), b"quit");
    assert_eq!(find_line_end(b"ab\ncd\n", 6), Some(2));
    assert_eq!(find_line_end(b"ab\ncd\n", 2), None);
    assert_eq!(find_crlf(b"EHLO x\r\nQUIT\r\n", 14), Some(6));
    assert_eq!(find_crlf(b"EHLO x\r", 7), None);
    assert_eq!(find_dot_terminator(b"hi\r\n.\r\n", 7), Some(2));
    assert_eq!(find_dot_terminator(b"hi\r\n.\r", 6), None);
    assert_eq!(extract_angle_addr(b"MAIL FROM:<a@b>", 15), Some((11, 14)));
    assert_eq!(extract_angle_addr(b"MAIL FROM:<a@b.c>", 17), Some((11, 16)));
    assert_eq!(extract_angle_addr(b"TO:<>", 5), Some((4, 4)));
    assert_eq!(extract_angle_addr(b"MAIL FROM:a@b", 13), None);
    assert_eq!(skip_spaces(b"a   b", 1), 4);
    assert_eq!(next_token(b"  PRODUCE t k", 0), (2, 9));
    assert_eq!(make_cstr(b"/bin/sh", 256), Some(b"/bin/sh\0".to_vec()));
    assert_eq!(make_cstr(b"abc", 3), None);
}

#[test]
fn hash_known_values() {
    assert_eq!(fnv1a_hash(b""), FNV_OFFSET);
    assert_eq!(fnv1a_hash(b"a"), 0xaf63dc4c8601ec8c);
    assert_eq!(fnv1a_hash(b"foobar"), 0x85944171f73967e8);
    assert_eq!(fnv1a_update(fnv1a_hash(b"foo"), b"bar"), fnv1a_hash(b"foobar"));
    assert_eq!(hash_line(0xaf63dc4c8601ec8c), b"af63dc4c8601ec8c\n".to_vec());
    assert_eq!(hash_line(1), b"0000000000000001\n".to_vec());
}

#[test]
fn numbers_format() {
    assert_eq!(format_u64(0), b"0".to_vec());
    assert_eq!(format_u64(u64::MAX), b"18446744073709551615".to_vec());
    assert_eq!(format_u32(4096), b"4096".to_vec());
    assert_eq!(format_i32(-42), b"-42".to_vec());
    assert_eq!(format_i32(i32::MIN), b"-2147483648".to_vec());
    assert_eq!(format_hex(0), b"0".to_vec());
    assert_eq!(format_hex(0x7ffd1234), b"7ffd1234".to_vec());
    assert_eq!(format_hex64(0xabc), b"0000000000000abc".to_vec());
    assert_eq!(format_hex_u32(0x4a), b"0x0000004a".to_vec());
    assert_eq!(format_hex_u32(0xdeadbeef), b"0xdeadbeef".to_vec());
}

#[test]
fn numbers_parse() {
    assert_eq!(parse_u32(b"123abc"), 123);
    assert_eq!(parse_u32(b"x1"), 0);
    assert_eq!(parse_u32(b"4294967297"), 1);
    assert_eq!(parse_u64(b"18446744073709551616"), 0);
    assert_eq!(parse_u16(b"65535"), Some(65535));
    assert_eq!(parse_u16(b"65536"), None);
    assert_eq!(parse_u16(b""), None);
    assert_eq!(parse_u16(b"80x"), None);
    assert_eq!(parse_u32_from_slice(b"64"), 64);
    assert_eq!(parse_u32_from_slice(b"6a"), 0);
    assert_eq!(parse_hex64(b"00000000000000ff"), Some(255));
    assert_eq!(parse_hex64(b"00000000000000FF"), Some(255));
    assert_eq!(parse_hex64(b"ff"), None);
    assert_eq!(parse_hex64(b"000000000000000g"), None);
}

#[test]
fn wasm_exports() {
    assert_eq!(add(2, 3), 5);
    assert_eq!(add(i32::MAX, 1), i32::MIN);
    assert_eq!(fib(0), 0);
    assert_eq!(fib(1), 1);
    assert_eq!(fib(10), 55);
    assert_eq!(fib(46), 1836311903);
    assert_eq!(fib(-3), 0);
}
