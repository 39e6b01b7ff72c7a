use tiny_rust::random::{next_bytes, next_line, parse_args, parse_count, seed_or_fallback, xorshift64, FALLBACK_SEED};

fn step(x: u64) -> u64 {
    let mut x = x;
    x ^= x << 13;
    x ^= x >> 7;
    x ^= x << 17;
    x
}

#[test]
fn xorshift_from_one() {
    let mut s = 1u64;
    assert_eq!(xorshift64(&mut s), 1082269761);
    assert_eq!(s, 1082269761);
    let mut t = 1u64;
    for _ in 0..100 {
        let v = xorshift64(&mut t);
        assert_ne!(v, 0);
    }
}

#[test]
fn zero_seed_is_replaced() {
    assert_eq!(seed_or_fallback(0), FALLBACK_SEED);
    assert_eq!(seed_or_fallback(42), 42);
}

#[test]
fn decimal_lines() {
    let mut s = 1u64;
    assert_eq!(next_line(&mut s), b"1082269761\n".to_vec());
    let second = step(1082269761);
    assert_eq!(next_line(&mut s), format!("{}\n", second).into_bytes());
}

#[test]
fn raw_bytes() {
    let mut s = 7u64;
    let out = next_bytes(&mut s, 10);
    let v1 = step(7);
    let v2 = step(v1);
    let mut want = v1.to_le_bytes().to_vec();
    want.extend_from_slice(&v2.to_le_bytes()[..2]);
    assert_eq!(out, want);
    assert_eq!(s, v2);
    let mut s = 7u64;
    assert_eq!(next_bytes(&mut s, 0), Vec::<u8>::new());
    assert_eq!(s, 7);
    let mut s = 7u64;
    assert_eq!(next_bytes(&mut s, 4096).len(), 4096);
}

#[test]
fn counts() {
    assert_eq!(parse_count(b"123"), Some(123));
    assert_eq!(parse_count(b""), Some(0));
    assert_eq!(parse_count(b"12a"), None);
    assert_eq!(parse_count(b"18446744073709551617"), Some(1));
}

#[test]
fn options() {
    assert_eq!(parse_args(b"tiny-random\0"), Some((1, false)));
    assert_eq!(parse_args(b"tiny-random\0-n\05\0"), Some((5, false)));
    assert_eq!(parse_args(b"tiny-random\0-b\016\0"), Some((16, true)));
    assert_eq!(parse_args(b"tiny-random\0-b\016\0-n\03\0"), Some((3, true)));
    assert_eq!(parse_args(b"tiny-random\0-n\0x\0"), None);
    assert_eq!(parse_args(b"tiny-random\0-n\0"), Some((1, false)));
    assert_eq!(parse_args(b"tiny-random\0\0\0-n\07"), Some((7, false)));
    assert_eq!(parse_args(b""), Some((1, false)));
}
