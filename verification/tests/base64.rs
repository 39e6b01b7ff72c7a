use tiny_rust::base64::{args_contain_d, Base64Decoder, Base64Encoder};

fn enc_chunks(data: &[u8], chunk: usize) -> String {
    let mut e = Base64Encoder::new();
    let mut out = Vec::new();
    for c in data.chunks(chunk.max(1)) {
        out.extend(e.encode_chunk(c));
    }
    out.extend(e.finish());
    String::from_utf8(out).unwrap()
}

fn dec_chunks(data: &[u8], chunk: usize) -> Vec<u8> {
    let mut d = Base64Decoder::new();
    let mut out = Vec::new();
    for c in data.chunks(chunk.max(1)) {
        out.extend(d.decode_chunk(c));
    }
    out
}

#[test]
fn rfc_vectors_encode() {
    let cases: [(&str, &str); 7] = [
        ("", ""),
        ("f", "Zg=="),
        ("fo", "Zm8="),
        ("foo", "Zm9v"),
        ("foob", "Zm9vYg=="),
        ("fooba", "Zm9vYmE="),
        ("foobar", "Zm9vYmFy"),
    ];
    for (plain, coded) in cases {
        assert_eq!(enc_chunks(plain.as_bytes(), 4096), format!("{}\n", coded));
        assert_eq!(enc_chunks(plain.as_bytes(), 1), format!("{}\n", coded));
    }
}

#[test]
fn rfc_vectors_decode() {
    assert_eq!(dec_chunks(b"Zm9vYmFy\n", 4096), b"foobar".to_vec());
    assert_eq!(dec_chunks(b"Zm9vYg==", 3), b"foob".to_vec());
    assert_eq!(dec_chunks(b"Zm9v YmE=\r\n", 1), b"fooba".to_vec());
    assert_eq!(dec_chunks(b"Zm9", 4096), b"".to_vec());
}

#[test]
fn all_bytes_round_trip() {
    let data: Vec<u8> = (0..=255u8).chain(0..=100u8).collect();
    for chunk in [1usize, 2, 3, 4, 7, 64, 4096] {
        let coded = enc_chunks(&data, chunk);
        assert!(coded.bytes().all(|c| c.is_ascii_alphanumeric() || c == b'+' || c == b'/' || c == b'=' || c == b'\n'));
        assert_eq!(dec_chunks(coded.as_bytes(), chunk), data);
    }
}

#[test]
fn symbols_of_the_alphabet() {
    assert_eq!(enc_chunks(&[0xfb, 0xff, 0xbf], 3), "+/+/\n");
    assert_eq!(dec_chunks(b"+/+/", 4), vec![0xfb, 0xff, 0xbf]);
}

#[test]
fn decode_flag() {
    assert!(args_contain_d(b"tiny-base64\0-d\0"));
    assert!(args_contain_d(b"tiny-base64\0x\0-d"));
    assert!(!args_contain_d(b"tiny-base64\0"));
    assert!(!args_contain_d(b"-d\0"));
    assert!(!args_contain_d(b"tiny-base64\0-dx\0"));
    assert!(!args_contain_d(b""));
}
