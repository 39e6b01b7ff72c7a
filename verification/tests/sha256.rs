use tiny_rust::sha256::{format_digest, Sha256};

fn hex(d: &[u8]) -> String {
    d.iter().map(|b| format!("{:02x}", b)).collect()
}

fn digest_in_chunks(data: &[u8], chunk: usize) -> Vec<u8> {
    let mut h = Sha256::new();
    for c in data.chunks(chunk.max(1)) {
        h.update(c);
    }
    h.finalize()
}

#[test]
fn empty_message() {
    let h = Sha256::new();
    assert_eq!(hex(&h.finalize()), "e3b0c44298fc1c149afbf4c8996fb92427ae41e4649b934ca495991b7852b855");
}

#[test]
fn abc() {
    let mut h = Sha256::new();
    h.update(b"abc");
    assert_eq!(hex(&h.finalize()), "ba7816bf8f01cfea414140de5dae2223b00361a396177a9cb410ff61f20015ad");
}

#[test]
fn two_block_padding() {
    let m = b"abcdbcdecdefdefgefghfghighijhijkijkljklmklmnlmnomnopnopq";
    assert_eq!(m.len(), 56);
    let mut h = Sha256::new();
    h.update(m);
    assert_eq!(hex(&h.finalize()), "248d6a61d20638b8e5c026930c3e6039a33ce45964ff2167f6ecedd419db06c1");
}

#[test]
fn million_a() {
    let m = vec![b'a'; 1_000_000];
    assert_eq!(
        hex(&digest_in_chunks(&m, 4096)),
        "cdc76e5c9914fb9281a1c7e284d73e67f1809a48a497200e046d39ccc7112cd0"
    );
}

#[test]
fn chunking_does_not_matter() {
    let m: Vec<u8> = (0..300u32).map(|i| (i * 7 + 3) as u8).collect();
    let whole = digest_in_chunks(&m, m.len());
    for chunk in [1usize, 3, 55, 56, 63, 64, 65, 100, 128] {
        assert_eq!(digest_in_chunks(&m, chunk), whole);
    }
    for len in [55usize, 56, 63, 64, 119, 120] {
        let part = &m[..len];
        assert_eq!(digest_in_chunks(part, 1), digest_in_chunks(part, len));
    }
}

#[test]
fn printed_line() {
    let mut h = Sha256::new();
    h.update(b"abc");
    let line = format_digest(&h.finalize());
    assert_eq!(
        String::from_utf8(line).unwrap(),
        "ba7816bf8f01cfea414140de5dae2223b00361a396177a9cb410ff61f20015ad -\n"
    );
}
