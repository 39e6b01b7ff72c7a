use tiny_rust::blockchain::{chain_add, chain_init, classify, compute_block_hash, ChainRoute, MAX_BLOCKS};

fn fnv(data: &[u8]) -> u64 {
    let mut h: u64 = 0xcbf29ce484222325;
    for &b in data {
        h ^= b as u64;
        h = h.wrapping_mul(0x100000001b3);
    }
    h
}

fn expected_hash(index: u32, ts: i64, data: &[u8], prev: u64) -> u64 {
    let mut v = Vec::new();
    v.extend_from_slice(&index.to_le_bytes());
    v.extend_from_slice(&ts.to_le_bytes());
    v.extend_from_slice(data);
    v.extend_from_slice(&prev.to_le_bytes());
    fnv(&v)
}

fn text(r: &[u8]) -> String {
    String::from_utf8(r.to_vec()).unwrap()
}

#[test]
fn genesis_block() {
    let c = chain_init(1_700_000_000);
    assert_eq!(c.blocks.len(), 1);
    let g = &c.blocks[0];
    assert_eq!(g.index, 0);
    assert_eq!(g.data, b"genesis".to_vec());
    assert_eq!(g.prev_hash, 0);
    assert_eq!(g.hash, expected_hash(0, 1_700_000_000, b"genesis", 0));
    assert_eq!(compute_block_hash(g), g.hash);
}

#[test]
fn blocks_link_to_their_predecessor() {
    let mut c = chain_init(5);
    assert!(chain_add(&mut c, b"hello", 6));
    assert!(chain_add(&mut c, b"world", -7));
    assert_eq!(c.blocks.len(), 3);
    for i in 1..3 {
        assert_eq!(c.blocks[i].index as usize, i);
        assert_eq!(c.blocks[i].prev_hash, c.blocks[i - 1].hash);
    }
    assert_eq!(c.blocks[2].hash, expected_hash(2, -7, b"world", c.blocks[1].hash));
}

#[test]
fn data_is_cut_and_chain_fills_up() {
    let mut c = chain_init(0);
    let long = vec![b'a'; 300];
    assert!(chain_add(&mut c, &long, 1));
    assert_eq!(c.blocks[1].data.len(), 256);
    while c.blocks.len() < MAX_BLOCKS {
        assert!(chain_add(&mut c, b"x", 2));
    }
    assert!(!chain_add(&mut c, b"y", 3));
    assert_eq!(c.blocks.len(), MAX_BLOCKS);
}

#[test]
fn http_answers() {
    let mut c = chain_init(0);
    let h0 = c.blocks[0].hash;
    let r = c.respond(&classify(b"GET / HTTP/1.1\r\n\r\n"), b"", 0);
    let body = format!("tiny-blockchain\nblocks: 1\nlatest: {:016x}\n", h0);
    assert_eq!(
        text(&r.response),
        format!("HTTP/1.1 200 OK\r\nContent-Type: text/plain\r\nConnection: close\r\nContent-Length: {}\r\n\r\n{}", body.len(), body)
    );
    assert_eq!(text(&r.route), "GET /");
    let req = b"POST /block HTTP/1.1\r\nContent-Length: 4\r\n\r\nabcd";
    let route = classify(req);
    let data = match route {
        ChainRoute::Add(s, n, want) => {
            assert_eq!((n, want), (4, 4));
            req[s..s + n].to_vec()
        }
        _ => panic!("not an add"),
    };
    let r = c.respond(&route, &data, 9);
    let h1 = c.blocks[1].hash;
    assert_eq!(h1, expected_hash(1, 9, b"abcd", h0));
    assert!(text(&r.response).ends_with(&format!("added block 1\nhash={:016x}\n", h1)));
    assert_eq!((text(&r.route).as_str(), text(&r.status).as_str()), ("POST /block", "200"));
    let r = c.respond(&classify(b"GET /chain HTTP/1.1\r\n\r\n"), b"", 0);
    let dump = format!(
        "[0] {:016x} prev={:016x} data=genesis\n[1] {:016x} prev={:016x} data=abcd\n",
        h0, 0, h1, h0
    );
    assert!(text(&r.response).ends_with(&dump));
    let r = c.respond(&classify(b"GET /nope HTTP/1.1\r\n\r\n"), b"", 0);
    assert_eq!((text(&r.route).as_str(), text(&r.status).as_str()), ("?", "404"));
    let r = c.respond(&classify(b"GET / HTTP/1.1\r\n"), b"", 0);
    assert_eq!(text(&r.response), "HTTP/1.1 400 Bad Request\r\n\r\n");
}

#[test]
fn long_dump_is_cut() {
    let mut c = chain_init(0);
    let long = vec![b'z'; 256];
    while c.blocks.len() < MAX_BLOCKS {
        chain_add(&mut c, &long, 1);
    }
    let r = c.respond(&classify(b"GET /chain HTTP/1.1\r\n\r\n"), b"", 0);
    assert!(text(&r.response).contains("Content-Length: 4096\r\n"));
    let full = c.respond(&classify(b"POST /block HTTP/1.1\r\n\r\n"), b"", 0);
    assert!(text(&full.response).ends_with("chain full\n"));
}
