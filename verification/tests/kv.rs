use tiny_rust::kv::{classify, kv_delete, kv_find, kv_put, KvMethod, KvRoute, KvStore, MAX_LOAD};

fn text(r: &[u8]) -> String {
    String::from_utf8(r.to_vec()).unwrap()
}

fn get(st: &KvStore, key: &[u8]) -> Option<Vec<u8>> {
    kv_find(st, key).map(|i| st.entries[i].val.clone())
}

fn ask(st: &mut KvStore, req: &[u8]) -> (String, String, String) {
    let route = classify(req);
    let val: Vec<u8> = match &route {
        KvRoute::Put(_, s, n, _) => req[*s..*s + *n].to_vec(),
        _ => Vec::new(),
    };
    let r = st.respond(&route, &val);
    (text(&r.response), text(&r.route), text(&r.status))
}

#[test]
fn put_get_delete() {
    let mut st = KvStore::new();
    assert!(kv_put(&mut st, b"alpha", b"one"));
    assert!(kv_put(&mut st, b"beta", b"two"));
    assert_eq!(get(&st, b"alpha"), Some(b"one".to_vec()));
    assert_eq!(get(&st, b"beta"), Some(b"two".to_vec()));
    assert!(kv_put(&mut st, b"alpha", b"uno"));
    assert_eq!(get(&st, b"alpha"), Some(b"uno".to_vec()));
    assert_eq!(st.count, 2);
    assert!(kv_delete(&mut st, b"alpha"));
    assert!(!kv_delete(&mut st, b"alpha"));
    assert_eq!(get(&st, b"alpha"), None);
    assert_eq!(get(&st, b"beta"), Some(b"two".to_vec()));
    assert_eq!(st.count, 1);
}

#[test]
fn values_are_cut_at_256_bytes() {
    let mut st = KvStore::new();
    let long = vec![7u8; 300];
    assert!(kv_put(&mut st, b"k", &long));
    assert_eq!(get(&st, b"k").unwrap().len(), 256);
}

#[test]
fn many_keys_survive_deletes_between_them() {
    let mut st = KvStore::new();
    for i in 0..150u32 {
        let k = format!("key{}", i);
        assert!(kv_put(&mut st, k.as_bytes(), format!("v{}", i).as_bytes()));
    }
    for i in (0..150u32).step_by(3) {
        assert!(kv_delete(&mut st, format!("key{}", i).as_bytes()));
    }
    for i in 0..150u32 {
        let got = get(&st, format!("key{}", i).as_bytes());
        if i % 3 == 0 {
            assert_eq!(got, None);
        } else {
            assert_eq!(got, Some(format!("v{}", i).into_bytes()));
        }
    }
    assert_eq!(st.count, 100);
}

#[test]
fn store_refuses_past_three_quarters() {
    let mut st = KvStore::new();
    for i in 0..MAX_LOAD {
        assert!(kv_put(&mut st, format!("k{}", i).as_bytes(), b"x"));
    }
    assert!(!kv_put(&mut st, b"another", b"x"));
    assert!(!kv_put(&mut st, b"k1", b"y"));
    assert_eq!(get(&st, b"k1"), Some(b"x".to_vec()));
    let (resp, route, status) = ask(&mut st, b"PUT /key/more HTTP/1.1\r\nContent-Length: 1\r\n\r\nz");
    assert_eq!(resp, "HTTP/1.1 507 Insufficient Storage\r\nContent-Type: text/plain\r\nConnection: close\r\nContent-Length: 11\r\n\r\nstore full\n");
    assert_eq!((route.as_str(), status.as_str()), ("PUT /key/*", "507"));
}

#[test]
fn http_round_trip() {
    let mut st = KvStore::new();
    let (resp, route, status) = ask(&mut st, b"PUT /key/foo HTTP/1.1\r\nContent-Length: 3\r\n\r\nbar");
    assert_eq!(resp, "HTTP/1.1 200 OK\r\nContent-Type: text/plain\r\nConnection: close\r\nContent-Length: 11\r\n\r\nstored foo\n");
    assert_eq!((route.as_str(), status.as_str()), ("PUT /key/*", "200"));
    let (resp, route, _) = ask(&mut st, b"GET /key/foo HTTP/1.1\r\n\r\n");
    assert_eq!(resp, "HTTP/1.1 200 OK\r\nContent-Type: application/octet-stream\r\nConnection: close\r\nContent-Length: 3\r\n\r\nbar");
    assert_eq!(route, "GET /key/*");
    let (resp, _, _) = ask(&mut st, b"GET /stats HTTP/1.1\r\n\r\n");
    assert_eq!(resp, "HTTP/1.1 200 OK\r\nContent-Type: text/plain\r\nConnection: close\r\nContent-Length: 31\r\n\r\ntiny-kv\ncount: 1\ncapacity: 256\n");
    let (resp, route, status) = ask(&mut st, b"DELETE /key/foo HTTP/1.1\r\n\r\n");
    assert_eq!(resp, "HTTP/1.1 200 OK\r\nContent-Type: text/plain\r\nConnection: close\r\nContent-Length: 12\r\n\r\ndeleted foo\n");
    assert_eq!((route.as_str(), status.as_str()), ("DELETE /key/*", "200"));
    let (resp, _, status) = ask(&mut st, b"GET /key/foo HTTP/1.1\r\n\r\n");
    assert_eq!(resp, "HTTP/1.1 404 Not Found\r\nContent-Type: text/plain\r\nConnection: close\r\nContent-Length: 10\r\n\r\nnot found\n");
    assert_eq!(status, "404");
    let (_, route, status) = ask(&mut st, b"DELETE /key/foo HTTP/1.1\r\n\r\n");
    assert_eq!((route.as_str(), status.as_str()), ("DELETE /key/*", "404"));
}

#[test]
fn bad_keys_and_unknown_routes() {
    let mut st = KvStore::new();
    assert!(matches!(classify(b"GET /key/ HTTP/1.1\r\n\r\n"), KvRoute::BadKey(KvMethod::Get)));
    let long = format!("PUT /key/{} HTTP/1.1\r\n\r\n", "a".repeat(65));
    assert!(matches!(classify(long.as_bytes()), KvRoute::BadKey(KvMethod::Put)));
    let (resp, route, status) = ask(&mut st, b"DELETE /key/ HTTP/1.1\r\n\r\n");
    assert_eq!(resp, "HTTP/1.1 400 Bad Request\r\nContent-Type: text/plain\r\nConnection: close\r\nContent-Length: 12\r\n\r\ninvalid key\n");
    assert_eq!((route.as_str(), status.as_str()), ("DELETE /key/", "400"));
    let (resp, route, _) = ask(&mut st, b"POST /key/a HTTP/1.1\r\n\r\n");
    assert!(resp.starts_with("HTTP/1.1 404 Not Found\r\n"));
    assert_eq!(route, "?");
    let (resp, route, _) = ask(&mut st, b"GET /key/a HTTP/1.1\r\n");
    assert_eq!(resp, "HTTP/1.1 400 Bad Request\r\n\r\n");
    assert_eq!(route, "");
}

#[test]
fn put_body_parts() {
    match classify(b"PUT /key/k HTTP/1.1\r\ncontent-length: 10\r\n\r\nabc") {
        KvRoute::Put(k, s, n, want) => {
            assert_eq!(k, b"k".to_vec());
            assert_eq!(n, 3);
            assert_eq!(want, 10);
            assert_eq!(s, 43);
        }
        _ => panic!("not a put"),
    }
}

#[test]
fn long_key_is_stored_cut() {
    let mut st = KvStore::new();
    let long = vec![b'k'; 70];
    assert!(kv_put(&mut st, &long, b"v"));
    assert_eq!(st.count, 1);
    assert_eq!(get(&st, &long), None);
    let i = st.entries.iter().position(|e| e.val == b"v".to_vec()).unwrap();
    assert_eq!(st.entries[i].key, vec![b'k'; 64]);
    assert!(kv_put(&mut st, &long, b"w"));
    assert_eq!(st.count, 2);
}
