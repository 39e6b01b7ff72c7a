use tiny_rust::objstore::{classify, log_request, ObjRoute, ObjStore};

fn respond(s: &mut ObjStore, req: &[u8], body: &[u8]) -> (String, String) {
    let route = classify(req);
    let r = s.respond(&route, body);
    (String::from_utf8(r.response).unwrap(), String::from_utf8(r.status).unwrap())
}

#[test]
fn objstore_put_get_delete() {
    let mut s = ObjStore::new();
    let (resp, status) = respond(&mut s, b"PUT /obj HTTP/1.1\r\nContent-Length: 5\r\n\r\nhello", b"hello");
    assert_eq!(status, "200");
    // fnv1a("hello") = a430d84680aabd0b
    assert!(resp.ends_with("\r\n\r\nstored\nid=a430d84680aabd0b\nsize=5\n"));
    let (resp, _) = respond(&mut s, b"PUT /obj HTTP/1.1\r\n\r\n", b"hello");
    assert!(resp.ends_with("exists\nid=a430d84680aabd0b\nsize=5\n"));
    let (resp, status) = respond(&mut s, b"GET /obj/A430D84680AABD0B HTTP/1.1\r\n\r\n", b"");
    assert_eq!(status, "200");
    assert!(resp.contains("Content-Type: application/octet-stream"));
    assert!(resp.ends_with("\r\n\r\nhello"));
    let (resp, _) = respond(&mut s, b"GET /stats HTTP/1.1\r\n\r\n", b"");
    assert!(resp.ends_with("tiny-objstore\nobjects: 1\nbytes: 5\ncapacity: 64\n"));
    let (resp, status) = respond(&mut s, b"DELETE /obj/a430d84680aabd0b HTTP/1.1\r\n\r\n", b"");
    assert_eq!(status, "200");
    assert!(resp.ends_with("deleted a430d84680aabd0b\n"));
    let (_, status) = respond(&mut s, b"GET /obj/a430d84680aabd0b HTTP/1.1\r\n\r\n", b"");
    assert_eq!(status, "404");
    let (resp, status) = respond(&mut s, b"GET /obj/xyz HTTP/1.1\r\n\r\n", b"");
    assert_eq!(status, "400");
    assert!(resp.ends_with("invalid hex id\n"));
    let (_, status) = respond(&mut s, b"POST /x HTTP/1.1\r\n\r\n", b"");
    assert_eq!(status, "404");
    let (resp, _) = respond(&mut s, b"GET /obj", b"");
    assert_eq!(resp, "HTTP/1.1 400 Bad Request\r\n\r\n");
}

#[test]
fn objstore_classify_put_body() {
    match classify(b"PUT /obj HTTP/1.1\r\nContent-Length: 10\r\n\r\nabc") {
        ObjRoute::Put(start, have, want) => {
            assert_eq!(have, 3);
            assert_eq!(want, 10);
            assert_eq!(start, 41);
        }
        _ => panic!("expected a PUT"),
    }
}

#[test]
fn objstore_full_store() {
    let mut s = ObjStore::new();
    for i in 0..64u32 {
        let body = format!("object {}", i);
        let (_, status) = respond(&mut s, b"PUT /obj HTTP/1.1\r\n\r\n", body.as_bytes());
        assert_eq!(status, "200");
    }
    let (resp, status) = respond(&mut s, b"PUT /obj HTTP/1.1\r\n\r\n", b"one more");
    assert_eq!(status, "507");
    assert!(resp.ends_with("store full\n"));
}

#[test]
fn objstore_log_line() {
    assert_eq!(log_request(7, b"GET /stats", b"200"), b"[#7] GET /stats -> 200\n".to_vec());
}

#[test]
fn obj_store_keeps_first_bytes_under_hash_of_all() {
    let mut s = ObjStore::new();
    let big = vec![7u8; 5000];
    let (id, fresh) = s.obj_store(&big).unwrap();
    assert!(fresh);
    assert_eq!(id, tiny_rust::hash::fnv1a_hash(&big));
    let k = s.obj_find(id).unwrap();
    assert_eq!(s.objects[k].data.len(), 4096);
    assert_eq!(s.obj_store(&big), Some((id, false)));
}
