use tiny_rust::http::{find_header_end, parse_content_length, request_line_len};
use tiny_rust::proxy::{
    body_remaining, conn_log, format_ip, forward_head, lb_bad_gateway, lb_banner, lb_down_log, lb_forward_log,
    relay_plan, revproxy_bad_gateway, revproxy_banner, revproxy_log, tcp_proxy_banner, RoundRobin,
};

fn s(v: Vec<u8>) -> String {
    String::from_utf8(v).unwrap()
}

#[test]
fn round_robin_turns() {
    let mut rr = RoundRobin::new();
    assert_eq!(rr.on_request(), vec![8081, 8082, 8083]);
    assert_eq!(rr.on_request(), vec![8082, 8083, 8081]);
    assert_eq!(rr.on_request(), vec![8083, 8081, 8082]);
    assert_eq!(rr.on_request(), vec![8081, 8082, 8083]);
    assert_eq!(rr.requests, 4);
}

#[test]
fn lb_lines() {
    assert_eq!(s(lb_banner()), "Round-robin LB on port 9001 -> backends :8081 :8082 :8083\n");
    assert_eq!(s(lb_forward_log(3, 8082, b"GET / HTTP/1.1")), "[#3] -> :8082  GET / HTTP/1.1\n");
    assert_eq!(s(lb_down_log(7)), "[#7] all backends down\n");
    let g = s(lb_bad_gateway());
    assert!(g.ends_with("\r\n\r\nAll backends are down."));
    assert_eq!("All backends are down.".len(), 22);
}

#[test]
fn reverse_proxy_head() {
    let req = b"POST /x HTTP/1.1\r\nHost: a\r\nContent-Length: 10\r\n\r\nhello";
    let he = find_header_end(req, req.len()).unwrap();
    let ip = format_ip(&[10, 0, 0, 7]);
    assert_eq!(s(ip.clone()), "10.0.0.7");
    let head = forward_head(req, he, &ip);
    assert_eq!(
        s(head),
        "POST /x HTTP/1.1\r\nHost: a\r\nContent-Length: 10\r\nX-Forwarded-For: 10.0.0.7\r\n\r\n"
    );
    let cl = parse_content_length(req, he);
    assert_eq!(cl, 10);
    assert_eq!(body_remaining(cl, req.len() - he), 5);
    assert_eq!(body_remaining(3, 5), 0);
    let rl = request_line_len(req, req.len());
    assert_eq!(rl, 18);
    assert_eq!(request_line_len(b"GET / HTTP/1.0\r\nHost: a\r\n\r\n", 27), 16);
    assert_eq!(request_line_len(b"GET / HTTP/1.0", 14), 14);
    assert_eq!(request_line_len(b"GET\r\n", 4), 4);
    assert_eq!(s(revproxy_log(2, &ip, &req[..rl])), "[#2] 10.0.0.7 POST /x HTTP/1.1\n");
    assert_eq!(s(revproxy_banner()), "HTTP reverse proxy listening on port 8888 -> 127.0.0.1:8080\n");
    assert!(s(revproxy_bad_gateway()).ends_with("502 Bad Gateway"));
}

#[test]
fn tcp_relay() {
    assert_eq!(s(tcp_proxy_banner()), "TCP proxy listening on port 9000 -> 127.0.0.1:8080\n");
    assert_eq!(s(conn_log(1, true)), "[conn #1] accepted\n");
    assert_eq!(s(conn_log(1, false)), "[conn #1] closed\n");
    assert!(relay_plan(0, 1, 1).stop);
    assert!(relay_plan(-1, 0, 0).stop);
    let p = relay_plan(1, 1, 0);
    assert!(!p.stop && p.from_client && !p.from_target && !p.stop_after);
    let p = relay_plan(2, 1 | 8, 1);
    assert!(p.from_client && p.from_target && p.stop_after);
}
