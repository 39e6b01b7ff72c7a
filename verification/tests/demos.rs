use tiny_rust::demos::{
    child_banner, child_exit_report, get_argv1, hello, mapped_header, parent_banner, pipe_chunk, pipe_messages,
    server_banner, server_log, server_response, signal_banner, yes_line, SignalCounter,
};

fn s(v: Vec<u8>) -> String {
    String::from_utf8(v).unwrap()
}

#[test]
fn greetings() {
    assert_eq!(s(hello()), "Hello, tiny world!\n");
    assert_eq!(s(yes_line()), "y\n");
}

#[test]
fn web_server() {
    let r = s(server_response());
    let body = "<html><body><h1>Hello from tiny-server!</h1><p>A ~14KB HTTP server with no standard library.</p></body></html>";
    assert_eq!(
        r,
        format!("HTTP/1.1 200 OK\r\nContent-Type: text/html\r\nConnection: close\r\nContent-Length: {}\r\n\r\n{}", body.len(), body)
    );
    assert_eq!(s(server_banner()), "Listening on port 9999\n");
    assert_eq!(s(server_log(12)), "[12] 200 OK\n");
}

#[test]
fn pipe_demo() {
    let m = pipe_messages();
    assert_eq!(m.len(), 3);
    assert_eq!(s(m[2].clone()), "This is the last message. Goodbye!\n");
    assert_eq!(s(child_banner(1234, 3)), "[child  pid=1234] sending 3 messages through pipe\n");
    assert_eq!(s(parent_banner(1233, 1234)), "[parent pid=1233] forked child pid=1234\n[parent] reading from pipe:\n");
    assert_eq!(s(pipe_chunk(b"hi\n")), "  > hi\n");
    assert_eq!(s(child_exit_report(0)), "[parent] child exited with status 0\n");
    assert_eq!(s(child_exit_report(2 << 8)), "[parent] child exited with status 2\n");
    assert_eq!(s(child_exit_report(15)), "[parent] child terminated abnormally\n");
}

#[test]
fn mapped_file() {
    assert_eq!(get_argv1(b"tiny-mmap\0/etc/hosts\0"), Some(b"/etc/hosts".to_vec()));
    assert_eq!(get_argv1(b"tiny-mmap\0"), None);
    assert_eq!(get_argv1(b"tiny-mmap\0\0x\0"), None);
    let long = format!("tiny-mmap\0{}\0", "a".repeat(256));
    assert_eq!(get_argv1(long.as_bytes()), None);
    assert_eq!(s(mapped_header(b"/etc/hosts", 42)), "File: /etc/hosts\nSize: 42 bytes (memory-mapped)\n\n");
}

#[test]
fn signals() {
    let mut c = SignalCounter::new();
    assert_eq!(signal_banner(77), b"PID: 77\nWaiting for signals... (Ctrl+C to quit, kill -USR1 <pid> to ping)\n".to_vec());
    let (out, stop) = c.on_wake(true, false);
    assert_eq!(s(out), "Caught SIGUSR1 (#1)\n");
    assert!(!stop);
    let (out, stop) = c.on_wake(false, false);
    assert!(out.is_empty() && !stop);
    let (out, stop) = c.on_wake(true, true);
    assert_eq!(s(out), "Caught SIGUSR1 (#2)\n\nCaught SIGINT, exiting gracefully.\nTotal SIGUSR1 received: 2\n");
    assert!(stop);
}
