use tiny_rust::smtp::Session;

fn feed(s: &mut Session, count: &mut u32, input: &str) -> (String, String, bool) {
    let o = s.on_read(input.as_bytes(), count);
    (String::from_utf8(o.reply).unwrap(), String::from_utf8(o.log).unwrap(), o.close)
}

#[test]
fn smtp_full_dialogue() {
    let (mut s, greeting) = Session::new();
    assert_eq!(greeting, b"220 tiny-smtp ready\r\n".to_vec());
    let mut count = 0u32;
    assert_eq!(feed(&mut s, &mut count, "MAIL FROM:<a@b>\r\n").0, "503 Say EHLO first\r\n");
    assert_eq!(
        feed(&mut s, &mut count, "EHLO x\r\n").0,
        "250-tiny-smtp\r\n250-SIZE 10240\r\n250 OK\r\n"
    );
    assert_eq!(feed(&mut s, &mut count, "RCPT TO:<c@d>\r\n").0, "503 Bad sequence\r\n");
    assert_eq!(feed(&mut s, &mut count, "mail from:<a@b>\r\nrcpt to:<c@d>\r\n").0, "250 OK\r\n250 OK\r\n");
    assert_eq!(
        feed(&mut s, &mut count, "DATA\r\n").0,
        "354 Start mail input; end with <CRLF>.<CRLF>\r\n"
    );
    let (reply, log, _) = feed(&mut s, &mut count, "Subject: hi\r\n\r\nbody\r\n.\r\n");
    assert_eq!(reply, "250 OK\r\n");
    assert_eq!(log, "[#1] MAIL FROM:a@b TO:c@d (19 bytes)\n");
    assert_eq!(count, 1);
    assert_eq!(feed(&mut s, &mut count, "NOOP\r\n").0, "250 OK\r\n");
    assert_eq!(feed(&mut s, &mut count, "HELP\r\n").0, "500 Unrecognized command\r\n");
    let (reply, _, close) = feed(&mut s, &mut count, "QUIT\r\n");
    assert_eq!(reply, "221 Bye\r\n");
    assert!(close);
}

#[test]
fn smtp_partial_lines_and_rset() {
    let (mut s, _) = Session::new();
    let mut count = 0u32;
    assert_eq!(feed(&mut s, &mut count, "HE").0, "");
    assert_eq!(feed(&mut s, &mut count, "LO there\r\n").0, "250 tiny-smtp\r\n");
    assert_eq!(feed(&mut s, &mut count, "MAIL FROM: bob\r\n").0, "250 OK\r\n");
    assert_eq!(s.from, b" bob".to_vec());
    assert_eq!(feed(&mut s, &mut count, "RSET\r\n").0, "250 OK\r\n");
    assert_eq!(feed(&mut s, &mut count, "DATA\r\n").0, "503 Bad sequence\r\n");
}

#[test]
fn smtp_line_too_long() {
    let (mut s, _) = Session::new();
    let mut count = 0u32;
    let long = "x".repeat(512);
    assert_eq!(feed(&mut s, &mut count, &long).0, "500 Line too long\r\n");
    assert_eq!(s.room(), 512);
}
