use tiny_rust::cmdline::arg_count_of;
use tiny_rust::numfmt::parse_u16;
use tiny_rust::portscan::{get_arg, open_line, parse_ipv4, scan_header, summary_line, usage};

#[test]
fn addresses() {
    assert_eq!(parse_ipv4(b"127.0.0.1"), Some(0x7f00_0001));
    assert_eq!(parse_ipv4(b"192.168.1.254"), Some(0xc0a8_01fe));
    assert_eq!(parse_ipv4(b"0.0.0.0"), Some(0));
    assert_eq!(parse_ipv4(b"256.0.0.1"), None);
    assert_eq!(parse_ipv4(b"1.2.3"), None);
    assert_eq!(parse_ipv4(b"1.2.3.4.5"), None);
    assert_eq!(parse_ipv4(b"1..3.4"), None);
    assert_eq!(parse_ipv4(b"1.2.3.x"), None);
    assert_eq!(parse_ipv4(b"1.2.3."), None);
    assert_eq!(parse_ipv4(b""), None);
}

#[test]
fn ports() {
    assert_eq!(parse_u16(b"9990"), Some(9990));
    assert_eq!(parse_u16(b"65535"), Some(65535));
    assert_eq!(parse_u16(b"65536"), None);
    assert_eq!(parse_u16(b""), None);
    assert_eq!(parse_u16(b"80a"), None);
}

#[test]
fn fields_of_the_command_line() {
    let c = b"tiny-portscan\0127.0.0.1\09990\010000\0";
    assert_eq!(arg_count_of(c), 4);
    assert_eq!(get_arg(c, 0), Some(b"tiny-portscan".to_vec()));
    assert_eq!(get_arg(c, 1), Some(b"127.0.0.1".to_vec()));
    assert_eq!(get_arg(c, 3), Some(b"10000".to_vec()));
    assert_eq!(get_arg(c, 4), None);
    assert_eq!(get_arg(b"a\0\0b", 1), Some(b"".to_vec()));
    assert_eq!(get_arg(b"a\0\0b", 2), Some(b"b".to_vec()));
    assert_eq!(get_arg(b"", 0), None);
}

#[test]
fn report_lines() {
    assert_eq!(scan_header(b"127.0.0.1", 9990, 10000), b"Scanning 127.0.0.1 ports 9990-10000 (timeout 200ms)\n".to_vec());
    assert_eq!(open_line(22), b"  OPEN  22\n".to_vec());
    assert_eq!(summary_line(1), b"Scan complete: 1 open port(s)\n".to_vec());
    assert!(String::from_utf8(usage()).unwrap().starts_with("Usage: tiny-portscan <ip>"));
}
