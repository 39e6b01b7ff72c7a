use tiny_rust::sandbox::{parse_uid, plan, status_line, usage_text, SandboxPlan};
use tiny_rust::udpecho::{echo_banner, parse_command, EchoCommand, EchoStats};

fn s(v: Vec<u8>) -> String {
    String::from_utf8(v).unwrap()
}

#[test]
fn sandbox_plans() {
    assert!(matches!(plan(b"tiny-sandbox\0/tmp/jail\0"), SandboxPlan::Usage));
    assert!(matches!(plan(b"tiny-sandbox\0/tmp/jail\0x1\0"), SandboxPlan::BadUid));
    let long = format!("tiny-sandbox\0{}\01000\0", "d".repeat(256));
    assert!(matches!(plan(long.as_bytes()), SandboxPlan::ChrootTooLong));
    match plan(b"tiny-sandbox\0/tmp/jail\01000\0/bin/ls\0/\0-l\0") {
        SandboxPlan::Run { chroot, uid, cmd, argv, banner } => {
            assert_eq!(chroot, b"/tmp/jail\0".to_vec());
            assert_eq!(uid, 1000);
            assert_eq!(cmd, b"/bin/ls\0".to_vec());
            assert_eq!(argv, vec![b"/bin/ls\0".to_vec(), b"/\0".to_vec(), b"-l\0".to_vec()]);
            assert_eq!(s(banner), "[sandbox] chroot=/tmp/jail uid=1000 cmd=/bin/ls\n");
        }
        _ => panic!("expected a run"),
    }
    match plan(b"tiny-sandbox\0/j\0\0") {
        SandboxPlan::Run { uid, cmd, argv, .. } => {
            assert_eq!(uid, 0);
            assert_eq!(cmd, b"/bin/sh\0".to_vec());
            assert_eq!(argv.len(), 1);
        }
        _ => panic!("expected a run"),
    }
}

#[test]
fn sandbox_reports() {
    assert_eq!(parse_uid(b"42"), Some(42));
    assert_eq!(parse_uid(b"4294967297"), Some(1));
    assert_eq!(parse_uid(b"-1"), None);
    assert_eq!(s(status_line(3 << 8)), "[sandbox] child exited with status 3\n");
    assert_eq!(s(status_line(9)), "[sandbox] child killed by signal 9\n");
    assert!(s(usage_text()).starts_with("tiny-sandbox: chroot + privilege drop + execve\n\nUsage:"));
}

#[test]
fn udp_echo_server() {
    let mut st = EchoStats::new();
    assert_eq!(s(st.on_echo(5)), "[echo] 5 bytes\n");
    st.on_echo(7);
    assert!(parse_command(b"stats\n") == EchoCommand::Stats);
    assert!(parse_command(b"quit \r\n") == EchoCommand::Quit);
    assert!(parse_command(b"help\n") == EchoCommand::Unknown);
    assert_eq!(s(st.answer(EchoCommand::Stats)), "Echoed 2 datagrams, 12 bytes total\n");
    assert_eq!(s(st.answer(EchoCommand::Quit)), "Shutting down.\n");
    assert_eq!(s(st.answer(EchoCommand::Unknown)), "Unknown command. Try: stats, quit\n");
    assert_eq!(s(echo_banner()), "UDP echo server listening on port 9998\nCommands on stdin: stats, quit\n");
}
