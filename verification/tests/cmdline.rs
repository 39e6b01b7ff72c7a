use tiny_rust::cmdline::{applet_for, args, cat_error, cat_inputs, echo_line, get_argv0, usage_text, Applet, CatInput};
use tiny_rust::xorpack::{encrypted, payload, xor_bytes, XOR_KEY};

#[test]
fn invoked_names() {
    assert_eq!(get_argv0(b"/usr/local/bin/echo\0hi\0"), b"echo".to_vec());
    assert_eq!(get_argv0(b"yes"), b"yes".to_vec());
    assert_eq!(get_argv0(b"dir/\0"), b"".to_vec());
    assert_eq!(get_argv0(b""), b"".to_vec());
}

#[test]
fn applets() {
    assert!(applet_for(b"yes") == Applet::Yes);
    assert!(applet_for(b"true") == Applet::True);
    assert!(applet_for(b"false") == Applet::False);
    assert!(applet_for(b"echo") == Applet::Echo);
    assert!(applet_for(b"tiny-multicall") == Applet::Usage);
    let u = String::from_utf8(usage_text()).unwrap();
    assert!(u.starts_with("tiny-multicall: BusyBox-style multi-call binary\nAvailable applets: yes, true, false, echo\n"));
}

#[test]
fn echo_joins_arguments() {
    assert_eq!(echo_line(b"echo\0hello\0world\0"), b"hello world\n".to_vec());
    assert_eq!(echo_line(b"echo\0\0a\0\0b"), b"a b\n".to_vec());
    assert_eq!(echo_line(b"echo\0"), b"\n".to_vec());
    assert_eq!(echo_line(b""), b"\n".to_vec());
    assert_eq!(args(b"x\0a\0bc\0"), vec![b"a".to_vec(), b"bc".to_vec()]);
}

#[test]
fn cat_reads() {
    assert!(cat_inputs(b"cat\0") == vec![CatInput::Stdin]);
    assert!(cat_inputs(b"") == vec![CatInput::Stdin]);
    assert!(cat_inputs(b"cat\0a.txt\0-\0") == vec![CatInput::File(b"a.txt".to_vec()), CatInput::Stdin]);
    assert!(cat_inputs(b"cat\0\0").is_empty());
    let long = format!("cat\0{}\0", "p".repeat(256));
    assert!(cat_inputs(long.as_bytes()) == vec![CatInput::TooLong]);
    assert_eq!(cat_error(b"nope"), b"tiny-cat: nope: No such file or directory\n".to_vec());
}

#[test]
fn packer_payload() {
    assert_eq!(payload(), vec![0xbf, 0x2a, 0x00, 0x00, 0x00, 0xb8, 0x3c, 0x00, 0x00, 0x00, 0x0f, 0x05]);
    let e = encrypted();
    assert_eq!(xor_bytes(&xor_bytes(&e, XOR_KEY), XOR_KEY), e);
}
